use vstd::prelude::*;
use crate::map::{PathMap, PathModel};
use crate::value::{ChangeModel, ItemChange};

verus! {

/// A sparse edit set: paths mapped to item changes, valid only against the
/// exact baseline record it was computed from.
pub type Patch = PathMap<ItemChange>;

/// The model of one patch entry.
pub type PatchEntryModel = (PathModel, ChangeModel);

/// The contending edits on one conflicted path, in source-submission order.
pub type Contenders = Vec<(String, ItemChange)>;

/// The model of the contenders on one path.
pub type ContendersModel = Seq<(Seq<char>, ChangeModel)>;

/// Paths mapped to the ordered contending (source, change) pairs that
/// disagree there; every entry needs resolution before the merged patch is
/// complete.
pub type Conflicts = PathMap<Contenders>;

/// One source's raw, unmerged contribution: the source's name and its
/// ordered (path, change) pairs.
#[derive(Debug)]
pub struct SourceChange {
    pub source: String,
    pub changes: Vec<(Vec<String>, ItemChange)>,
}

/// The model of a source change-set.
pub struct SourceChangeModel {
    pub source: Seq<char>,
    pub changes: Seq<PatchEntryModel>,
}

impl View for SourceChange {
    type V = SourceChangeModel;

    open spec fn view(&self) -> SourceChangeModel {
        SourceChangeModel { source: self.source@, changes: self.changes.deep_view() }
    }
}

impl DeepView for SourceChange {
    type V = SourceChangeModel;

    open spec fn deep_view(&self) -> SourceChangeModel {
        self.view()
    }
}

/// A fatal condition met while applying a patch: the patch is stale or
/// desynchronized from the record it targets, or the dataset is corrupted.
/// Nothing is applied when one is reported.
#[derive(Clone, Copy, Debug, PartialEq, Eq, Structural)]
pub enum PatchError {
    /// The first path segment names no field of the record.
    UnknownField,
    /// A path has the wrong number of segments for the field it names.
    BadPathShape,
    /// An indexed field's index segment is not a valid in-range numeral.
    BadIndex,
    /// A keyed field has no entity under the key the path names.
    MissingKey,
    /// A change carries a value of the wrong kind for its field.
    BadValueKind,
    /// A removal was requested for a scalar field, which is always present.
    ScalarRemove,
    /// A list removal names an entry the list does not hold.
    MissingListEntry,
    /// Walking a chain field did not terminate within the bound the patch
    /// and the record allow, so the patch links the chain in a cycle.
    ChainCycle,
}

} // verus!
