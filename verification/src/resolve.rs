use vstd::prelude::*;
use crate::map::{assoc_contains, assoc_lookup, lemma_lookup_some, PathMap, PathModel};
use crate::patch::{Conflicts, Patch};

verus! {

/// A resolving patch that does not close out the conflicts it was given.
#[derive(Clone, Copy, Debug, PartialEq, Eq, Structural)]
pub enum ResolveError {
    /// A conflicted path has no resolving change.
    MissingResolution,
    /// The resolution changes a path outside the conflict set.
    ExtraneousResolution,
}

/// Whether a resolving patch closes out the conflicts: exactly one
/// resolving change per conflicted path, and no path outside the set.
pub open spec fn resolution_matches(
    cv: Seq<(PathModel, Seq<(Seq<char>, crate::value::ChangeModel)>)>,
    rv: Seq<(PathModel, crate::value::ChangeModel)>,
) -> bool {
    forall|p: PathModel| #[trigger] assoc_contains(cv, p) <==> #[trigger] assoc_contains(rv, p)
}

/// Checks a resolver's answer against the conflict set it was given.
#[verifier::loop_isolation(false)]
pub fn check_resolution(conflicts: &Conflicts, resolution: &Patch) -> (r: Result<
    (),
    ResolveError,
>)
    ensures
        match r {
            Ok(_) => resolution_matches(conflicts@, resolution@),
            Err(ResolveError::MissingResolution) => exists|p: PathModel| #[trigger]
                assoc_contains(conflicts@, p) && !assoc_contains(resolution@, p),
            Err(ResolveError::ExtraneousResolution) => exists|p: PathModel| #[trigger]
                assoc_contains(resolution@, p) && !assoc_contains(conflicts@, p),
        },
{
    let mut i: usize = 0;
    let cn = conflicts.len();
    while i < cn
        invariant
            cn == conflicts@.len(),
            i <= cn,
            forall|j: int| 0 <= j < i ==> assoc_contains(
                resolution@,
                (#[trigger] conflicts@[j]).0,
            ),
        decreases cn - i,
    {
        let e = conflicts.entry_at(i);
        proof {
            assert(e.deep_view() == conflicts@[i as int]);
            assert(e.0.deep_view() == conflicts@[i as int].0);
        }
        if !resolution.contains(&e.0) {
            proof {
                assert(assoc_contains(conflicts@, conflicts@[i as int].0));
            }
            return Err(ResolveError::MissingResolution);
        }
        i += 1;
    }
    let mut j: usize = 0;
    let rn = resolution.len();
    while j < rn
        invariant
            rn == resolution@.len(),
            cn == conflicts@.len(),
            j <= rn,
            forall|k: int| 0 <= k < cn ==> assoc_contains(
                resolution@,
                (#[trigger] conflicts@[k]).0,
            ),
            forall|k: int| 0 <= k < j ==> assoc_contains(
                conflicts@,
                (#[trigger] resolution@[k]).0,
            ),
        decreases rn - j,
    {
        let e = resolution.entry_at(j);
        proof {
            assert(e.deep_view() == resolution@[j as int]);
            assert(e.0.deep_view() == resolution@[j as int].0);
        }
        if !conflicts.contains(&e.0) {
            proof {
                assert(assoc_contains(resolution@, resolution@[j as int].0));
            }
            return Err(ResolveError::ExtraneousResolution);
        }
        j += 1;
    }
    proof {
        assert forall|p: PathModel| #[trigger]
            assoc_contains(conflicts@, p) implies assoc_contains(resolution@, p) by {
            let k = choose|k: int| 0 <= k < conflicts@.len() && conflicts@[k].0 == p;
        }
        assert forall|p: PathModel| #[trigger]
            assoc_contains(resolution@, p) implies assoc_contains(conflicts@, p) by {
            let k = choose|k: int| 0 <= k < resolution@.len() && resolution@[k].0 == p;
        }
    }
    Ok(())
}

/// Closes a merge out: checks that the resolver's patch resolves exactly the
/// conflicted paths, then unions it with the engine's unambiguous patch.
/// The two patches are disjoint by construction — the engine never merges a
/// conflicted path — so the union keeps every entry of both.
pub fn complete_merge(merged: Patch, conflicts: &Conflicts, resolution: Patch) -> (r: Result<
    Patch,
    ResolveError,
>)
    requires
        merged.wf(),
        resolution.wf(),
        forall|p: PathModel| assoc_contains(merged@, p) ==> !assoc_contains(
            #[trigger] conflicts@,
            p,
        ),
    ensures
        match r {
            Ok(u) => resolution_matches(conflicts@, resolution@) && u@ == merged@ + resolution@
                && u.wf(),
            Err(_) => !resolution_matches(conflicts@, resolution@),
        },
{
    match check_resolution(conflicts, &resolution) {
        Err(e) => Err(e),
        Ok(_) => {
            let mut out = merged;
            proof {
                assert forall|i: int| 0 <= i < resolution@.len() implies !assoc_contains(
                    out@,
                    (#[trigger] resolution@[i]).0,
                ) by {
                    if assoc_contains(out@, resolution@[i].0) {
                        assert(!assoc_contains(conflicts@, resolution@[i].0));
                        assert(assoc_contains(resolution@, resolution@[i].0));
                    }
                }
            }
            out.append_all(resolution);
            Ok(out)
        },
    }
}

} // verus!
