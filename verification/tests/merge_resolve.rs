use modmerge::map::PathMap;
use modmerge::merge::merge_hero_changes;
use modmerge::patch::{Patch, SourceChange};
use modmerge::resolve::{check_resolution, complete_merge, ResolveError};
use modmerge::value::{ItemChange, Value};

fn path(segs: &[&str]) -> Vec<String> {
    segs.iter().map(|s| s.to_string()).collect()
}

fn source(name: &str, changes: &[(&[&str], ItemChange)]) -> SourceChange {
    SourceChange {
        source: name.to_string(),
        changes: changes.iter().map(|(p, c)| (path(p), c.dup())).collect(),
    }
}

// A non-chain path changed by exactly one source merges verbatim and stays
// out of the conflict set.
#[test]
fn single_source_change_is_accepted() {
    let sources = vec![
        source("alpha", &[(
            &["resistances", "stun"],
            ItemChange::Put(Value::Float(7)),
        )]),
        source("beta", &[(
            &["move_skill", "forward"],
            ItemChange::Put(Value::Int(2)),
        )]),
    ];
    let (merged, conflicts) = merge_hero_changes(&sources);
    assert_eq!(conflicts.len(), 0);
    assert_eq!(merged.len(), 2);
    assert_eq!(
        merged.get(&path(&["resistances", "stun"])),
        Some(&ItemChange::Put(Value::Float(7)))
    );
    assert_eq!(
        merged.get(&path(&["move_skill", "forward"])),
        Some(&ItemChange::Put(Value::Int(2)))
    );
}

// A path changed by two sources conflicts with both contenders in
// source-submission order — even when the values agree.
#[test]
fn two_sources_conflict_even_on_equal_values() {
    let sources = vec![
        source("alpha", &[(
            &["resistances", "stun"],
            ItemChange::Put(Value::Float(7)),
        )]),
        source("beta", &[(
            &["resistances", "stun"],
            ItemChange::Put(Value::Float(7)),
        )]),
    ];
    let (merged, conflicts) = merge_hero_changes(&sources);
    assert_eq!(merged.len(), 0);
    assert_eq!(conflicts.len(), 1);
    let cs = conflicts.get(&path(&["resistances", "stun"])).unwrap();
    assert_eq!(cs.len(), 2);
    assert_eq!(cs[0].0, "alpha");
    assert_eq!(cs[0].1, ItemChange::Put(Value::Float(7)));
    assert_eq!(cs[1].0, "beta");
    assert_eq!(cs[1].1, ItemChange::Put(Value::Float(7)));
}

// Chain edits from a single source merge in directly at their own paths.
#[test]
fn single_source_chain_edits_merge_directly() {
    let sources = vec![source("alpha", &[
        (
            &["skills", "smite_1", "effects", "A"],
            ItemChange::Put(Value::Text("X".to_string())),
        ),
        (&["skills", "smite_1", "effects", "X"], ItemChange::Removed),
    ])];
    let (merged, conflicts) = merge_hero_changes(&sources);
    assert_eq!(conflicts.len(), 0);
    assert_eq!(merged.len(), 2);
    assert_eq!(
        merged.get(&path(&["skills", "smite_1", "effects", "A"])),
        Some(&ItemChange::Put(Value::Text("X".to_string())))
    );
}

// Chain edits from two sources become one conflict entry under the chain's
// representative path, whatever leaves they touched.
#[test]
fn two_source_chain_edits_conflict_whole_field() {
    let sources = vec![
        source("alpha", &[(
            &["skills", "smite_1", "effects", "A"],
            ItemChange::Put(Value::Text("X".to_string())),
        )]),
        source("beta", &[(
            &["skills", "smite_1", "effects"],
            ItemChange::Removed,
        )]),
    ];
    let (merged, conflicts) = merge_hero_changes(&sources);
    assert_eq!(merged.len(), 0);
    assert_eq!(conflicts.len(), 1);
    let cs = conflicts
        .get(&path(&["skills", "smite_1", "effects"]))
        .unwrap();
    assert_eq!(cs.len(), 2);
    assert_eq!(cs[0].0, "alpha");
    assert_eq!(cs[1].0, "beta");
}

#[test]
fn resolution_must_cover_every_conflict() {
    let sources = vec![
        source("alpha", &[(
            &["resistances", "stun"],
            ItemChange::Put(Value::Float(1)),
        )]),
        source("beta", &[(
            &["resistances", "stun"],
            ItemChange::Put(Value::Float(2)),
        )]),
    ];
    let (_, conflicts) = merge_hero_changes(&sources);
    let empty: Patch = PathMap::new();
    assert_eq!(
        check_resolution(&conflicts, &empty),
        Err(ResolveError::MissingResolution)
    );
    let mut extraneous: Patch = PathMap::new();
    extraneous.insert(
        path(&["resistances", "stun"]),
        ItemChange::Put(Value::Float(3)),
    );
    extraneous.insert(path(&["resistances", "trap"]), ItemChange::Removed);
    assert_eq!(
        check_resolution(&conflicts, &extraneous),
        Err(ResolveError::ExtraneousResolution)
    );
    let mut good: Patch = PathMap::new();
    good.insert(
        path(&["resistances", "stun"]),
        ItemChange::Put(Value::Float(3)),
    );
    assert_eq!(check_resolution(&conflicts, &good), Ok(()));
}

#[test]
fn complete_merge_unions_disjoint_patches() {
    let sources = vec![
        source("alpha", &[
            (&["resistances", "stun"], ItemChange::Put(Value::Float(1))),
            (&["move_skill", "forward"], ItemChange::Put(Value::Int(4))),
        ]),
        source("beta", &[(
            &["resistances", "stun"],
            ItemChange::Put(Value::Float(2)),
        )]),
    ];
    let (merged, conflicts) = merge_hero_changes(&sources);
    let mut resolution: Patch = PathMap::new();
    resolution.insert(
        path(&["resistances", "stun"]),
        ItemChange::Put(Value::Float(9)),
    );
    let full = complete_merge(merged, &conflicts, resolution).unwrap();
    assert_eq!(full.len(), 2);
    assert_eq!(
        full.get(&path(&["move_skill", "forward"])),
        Some(&ItemChange::Put(Value::Int(4)))
    );
    assert_eq!(
        full.get(&path(&["resistances", "stun"])),
        Some(&ItemChange::Put(Value::Float(9)))
    );
}
