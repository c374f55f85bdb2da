use modmerge::chain::{next_effect, patch_skill_effects, rebuild_chain};
use modmerge::hero::Skill;
use modmerge::hero_apply::{patch_list, patch_list_key};
use modmerge::map::PathMap;
use modmerge::patch::{Patch, PatchError};
use modmerge::strnum::{i32_to_string, parse_i32, u32_to_string};
use modmerge::value::{ItemChange, Value};

fn path(segs: &[&str]) -> Vec<String> {
    segs.iter().map(|s| s.to_string()).collect()
}

fn strings(xs: &[&str]) -> Vec<String> {
    xs.iter().map(|s| s.to_string()).collect()
}

#[test]
fn decimal_rendering() {
    assert_eq!(u32_to_string(0), "0");
    assert_eq!(u32_to_string(42), "42");
    assert_eq!(u32_to_string(4294967295), "4294967295");
    assert_eq!(i32_to_string(-17), "-17");
    assert_eq!(i32_to_string(-2147483648), "-2147483648");
    assert_eq!(i32_to_string(7), "7");
}

#[test]
fn decimal_parsing() {
    assert_eq!(parse_i32("0"), Some(0));
    assert_eq!(parse_i32("007"), Some(7));
    assert_eq!(parse_i32("-17"), Some(-17));
    assert_eq!(parse_i32("-2147483648"), Some(-2147483648));
    assert_eq!(parse_i32("2147483647"), Some(2147483647));
    assert_eq!(parse_i32("2147483648"), None);
    assert_eq!(parse_i32("9999999999999"), None);
    assert_eq!(parse_i32(""), None);
    assert_eq!(parse_i32("-"), None);
    assert_eq!(parse_i32("12x"), None);
}

#[test]
fn decimal_round_trip() {
    for n in [0i32, 1, -1, 12345, -98765, i32::MAX, i32::MIN] {
        assert_eq!(parse_i32(i32_to_string(n).as_str()), Some(n));
    }
}

#[test]
fn path_map_insert_and_get() {
    let mut m: PathMap<Value> = PathMap::new();
    m.insert(path(&["resistances", "stun"]), Value::Float(1));
    m.insert(path(&["resistances", "poison"]), Value::Int(3));
    assert_eq!(m.len(), 2);
    assert_eq!(
        m.get(&path(&["resistances", "stun"])),
        Some(&Value::Float(1))
    );
    assert_eq!(m.get(&path(&["resistances", "poison"])), Some(&Value::Int(3)));
    assert_eq!(m.get(&path(&["resistances", "bleed"])), None);
    let e = m.entry_at(0);
    assert_eq!(e.0, path(&["resistances", "stun"]));
}

// Applying "set value V then remove value V" to a set-valued field restores
// its original membership.
#[test]
fn list_set_then_remove_restores() {
    let mut l = strings(&["a", "b"]);
    let orig = l.clone();
    let p = path(&["tags", "v"]);
    patch_list(&mut l, &p, &ItemChange::Put(Value::Unit)).unwrap();
    assert_eq!(l, strings(&["a", "b", "v"]));
    patch_list(&mut l, &p, &ItemChange::Removed).unwrap();
    assert_eq!(l, orig);
}

// Removing a value the list does not hold is fatal: the patch is stale.
#[test]
fn list_remove_absent_is_fatal() {
    let mut l = strings(&["a", "b"]);
    let r = patch_list_key(&mut l, &"zz".to_string(), &ItemChange::Removed);
    assert_eq!(r, Err(PatchError::MissingListEntry));
    assert_eq!(l, strings(&["a", "b"]));
}

fn chain_patch(entries: &[(&[&str], ItemChange)]) -> Patch {
    let mut p: Patch = PathMap::new();
    for (segs, c) in entries {
        p.insert(path(segs), c.dup());
    }
    p
}

// Baseline chain [A, B, C]; the patch sets successor-of(A) = X and removes
// successor-of(X): applying yields [A, X].
#[test]
fn chain_insert_and_terminate() {
    let orig = strings(&["A", "B", "C"]);
    let prefix = path(&["riposte_skill", "effects"]);
    let p = chain_patch(&[
        (
            &["riposte_skill", "effects", "A"],
            ItemChange::Put(Value::Text("X".to_string())),
        ),
        (&["riposte_skill", "effects", "X"], ItemChange::Removed),
    ]);
    let rebuilt = rebuild_chain(&orig, &p, &prefix).unwrap();
    assert_eq!(rebuilt, strings(&["A", "X"]));
}

// Baseline chain [A, B]; the patch removes the start marker: applying
// yields the empty chain.
#[test]
fn chain_removed_start_empties() {
    let orig = strings(&["A", "B"]);
    let prefix = path(&["riposte_skill", "effects"]);
    let p = chain_patch(&[(&["riposte_skill", "effects"], ItemChange::Removed)]);
    let rebuilt = rebuild_chain(&orig, &p, &prefix).unwrap();
    assert_eq!(rebuilt, Vec::<String>::new());
}

// Without a patch entry the original sequence decides each successor.
#[test]
fn chain_untouched_is_identity() {
    let orig = strings(&["A", "B", "C"]);
    let prefix = path(&["riposte_skill", "effects"]);
    let p: Patch = PathMap::new();
    let rebuilt = rebuild_chain(&orig, &p, &prefix).unwrap();
    assert_eq!(rebuilt, orig);
}

#[test]
fn chain_cycle_is_fatal() {
    let orig = strings(&["A", "B"]);
    let prefix = path(&["riposte_skill", "effects"]);
    let p = chain_patch(&[
        (
            &["riposte_skill", "effects", "A"],
            ItemChange::Put(Value::Text("B".to_string())),
        ),
        (
            &["riposte_skill", "effects", "B"],
            ItemChange::Put(Value::Text("A".to_string())),
        ),
    ]);
    assert_eq!(
        rebuild_chain(&orig, &p, &prefix),
        Err(PatchError::ChainCycle)
    );
}

#[test]
fn chain_non_text_value_is_fatal() {
    let orig = strings(&["A"]);
    let prefix = path(&["riposte_skill", "effects"]);
    let p = chain_patch(&[(
        &["riposte_skill", "effects", "A"],
        ItemChange::Put(Value::Int(3)),
    )]);
    assert_eq!(
        rebuild_chain(&orig, &p, &prefix),
        Err(PatchError::BadValueKind)
    );
}

#[test]
fn next_effect_prefers_patch_over_original() {
    let orig = strings(&["A", "B", "C"]);
    let prefix = path(&["riposte_skill", "effects"]);
    let p = chain_patch(&[(
        &["riposte_skill", "effects", "B"],
        ItemChange::Put(Value::Text("Z".to_string())),
    )]);
    assert_eq!(
        next_effect(&"A".to_string(), &orig, &p, &prefix).unwrap(),
        Some("B".to_string())
    );
    assert_eq!(
        next_effect(&"B".to_string(), &orig, &p, &prefix).unwrap(),
        Some("Z".to_string())
    );
    assert_eq!(
        next_effect(&"C".to_string(), &orig, &p, &prefix).unwrap(),
        None
    );
}

#[test]
fn patch_skill_effects_rebuilds_in_place() {
    let mut skill = Skill {
        effects: strings(&["A", "B", "C"]),
        other: vec![("type".to_string(), "melee".to_string())],
    };
    let prefix = path(&["riposte_skill", "effects"]);
    let p = chain_patch(&[
        (
            &["riposte_skill", "effects", "A"],
            ItemChange::Put(Value::Text("X".to_string())),
        ),
        (&["riposte_skill", "effects", "X"], ItemChange::Removed),
    ]);
    patch_skill_effects(&mut skill, &p, &prefix).unwrap();
    assert_eq!(skill.effects, strings(&["A", "X"]));
    assert_eq!(skill.other, vec![("type".to_string(), "melee".to_string())]);
}
