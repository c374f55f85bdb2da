use modmerge::hero::{HeroInfo, HeroOverride};
use modmerge::hero_load::LoadError;
use modmerge::map::PathMap;
use modmerge::merge::merge_hero_changes;
use modmerge::patch::{Patch, PatchError, SourceChange};
use modmerge::raw::{RawEntry, Token};
use modmerge::resolve::complete_merge;
use modmerge::value::{ItemChange, Value};

fn path(segs: &[&str]) -> Vec<String> {
    segs.iter().map(|s| s.to_string()).collect()
}

fn words(xs: &[&str]) -> Vec<Token> {
    xs.iter().map(|x| Token::word(x.to_string())).collect()
}

fn pct(x: f32) -> Token {
    Token::number(format!("{}%", x * 100.0), x.to_bits())
}

fn num(n: i32) -> Token {
    Token::number(n.to_string(), (n as f32).to_bits())
}

fn entry(fields: &[(&str, Vec<Token>)]) -> RawEntry {
    let mut e = RawEntry::new();
    for (k, toks) in fields {
        let mut copy = Vec::new();
        for t in toks {
            copy.push(t.dup());
        }
        e.push_field(k.to_string(), copy);
    }
    e
}

fn resistances_entry() -> RawEntry {
    entry(&[
        ("stun", vec![pct(0.5)]),
        ("poison", vec![pct(0.3)]),
        ("bleed", vec![pct(0.3)]),
        ("disease", vec![pct(0.2)]),
        ("move", vec![pct(0.1)]),
        ("debuff", vec![pct(0.25)]),
        ("death_blow", vec![pct(0.67)]),
        ("trap", vec![pct(0.05)]),
    ])
}

fn weapon_entry() -> RawEntry {
    entry(&[
        ("atk", vec![pct(0.85)]),
        ("dmg", vec![num(4), num(8)]),
        ("crit", vec![pct(0.02)]),
        ("spd", vec![num(3)]),
    ])
}

fn armour_entry() -> RawEntry {
    entry(&[
        ("def", vec![pct(0.1)]),
        ("prot", vec![pct(0.0)]),
        ("hp", vec![num(23)]),
        ("spd", vec![num(0)]),
    ])
}

fn skill_entry(name: &str, level: i32) -> RawEntry {
    entry(&[
        ("id", words(&[name])),
        ("level", vec![num(level)]),
        ("atk", vec![pct(0.95)]),
        ("effect", words(&["E1", "E2"])),
    ])
}

fn hero_pairs() -> Vec<(String, RawEntry)> {
    let mut pairs: Vec<(String, RawEntry)> = Vec::new();
    pairs.push(("resistances".to_string(), resistances_entry()));
    for _ in 0..5 {
        pairs.push(("weapon".to_string(), weapon_entry()));
    }
    for _ in 0..5 {
        pairs.push(("armour".to_string(), armour_entry()));
    }
    pairs.push(("combat_skill".to_string(), skill_entry("smite", 1)));
    pairs.push(("riposte_skill".to_string(), skill_entry("riposte", 1)));
    pairs.push((
        "combat_move_skill".to_string(),
        entry(&[("move", vec![num(1), num(1)])]),
    ));
    pairs.push(("tag".to_string(), entry(&[("id", words(&["outcast"]))])));
    pairs.push((
        "deaths_door".to_string(),
        entry(&[("buffs", words(&["b1", "b2"]))]),
    ));
    pairs.push((
        "mode".to_string(),
        entry(&[("id", words(&["stealth"])), ("buffs", words(&["m1"]))]),
    ));
    pairs.push((
        "incompatible_party_member".to_string(),
        entry(&[("id", words(&["loner"])), ("hero_tag", words(&["outcast"]))]),
    ));
    pairs.push((
        "death_reaction".to_string(),
        entry(&[("target_allies", words(&["true"]))]),
    ));
    pairs.push((
        "extra_loot".to_string(),
        entry(&[("code", words(&["T1"]))]),
    ));
    pairs
}

fn baseline() -> HeroInfo {
    HeroInfo::from_entries("crusader".to_string(), &hero_pairs()).unwrap()
}

#[test]
fn full_record_loads() {
    let h = baseline();
    assert_eq!(h.id, "crusader");
    assert_eq!(h.resistances.stun, 0.5f32.to_bits());
    assert_eq!(h.weapons.0.len(), 5);
    assert_eq!(h.weapons.0[0].dmg_min, 4);
    assert_eq!(h.skills.0.len(), 1);
    assert_eq!(h.skills.0[0].0, ("smite".to_string(), 1));
    assert_eq!(h.skills.0[0].1.effects, vec!["E1", "E2"]);
    assert_eq!(h.riposte_skill.effects, vec!["E1", "E2"]);
    assert_eq!(h.tags, vec!["outcast"]);
    assert_eq!(h.other.len(), 1);
    assert_eq!(
        h.other[0].0,
        ("extra_loot".to_string(), "code".to_string())
    );
}

#[test]
fn missing_resistances_is_fatal() {
    let mut pairs = hero_pairs();
    pairs.remove(0);
    assert_eq!(
        HeroInfo::from_entries("x".to_string(), &pairs),
        Err(LoadError::MissingField)
    );
}

#[test]
fn wrong_weapon_count_is_fatal() {
    let mut pairs = hero_pairs();
    pairs.push(("weapon".to_string(), weapon_entry()));
    assert_eq!(
        HeroInfo::from_entries("x".to_string(), &pairs),
        Err(LoadError::WrongCount)
    );
}

#[test]
fn underscored_skill_name_is_fatal() {
    let mut pairs = hero_pairs();
    pairs.push(("combat_skill".to_string(), skill_entry("war_cry", 1)));
    assert_eq!(
        HeroInfo::from_entries("x".to_string(), &pairs),
        Err(LoadError::BadSkillName)
    );
}

#[test]
fn duplicate_tag_is_fatal() {
    let mut pairs = hero_pairs();
    pairs.push(("tag".to_string(), entry(&[("id", words(&["outcast"]))])));
    assert_eq!(
        HeroInfo::from_entries("x".to_string(), &pairs),
        Err(LoadError::DuplicateKey)
    );
}

#[test]
fn override_record_keeps_only_present_blocks() {
    let mut pairs: Vec<(String, RawEntry)> = Vec::new();
    pairs.push((
        "resistances".to_string(),
        entry(&[("stun", vec![pct(0.9)])]),
    ));
    let h = HeroOverride::from_entries("crusader".to_string(), &pairs).unwrap();
    assert_eq!(h.resistances.stun, Some(0.9f32.to_bits()));
    assert_eq!(h.resistances.poison, None);
    assert!(h.weapons.is_none());
    assert!(h.skills.is_none());
    assert!(h.move_skill.is_none());
}

#[test]
fn flatten_prefixes_every_path_with_the_id() {
    let h = baseline();
    let m = h.to_map();
    assert!(m.len() > 0);
    for i in 0..m.len() {
        let e = m.entry_at(i);
        assert_eq!(e.0[0], "crusader");
    }
    assert_eq!(
        m.get(&path(&["crusader", "resistances", "stun"])),
        Some(&Value::Float(0.5f32.to_bits()))
    );
    assert_eq!(
        m.get(&path(&["crusader", "weapons", "0", "dmg min"])),
        Some(&Value::Int(4))
    );
    assert_eq!(
        m.get(&path(&["crusader", "tags", "outcast"])),
        Some(&Value::Unit)
    );
    // the effect chain: a start marker, then one successor link per element
    assert_eq!(
        m.get(&path(&["crusader", "skills", "smite_1", "effects"])),
        Some(&Value::Text("E1".to_string()))
    );
    assert_eq!(
        m.get(&path(&["crusader", "skills", "smite_1", "effects", "E1"])),
        Some(&Value::Text("E2".to_string()))
    );
    assert_eq!(
        m.get(&path(&["crusader", "skills", "smite_1", "effects", "E2"])),
        None
    );
}

fn single_patch(entries: &[(&[&str], ItemChange)]) -> Patch {
    let mut p: Patch = PathMap::new();
    for (segs, c) in entries {
        p.insert(path(segs), c.dup());
    }
    p
}

#[test]
fn apply_sets_scalars_in_place() {
    let mut h = baseline();
    let p = single_patch(&[
        (&["resistances", "stun"], ItemChange::Put(Value::Float(77))),
        (&["move_skill", "forward"], ItemChange::Put(Value::Int(3))),
        (&["weapons", "2", "spd"], ItemChange::Put(Value::Int(9))),
    ]);
    h.apply_patch(&p).unwrap();
    assert_eq!(h.resistances.stun, 77);
    assert_eq!(h.move_skill.forward, 3);
    assert_eq!(h.weapons.0[2].spd, 9);
}

#[test]
fn apply_rejects_scalar_removal_and_leaves_record_unchanged() {
    let mut h = baseline();
    let before = h.clone();
    let p = single_patch(&[
        (&["move_skill", "forward"], ItemChange::Put(Value::Int(3))),
        (&["resistances", "stun"], ItemChange::Removed),
    ]);
    assert_eq!(h.apply_patch(&p), Err(PatchError::ScalarRemove));
    assert_eq!(h, before);
}

#[test]
fn apply_rejects_bad_index() {
    let mut h = baseline();
    let p = single_patch(&[(
        &["weapons", "9", "spd"],
        ItemChange::Put(Value::Int(1)),
    )]);
    assert_eq!(h.apply_patch(&p), Err(PatchError::BadIndex));
}

#[test]
fn apply_rejects_unknown_field() {
    let mut h = baseline();
    let p = single_patch(&[(&["wealth"], ItemChange::Put(Value::Int(1)))]);
    assert_eq!(h.apply_patch(&p), Err(PatchError::UnknownField));
}

#[test]
fn apply_rejects_missing_skill() {
    let mut h = baseline();
    let p = single_patch(&[(
        &["skills", "nope_1", "atk"],
        ItemChange::Put(Value::Text("x".to_string())),
    )]);
    assert_eq!(h.apply_patch(&p), Err(PatchError::MissingKey));
}

#[test]
fn apply_rebuilds_effect_chains() {
    let mut h = baseline();
    let p = single_patch(&[
        (
            &["skills", "smite_1", "effects", "E1"],
            ItemChange::Put(Value::Text("E9".to_string())),
        ),
        (&["skills", "smite_1", "effects", "E9"], ItemChange::Removed),
    ]);
    h.apply_patch(&p).unwrap();
    assert_eq!(h.skills.0[0].1.effects, vec!["E1", "E9"]);
    // the untouched riposte chain stays as loaded
    assert_eq!(h.riposte_skill.effects, vec!["E1", "E2"]);
}

#[test]
fn apply_edits_set_valued_fields() {
    let mut h = baseline();
    let p = single_patch(&[
        (&["tags", "bruiser"], ItemChange::Put(Value::Unit)),
        (&["deaths_door", "buffs", "b1"], ItemChange::Removed),
    ]);
    h.apply_patch(&p).unwrap();
    assert_eq!(h.tags, vec!["outcast", "bruiser"]);
    assert_eq!(h.deaths_door.buffs, vec!["b2"]);
}

// Two sources set different values at the same resistance: the conflict set
// has one entry with both contenders; resolving with a chosen value and
// applying yields a record carrying the chosen value.
#[test]
fn end_to_end_conflicted_stun_resolution() {
    let mut h = baseline();
    let chosen = 0.75f32.to_bits();
    let sources = vec![
        SourceChange {
            source: "alpha".to_string(),
            changes: vec![(
                path(&["resistances", "stun"]),
                ItemChange::Put(Value::Float(0.6f32.to_bits())),
            )],
        },
        SourceChange {
            source: "beta".to_string(),
            changes: vec![(
                path(&["resistances", "stun"]),
                ItemChange::Put(Value::Float(0.8f32.to_bits())),
            )],
        },
    ];
    let (merged, conflicts) = merge_hero_changes(&sources);
    assert_eq!(conflicts.len(), 1);
    let cs = conflicts.get(&path(&["resistances", "stun"])).unwrap();
    assert_eq!(cs.len(), 2);
    assert_eq!(cs[0].0, "alpha");
    assert_eq!(cs[1].0, "beta");
    let mut resolution: Patch = PathMap::new();
    resolution.insert(
        path(&["resistances", "stun"]),
        ItemChange::Put(Value::Float(chosen)),
    );
    let full = complete_merge(merged, &conflicts, resolution).unwrap();
    h.apply_patch(&full).unwrap();
    assert_eq!(h.resistances.stun, chosen);
}
