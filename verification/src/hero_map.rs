use vstd::prelude::*;
use vstd::string::StringExecFns;
use crate::strutil::clone_string;
use crate::hero::{
    deaths_door_wf, incompatibilities_wf, mode_wf, modes_wf, skill_wf, skills_wf, Armour, Armours,
    DeathReaction, DeathsDoor, Incompatibilities, IncompatibilitiesModel, Mode, ModeModel, Modes,
    ModesModel, MoveSkill, OtherModel, Resistances, ResistancesOverride, Skill, SkillModel,
    Skills, SkillsModel, Weapon, Weapons, HeroInfo, HeroModel, HeroOverride, HeroOverrideModel,
    hero_wf, hero_override_wf, other_wf,
};
use crate::map::{
    assoc_contains, chain_entries, chain_map, prefixed_entries, set_entries, string_set,
    strings_distinct, EntryModel, PathMap,
};
use crate::strnum::{dec_int, dec_nat, i32_to_string, lemma_dec_nat, u32_to_string};
use crate::value::{Value, ValueModel};

verus! {

/// A one-segment path.
pub fn single_seg(key: &str) -> (r: Vec<String>)
    ensures
        r.deep_view() =~= seq![key@],
{
    let mut r: Vec<String> = Vec::new();
    r.push(String::from_str(key));
    proof {
        assert(r.deep_view() =~= seq![key@]);
    }
    r
}

/// The entry of one optional scalar leaf.
pub open spec fn opt_entry(key: Seq<char>, v: Option<ValueModel>) -> Seq<EntryModel<ValueModel>> {
    match v {
        Some(v) => seq![(seq![key], v)],
        None => Seq::empty(),
    }
}

/// Every entry's path starts with a segment drawn from `used`. Flattening
/// grows a record map group by group; this predicate is what keeps a new
/// group's paths from colliding with the groups already placed.
pub open spec fn first_segs_in(s: Seq<EntryModel<ValueModel>>, used: Set<Seq<char>>) -> bool {
    forall|i: int| 0 <= i < s.len() ==> (#[trigger] s[i]).0.len() >= 1 && used.contains(
        s[i].0[0],
    )
}

/// A smaller set of used segments serves as well.
pub proof fn lemma_first_segs_weaken(
    s: Seq<EntryModel<ValueModel>>,
    u: Set<Seq<char>>,
    v: Set<Seq<char>>,
)
    requires
        first_segs_in(s, u),
        forall|x: Seq<char>| u.contains(x) ==> v.contains(x),
    ensures
        first_segs_in(s, v),
{
    assert forall|i: int| 0 <= i < s.len() implies (#[trigger] s[i]).0.len() >= 1 && v.contains(
        s[i].0[0],
    ) by {
        assert(u.contains(s[i].0[0]));
    }
}

/// Appends a scalar leaf `[key] -> v` to a map whose entries all start with
/// an already-used segment; `key` must be fresh.
pub fn push_scalar(m: &mut PathMap<Value>, used: Ghost<Set<Seq<char>>>, key: &str, v: Value)
    requires
        old(m).wf(),
        first_segs_in(old(m)@, used@),
        !used@.contains(key@),
    ensures
        final(m)@ == old(m)@.push((seq![key@], v@)),
        final(m).wf(),
        first_segs_in(final(m)@, used@.insert(key@)),
{
    proof {
        if assoc_contains(m@, seq![key@]) {
            let j = choose|j: int| 0 <= j < m@.len() && m@[j].0 == seq![key@];
            assert(m@[j].0[0] == key@);
            assert(false);
        }
    }
    let p = single_seg(key);
    m.insert(p, v);
    proof {
        assert forall|i: int| 0 <= i < m@.len() implies (#[trigger] m@[i]).0.len() >= 1
            && used@.insert(key@).contains(m@[i].0[0]) by {
            if i < old(m)@.len() {
                assert(used@.contains(old(m)@[i].0[0]));
            } else {
                assert(m@[i].0 == seq![key@]);
            }
        }
        assert(first_segs_in(m@, used@.insert(key@)));
    }
}

/// Moves a whole group into a record map under the group's field name, which
/// must be fresh among the first segments already used.
pub fn extend_group(
    m: &mut PathMap<Value>,
    used: Ghost<Set<Seq<char>>>,
    prefix: &str,
    g: PathMap<Value>,
)
    requires
        old(m).wf(),
        g.wf(),
        first_segs_in(old(m)@, used@),
        !used@.contains(prefix@),
    ensures
        final(m)@ == old(m)@ + prefixed_entries(prefix@, g@),
        final(m).wf(),
        first_segs_in(final(m)@, used@.insert(prefix@)),
{
    let ghost gv = g@;
    proof {
        assert forall|i: int| 0 <= i < gv.len() implies !assoc_contains(
            m@,
            seq![prefix@] + gv[i].0,
        ) by {
            if assoc_contains(m@, seq![prefix@] + gv[i].0) {
                let j = choose|j: int| 0 <= j < m@.len() && m@[j].0 == seq![prefix@] + gv[i].0;
                assert(m@[j].0[0] == prefix@);
                assert(false);
            }
        }
    }
    m.extend_prefixed(prefix, g);
    proof {
        assert forall|i: int| 0 <= i < m@.len() implies (#[trigger] m@[i]).0.len() >= 1
            && used@.insert(prefix@).contains(m@[i].0[0]) by {
            if i < old(m)@.len() {
                assert(used@.contains(old(m)@[i].0[0]));
            } else {
                let j = i - old(m)@.len();
                assert(m@[i] == prefixed_entries(prefix@, gv)[j]);
                assert(m@[i].0 == seq![prefix@] + gv[j].0);
                assert(m@[i].0[0] == prefix@);
            }
        }
        assert(first_segs_in(m@, used@.insert(prefix@)));
    }
}

/// The flattened resistance block: one float leaf per resistance.
pub open spec fn res_entries(r: Resistances) -> Seq<EntryModel<ValueModel>> {
    seq![
        (seq!["stun"@], ValueModel::Float(r.stun)),
        (seq!["poison"@], ValueModel::Float(r.poison)),
        (seq!["bleed"@], ValueModel::Float(r.bleed)),
        (seq!["disease"@], ValueModel::Float(r.disease)),
        (seq!["move"@], ValueModel::Float(r.moving)),
        (seq!["debuff"@], ValueModel::Float(r.debuff)),
        (seq!["death_blow"@], ValueModel::Float(r.death_blow)),
        (seq!["trap"@], ValueModel::Float(r.trap)),
    ]
}

/// The resistance keys are eight distinct words.
proof fn lemma_res_keys()
    ensures
        "stun"@.len() == 4,
        "poison"@.len() == 6,
        "bleed"@.len() == 5,
        "disease"@.len() == 7,
        "move"@.len() == 4,
        "debuff"@.len() == 6,
        "death_blow"@.len() == 10,
        "trap"@.len() == 4,
        "stun"@[0] == 's',
        "move"@[0] == 'm',
        "trap"@[0] == 't',
        "poison"@[0] == 'p',
        "debuff"@[0] == 'd',
{
    reveal_strlit("stun");
    reveal_strlit("poison");
    reveal_strlit("bleed");
    reveal_strlit("disease");
    reveal_strlit("move");
    reveal_strlit("debuff");
    reveal_strlit("death_blow");
    reveal_strlit("trap");
}

impl Resistances {
    /// Flattens the block; deterministic, with no failure cases.
    pub fn to_map(&self) -> (r: PathMap<Value>)
        ensures
            r@ == res_entries(*self),
            r.wf(),
    {
        proof {
            lemma_res_keys();
        }
        let mut m = PathMap::<Value>::new();
        let ghost u0: Set<Seq<char>> = Set::empty();
        push_scalar(&mut m, Ghost(u0), "stun", Value::Float(self.stun));
        let ghost u1 = u0.insert("stun"@);
        push_scalar(&mut m, Ghost(u1), "poison", Value::Float(self.poison));
        let ghost u2 = u1.insert("poison"@);
        push_scalar(&mut m, Ghost(u2), "bleed", Value::Float(self.bleed));
        let ghost u3 = u2.insert("bleed"@);
        push_scalar(&mut m, Ghost(u3), "disease", Value::Float(self.disease));
        let ghost u4 = u3.insert("disease"@);
        push_scalar(&mut m, Ghost(u4), "move", Value::Float(self.moving));
        let ghost u5 = u4.insert("move"@);
        push_scalar(&mut m, Ghost(u5), "debuff", Value::Float(self.debuff));
        let ghost u6 = u5.insert("debuff"@);
        push_scalar(&mut m, Ghost(u6), "death_blow", Value::Float(self.death_blow));
        let ghost u7 = u6.insert("death_blow"@);
        push_scalar(&mut m, Ghost(u7), "trap", Value::Float(self.trap));
        proof {
            assert(m@ =~= res_entries(*self));
        }
        m
    }
}

pub open spec fn float_opt(o: Option<u32>) -> Option<ValueModel> {
    match o {
        Some(b) => Some(ValueModel::Float(b)),
        None => None,
    }
}

/// The flattened override resistance block: a leaf per present field.
pub open spec fn res_override_entries(r: ResistancesOverride) -> Seq<EntryModel<ValueModel>> {
    opt_entry("stun"@, float_opt(r.stun)) + opt_entry("poison"@, float_opt(r.poison)) + opt_entry(
        "bleed"@,
        float_opt(r.bleed),
    ) + opt_entry("disease"@, float_opt(r.disease)) + opt_entry("move"@, float_opt(r.moving))
        + opt_entry("debuff"@, float_opt(r.debuff)) + opt_entry(
        "death_blow"@,
        float_opt(r.death_blow),
    ) + opt_entry("trap"@, float_opt(r.trap))
}

impl ResistancesOverride {
    /// Flattens the block; deterministic, with no failure cases.
    #[verifier::rlimit(100)]
    pub fn to_map(&self) -> (r: PathMap<Value>)
        ensures
            r@ == res_override_entries(*self),
            r.wf(),
    {
        proof {
            lemma_res_keys();
        }
        let mut m = PathMap::<Value>::new();
        let ghost u0: Set<Seq<char>> = Set::empty();
        let ghost c0: Seq<EntryModel<ValueModel>> = Seq::empty();
        proof {
            assert(m@ =~= c0);
        }
        let ghost u1 = u0.insert("stun"@);
        let ghost c1 = c0 + opt_entry("stun"@, float_opt(self.stun));
        if let Some(b) = self.stun {
            push_scalar(&mut m, Ghost(u0), "stun", Value::Float(b));
            proof {
                assert(m@ =~= c1);
            }
        } else {
            proof {
                lemma_first_segs_weaken(m@, u0, u1);
                assert(m@ =~= c1);
            }
        }
        let ghost u2 = u1.insert("poison"@);
        let ghost c2 = c1 + opt_entry("poison"@, float_opt(self.poison));
        if let Some(b) = self.poison {
            push_scalar(&mut m, Ghost(u1), "poison", Value::Float(b));
            proof {
                assert(m@ =~= c2);
            }
        } else {
            proof {
                lemma_first_segs_weaken(m@, u1, u2);
                assert(m@ =~= c2);
            }
        }
        let ghost u3 = u2.insert("bleed"@);
        let ghost c3 = c2 + opt_entry("bleed"@, float_opt(self.bleed));
        if let Some(b) = self.bleed {
            push_scalar(&mut m, Ghost(u2), "bleed", Value::Float(b));
            proof {
                assert(m@ =~= c3);
            }
        } else {
            proof {
                lemma_first_segs_weaken(m@, u2, u3);
                assert(m@ =~= c3);
            }
        }
        let ghost u4 = u3.insert("disease"@);
        let ghost c4 = c3 + opt_entry("disease"@, float_opt(self.disease));
        if let Some(b) = self.disease {
            push_scalar(&mut m, Ghost(u3), "disease", Value::Float(b));
            proof {
                assert(m@ =~= c4);
            }
        } else {
            proof {
                lemma_first_segs_weaken(m@, u3, u4);
                assert(m@ =~= c4);
            }
        }
        let ghost u5 = u4.insert("move"@);
        let ghost c5 = c4 + opt_entry("move"@, float_opt(self.moving));
        if let Some(b) = self.moving {
            push_scalar(&mut m, Ghost(u4), "move", Value::Float(b));
            proof {
                assert(m@ =~= c5);
            }
        } else {
            proof {
                lemma_first_segs_weaken(m@, u4, u5);
                assert(m@ =~= c5);
            }
        }
        let ghost u6 = u5.insert("debuff"@);
        let ghost c6 = c5 + opt_entry("debuff"@, float_opt(self.debuff));
        if let Some(b) = self.debuff {
            push_scalar(&mut m, Ghost(u5), "debuff", Value::Float(b));
            proof {
                assert(m@ =~= c6);
            }
        } else {
            proof {
                lemma_first_segs_weaken(m@, u5, u6);
                assert(m@ =~= c6);
            }
        }
        let ghost u7 = u6.insert("death_blow"@);
        let ghost c7 = c6 + opt_entry("death_blow"@, float_opt(self.death_blow));
        if let Some(b) = self.death_blow {
            push_scalar(&mut m, Ghost(u6), "death_blow", Value::Float(b));
            proof {
                assert(m@ =~= c7);
            }
        } else {
            proof {
                lemma_first_segs_weaken(m@, u6, u7);
                assert(m@ =~= c7);
            }
        }
        let ghost u8 = u7.insert("trap"@);
        let ghost c8 = c7 + opt_entry("trap"@, float_opt(self.trap));
        if let Some(b) = self.trap {
            push_scalar(&mut m, Ghost(u7), "trap", Value::Float(b));
            proof {
                assert(m@ =~= c8);
            }
        } else {
            proof {
                lemma_first_segs_weaken(m@, u7, u8);
                assert(m@ =~= c8);
            }
        }
        proof {
            assert(res_override_entries(*self) == c8);
        }
        m
    }
}

/// The flattened form of one weapon rank.
pub open spec fn weapon_entries(w: Weapon) -> Seq<EntryModel<ValueModel>> {
    seq![
        (seq!["atk"@], ValueModel::Float(w.atk)),
        (seq!["dmg min"@], ValueModel::Int(w.dmg_min)),
        (seq!["dmg max"@], ValueModel::Int(w.dmg_max)),
        (seq!["crit"@], ValueModel::Float(w.crit)),
        (seq!["spd"@], ValueModel::Int(w.spd)),
    ]
}

proof fn lemma_weapon_keys()
    ensures
        "atk"@.len() == 3,
        "dmg min"@.len() == 7,
        "dmg max"@.len() == 7,
        "crit"@.len() == 4,
        "spd"@.len() == 3,
        "atk"@[0] == 'a',
        "spd"@[0] == 's',
        "dmg min"@[4] == 'm',
        "dmg min"@[5] == 'i',
        "dmg max"@[5] == 'a',
{
    reveal_strlit("atk");
    reveal_strlit("dmg min");
    reveal_strlit("dmg max");
    reveal_strlit("crit");
    reveal_strlit("spd");
}

impl Weapon {
    pub fn to_map(&self) -> (r: PathMap<Value>)
        ensures
            r@ == weapon_entries(*self),
            r.wf(),
    {
        proof {
            lemma_weapon_keys();
        }
        let mut m = PathMap::<Value>::new();
        let ghost u0: Set<Seq<char>> = Set::empty();
        push_scalar(&mut m, Ghost(u0), "atk", Value::Float(self.atk));
        let ghost u1 = u0.insert("atk"@);
        push_scalar(&mut m, Ghost(u1), "dmg min", Value::Int(self.dmg_min));
        let ghost u2 = u1.insert("dmg min"@);
        push_scalar(&mut m, Ghost(u2), "dmg max", Value::Int(self.dmg_max));
        let ghost u3 = u2.insert("dmg max"@);
        push_scalar(&mut m, Ghost(u3), "crit", Value::Float(self.crit));
        let ghost u4 = u3.insert("crit"@);
        push_scalar(&mut m, Ghost(u4), "spd", Value::Int(self.spd));
        proof {
            assert(m@ =~= weapon_entries(*self));
        }
        m
    }
}

/// The flattened form of one armour rank.
pub open spec fn armour_entries(a: Armour) -> Seq<EntryModel<ValueModel>> {
    seq![
        (seq!["def"@], ValueModel::Float(a.def)),
        (seq!["prot"@], ValueModel::Float(a.prot)),
        (seq!["hp"@], ValueModel::Int(a.hp)),
        (seq!["spd"@], ValueModel::Int(a.spd)),
    ]
}

proof fn lemma_armour_keys()
    ensures
        "def"@.len() == 3,
        "prot"@.len() == 4,
        "hp"@.len() == 2,
        "spd"@.len() == 3,
        "def"@[0] == 'd',
        "spd"@[0] == 's',
{
    reveal_strlit("def");
    reveal_strlit("prot");
    reveal_strlit("hp");
    reveal_strlit("spd");
}

impl Armour {
    pub fn to_map(&self) -> (r: PathMap<Value>)
        ensures
            r@ == armour_entries(*self),
            r.wf(),
    {
        proof {
            lemma_armour_keys();
        }
        let mut m = PathMap::<Value>::new();
        let ghost u0: Set<Seq<char>> = Set::empty();
        push_scalar(&mut m, Ghost(u0), "def", Value::Float(self.def));
        let ghost u1 = u0.insert("def"@);
        push_scalar(&mut m, Ghost(u1), "prot", Value::Float(self.prot));
        let ghost u2 = u1.insert("prot"@);
        push_scalar(&mut m, Ghost(u2), "hp", Value::Int(self.hp));
        let ghost u3 = u2.insert("hp"@);
        push_scalar(&mut m, Ghost(u3), "spd", Value::Int(self.spd));
        proof {
            assert(m@ =~= armour_entries(*self));
        }
        m
    }
}

/// The flattened weapon bank up to rank `n`: each rank's entries prefixed
/// with the rank's decimal index.
pub open spec fn weapons_entries_upto(ws: Seq<Weapon>, n: int) -> Seq<EntryModel<ValueModel>>
    decreases n,
{
    if n <= 0 {
        Seq::empty()
    } else {
        weapons_entries_upto(ws, n - 1) + prefixed_entries(
            dec_nat((n - 1) as nat),
            weapon_entries(ws[n - 1]),
        )
    }
}

pub open spec fn weapons_entries(ws: Seq<Weapon>) -> Seq<EntryModel<ValueModel>> {
    weapons_entries_upto(ws, ws.len() as int)
}

impl Weapons {
    /// Flattens the bank; deterministic, with no failure cases.
    pub fn to_map(&self) -> (r: PathMap<Value>)
        requires
            self.wf(),
        ensures
            r@ == weapons_entries(self.0@),
            r.wf(),
    {
        let mut m = PathMap::<Value>::new();
        let mut i: usize = 0;
        let n = self.0.len();
        proof {
            assert(m@ =~= weapons_entries_upto(self.0@, 0));
        }
        while i < n
            invariant
                self.wf(),
                n == self.0@.len(),
                i <= n,
                m.wf(),
                m@ == weapons_entries_upto(self.0@, i as int),
                forall|k: int| 0 <= k < m@.len() ==> (#[trigger] m@[k]).0.len() >= 1 && exists|
                    j: int,
                |
                    0 <= j < i && m@[k].0[0] == #[trigger] dec_nat(j as nat),
            decreases n - i,
        {
            let idx = u32_to_string(i as u32);
            let g = self.0[i].to_map();
            let ghost oldm = m@;
            proof {
                assert(i < 5);
                assert(i as u32 as nat == i as nat);
                assert(idx@ == dec_nat(i as nat));
                lemma_dec_nat(i as nat);
                assert forall|k: int| 0 <= k < g@.len() implies !assoc_contains(
                    m@,
                    seq![dec_nat(i as nat)] + g@[k].0,
                ) by {
                    if assoc_contains(m@, seq![dec_nat(i as nat)] + g@[k].0) {
                        let j = choose|j: int|
                            0 <= j < m@.len() && m@[j].0 == seq![dec_nat(i as nat)] + g@[k].0;
                        assert(m@[j].0[0] == dec_nat(i as nat));
                        let jj = choose|jj: int|
                            0 <= jj < i && m@[j].0[0] == #[trigger] dec_nat(jj as nat);
                        lemma_dec_nat(jj as nat);
                        assert(false);
                    }
                }
            }
            m.extend_prefixed(idx.as_str(), g);
            i += 1;
            proof {
                assert(m@ =~= weapons_entries_upto(self.0@, i as int));
                assert forall|k: int| 0 <= k < m@.len() implies (#[trigger] m@[k]).0.len() >= 1
                    && exists|j: int| 0 <= j < i && m@[k].0[0] == #[trigger] dec_nat(j as nat) by {
                    if k < oldm.len() {
                        assert(m@[k] == oldm[k]);
                    } else {
                        let e = prefixed_entries(
                            dec_nat((i - 1) as nat),
                            weapon_entries(self.0@[i - 1]),
                        )[k - oldm.len()];
                        assert(m@[k] == e);
                        assert(m@[k].0[0] == dec_nat((i - 1) as nat));
                    }
                }
            }
        }
        m
    }
}

/// The flattened armour bank up to rank `n`.
pub open spec fn armours_entries_upto(armours: Seq<Armour>, n: int) -> Seq<EntryModel<ValueModel>>
    decreases n,
{
    if n <= 0 {
        Seq::empty()
    } else {
        armours_entries_upto(armours, n - 1) + prefixed_entries(
            dec_nat((n - 1) as nat),
            armour_entries(armours[n - 1]),
        )
    }
}

pub open spec fn armours_entries(armours: Seq<Armour>) -> Seq<EntryModel<ValueModel>> {
    armours_entries_upto(armours, armours.len() as int)
}

impl Armours {
    /// Flattens the bank; deterministic, with no failure cases.
    pub fn to_map(&self) -> (r: PathMap<Value>)
        requires
            self.wf(),
        ensures
            r@ == armours_entries(self.0@),
            r.wf(),
    {
        let mut m = PathMap::<Value>::new();
        let mut i: usize = 0;
        let n = self.0.len();
        proof {
            assert(m@ =~= armours_entries_upto(self.0@, 0));
        }
        while i < n
            invariant
                self.wf(),
                n == self.0@.len(),
                i <= n,
                m.wf(),
                m@ == armours_entries_upto(self.0@, i as int),
                forall|k: int| 0 <= k < m@.len() ==> (#[trigger] m@[k]).0.len() >= 1 && exists|
                    j: int,
                |
                    0 <= j < i && m@[k].0[0] == #[trigger] dec_nat(j as nat),
            decreases n - i,
        {
            let idx = u32_to_string(i as u32);
            let g = self.0[i].to_map();
            let ghost oldm = m@;
            proof {
                assert(i < 5);
                assert(i as u32 as nat == i as nat);
                assert(idx@ == dec_nat(i as nat));
                lemma_dec_nat(i as nat);
                assert forall|k: int| 0 <= k < g@.len() implies !assoc_contains(
                    m@,
                    seq![dec_nat(i as nat)] + g@[k].0,
                ) by {
                    if assoc_contains(m@, seq![dec_nat(i as nat)] + g@[k].0) {
                        let j = choose|j: int|
                            0 <= j < m@.len() && m@[j].0 == seq![dec_nat(i as nat)] + g@[k].0;
                        assert(m@[j].0[0] == dec_nat(i as nat));
                        let jj = choose|jj: int|
                            0 <= jj < i && m@[j].0[0] == #[trigger] dec_nat(jj as nat);
                        lemma_dec_nat(jj as nat);
                        assert(false);
                    }
                }
            }
            m.extend_prefixed(idx.as_str(), g);
            i += 1;
            proof {
                assert(m@ =~= armours_entries_upto(self.0@, i as int));
                assert forall|k: int| 0 <= k < m@.len() implies (#[trigger] m@[k]).0.len() >= 1
                    && exists|j: int| 0 <= j < i && m@[k].0[0] == #[trigger] dec_nat(j as nat) by {
                    if k < oldm.len() {
                        assert(m@[k] == oldm[k]);
                    } else {
                        let e = prefixed_entries(
                            dec_nat((i - 1) as nat),
                            armour_entries(self.0@[i - 1]),
                        )[k - oldm.len()];
                        assert(m@[k] == e);
                        assert(m@[k].0[0] == dec_nat((i - 1) as nat));
                    }
                }
            }
        }
        m
    }
}

/// The flattened move skill.
pub open spec fn move_entries(m: MoveSkill) -> Seq<EntryModel<ValueModel>> {
    seq![
        (seq!["forward"@], ValueModel::Int(m.forward)),
        (seq!["backward"@], ValueModel::Int(m.backward)),
    ]
}

proof fn lemma_move_keys()
    ensures
        "forward"@.len() == 7,
        "backward"@.len() == 8,
{
    reveal_strlit("forward");
    reveal_strlit("backward");
}

impl MoveSkill {
    pub fn to_map(&self) -> (r: PathMap<Value>)
        ensures
            r@ == move_entries(*self),
            r.wf(),
    {
        proof {
            lemma_move_keys();
        }
        let mut m = PathMap::<Value>::new();
        let ghost u0: Set<Seq<char>> = Set::empty();
        push_scalar(&mut m, Ghost(u0), "forward", Value::Int(self.forward));
        let ghost u1 = u0.insert("forward"@);
        push_scalar(&mut m, Ghost(u1), "backward", Value::Int(self.backward));
        proof {
            assert(m@ =~= move_entries(*self));
        }
        m
    }
}

/// The flattened death's door block: each buff list as a set.
pub open spec fn deaths_door_entries(d: crate::hero::DeathsDoorModel) -> Seq<
    EntryModel<ValueModel>,
> {
    prefixed_entries("buffs"@, set_entries(d.buffs)) + prefixed_entries(
        "recovery_buffs"@,
        set_entries(d.recovery_buffs),
    ) + prefixed_entries(
        "recovery_heart_attack_buffs"@,
        set_entries(d.recovery_heart_attack_buffs),
    )
}

proof fn lemma_deaths_door_keys()
    ensures
        "buffs"@.len() == 5,
        "recovery_buffs"@.len() == 14,
        "recovery_heart_attack_buffs"@.len() == 27,
{
    reveal_strlit("buffs");
    reveal_strlit("recovery_buffs");
    reveal_strlit("recovery_heart_attack_buffs");
}

impl DeathsDoor {
    /// Flattens the block.
    pub fn to_map(&self) -> (r: PathMap<Value>)
        requires
            deaths_door_wf(self@),
        ensures
            r@ == deaths_door_entries(self@),
            r.wf(),
    {
        proof {
            lemma_deaths_door_keys();
        }
        let mut m = PathMap::<Value>::new();
        let ghost u0: Set<Seq<char>> = Set::empty();
        let g1 = string_set(&self.buffs);
        extend_group(&mut m, Ghost(u0), "buffs", g1);
        let ghost u1 = u0.insert("buffs"@);
        let g2 = string_set(&self.recovery_buffs);
        extend_group(&mut m, Ghost(u1), "recovery_buffs", g2);
        let ghost u2 = u1.insert("recovery_buffs"@);
        let g3 = string_set(&self.recovery_heart_attack_buffs);
        extend_group(&mut m, Ghost(u2), "recovery_heart_attack_buffs", g3);
        proof {
            assert(m@ =~= deaths_door_entries(self@));
        }
        m
    }
}


/// The flat entries of a skill's scalar fields.
pub open spec fn skill_other_entries(o: Seq<(Seq<char>, Seq<char>)>) -> Seq<
    EntryModel<ValueModel>,
> {
    o.map_values(|kv: (Seq<char>, Seq<char>)| (seq![kv.0], ValueModel::Text(kv.1)))
}

/// The flat entries of one skill: the effect chain, then the scalar fields.
pub open spec fn skill_entries(s: SkillModel) -> Seq<EntryModel<ValueModel>> {
    chain_entries("effects"@, s.effects) + skill_other_entries(s.other)
}

/// Chain entries have the marker as first segment; the start entry has one
/// segment, successor entries two.
pub proof fn lemma_chain_entry_shape(marker: Seq<char>, l: Seq<Seq<char>>, j: int)
    requires
        0 <= j < chain_entries(marker, l).len(),
    ensures
        chain_entries(marker, l)[j].0.len() >= 1,
        chain_entries(marker, l)[j].0[0] == marker,
{
    let ce = chain_entries(marker, l);
    if j == 0 {
        assert(ce[0].0 == seq![marker]);
    } else {
        assert(ce[j] == (seq![marker, l[j - 1]], ValueModel::Text(l[j])));
    }
}

impl Skill {
    /// Flattens one skill: the effect chain under its marker, then the
    /// scalar fields as one-segment leaves.
    pub fn to_map(&self) -> (r: PathMap<Value>)
        requires
            skill_wf(self@),
        ensures
            r@ == skill_entries(self@),
            r.wf(),
    {
        let ghost sm = self@;
        let mut m = chain_map("effects", &self.effects);
        let ghost ce = chain_entries("effects"@, sm.effects);
        let mut i: usize = 0;
        let n = self.other.len();
        proof {
            assert(m@ =~= ce + skill_other_entries(sm.other.take(0)));
        }
        while i < n
            invariant
                n == self.other@.len(),
                sm == self@,
                skill_wf(sm),
                ce == chain_entries("effects"@, sm.effects),
                i <= n,
                m.wf(),
                m@ == ce + skill_other_entries(sm.other.take(i as int)),
            decreases n - i,
        {
            proof {
                assert(self.other@[i as int].deep_view() == sm.other[i as int]);
            }
            let k = clone_string(&self.other[i].0);
            let v = clone_string(&self.other[i].1);
            let ghost pm = seq![sm.other[i as int].0];
            let mut path: Vec<String> = Vec::new();
            path.push(k);
            proof {
                assert(path.deep_view() =~= pm);
                assert forall|t: int| 0 <= t < m@.len() implies m@[t].0 != pm by {
                    assert(pm[0] == sm.other[i as int].0);
                    if t < ce.len() {
                        lemma_chain_entry_shape("effects"@, sm.effects, t);
                        assert(m@[t] == ce[t]);
                        assert(m@[t].0[0] == "effects"@);
                        assert(sm.other[i as int].0 != "effects"@);
                        if m@[t].0 == pm {
                            assert(m@[t].0[0] == pm[0]);
                            assert(false);
                        }
                    } else {
                        let j = t - ce.len();
                        assert(m@[t] == skill_other_entries(sm.other.take(i as int))[j]);
                        assert(m@[t].0 == seq![sm.other[j].0]);
                        assert(m@[t].0[0] == sm.other[j].0);
                        assert(sm.other[j].0 != sm.other[i as int].0);
                        if m@[t].0 == pm {
                            assert(m@[t].0[0] == pm[0]);
                            assert(false);
                        }
                    }
                }
                if assoc_contains(m@, pm) {
                    let t = choose|t: int| 0 <= t < m@.len() && m@[t].0 == pm;
                    assert(false);
                }
            }
            m.insert(path, Value::Text(v));
            i += 1;
            proof {
                assert(m@ =~= ce + skill_other_entries(sm.other.take(i as int)));
            }
        }
        proof {
            assert(sm.other.take(n as int) =~= sm.other);
            assert(m@ =~= skill_entries(sm));
        }
        m
    }
}

/// The flattened key of one skill: `name_level`.
pub open spec fn skill_key_str(name: Seq<char>, level: i32) -> Seq<char> {
    name + seq!['_'] + dec_int(level as int)
}

/// The rendered decimal of an integer holds no underscore.
pub proof fn lemma_dec_int_no_underscore(n: int)
    ensures
        forall|i: int| 0 <= i < dec_int(n).len() ==> dec_int(n)[i] != '_',
        dec_int(n).len() >= 1,
{
    if n < 0 {
        lemma_dec_nat((-n) as nat);
        assert forall|i: int| 0 <= i < dec_int(n).len() implies dec_int(n)[i] != '_' by {
            if i == 0 {
                assert(dec_int(n)[0] == '-');
            } else {
                assert(dec_int(n)[i] == dec_nat((-n) as nat)[i - 1]);
            }
        }
    } else {
        lemma_dec_nat(n as nat);
    }
}

/// Underscore-free names make the flattened skill key injective.
pub proof fn lemma_skill_key_inj(n1: Seq<char>, l1: i32, n2: Seq<char>, l2: i32)
    requires
        crate::hero::no_underscore(n1),
        crate::hero::no_underscore(n2),
        skill_key_str(n1, l1) == skill_key_str(n2, l2),
    ensures
        n1 == n2,
        l1 == l2,
{
    let s1 = skill_key_str(n1, l1);
    let s2 = skill_key_str(n2, l2);
    lemma_dec_int_no_underscore(l1 as int);
    lemma_dec_int_no_underscore(l2 as int);
    assert(s1[n1.len() as int] == '_');
    assert(s2[n2.len() as int] == '_');
    if n1.len() < n2.len() {
        assert(s2[n1.len() as int] == n2[n1.len() as int]);
        assert(false);
    }
    if n2.len() < n1.len() {
        assert(s1[n2.len() as int] == n1[n2.len() as int]);
        assert(false);
    }
    assert(n1 =~= n2) by {
        assert forall|i: int| 0 <= i < n1.len() implies n1[i] == n2[i] by {
            assert(s1[i] == n1[i]);
            assert(s2[i] == n2[i]);
        }
    }
    assert(s1.len() == n1.len() + 1 + dec_int(l1 as int).len());
    assert(s2.len() == n2.len() + 1 + dec_int(l2 as int).len());
    assert(dec_int(l1 as int).len() == dec_int(l2 as int).len());
    assert(dec_int(l1 as int) =~= dec_int(l2 as int)) by {
        assert forall|i: int| 0 <= i < dec_int(l1 as int).len() implies dec_int(l1 as int)[i]
            == dec_int(l2 as int)[i] by {
            assert(s1[n1.len() + 1 + i] == dec_int(l1 as int)[i]);
            assert(s2[n2.len() + 1 + i] == dec_int(l2 as int)[i]);
        }
    }
    crate::strnum::lemma_parse_dec_int(l1);
    crate::strnum::lemma_parse_dec_int(l2);
}

/// Builds the flattened key of one skill.
pub fn skill_key_string(name: &String, level: i32) -> (r: String)
    ensures
        r@ == skill_key_str(name@, level),
{
    let mut r = clone_string(name);
    proof {
        reveal_strlit("_");
    }
    r.append("_");
    let lv = i32_to_string(level);
    r.append(lv.as_str());
    proof {
        assert(r@ =~= skill_key_str(name@, level));
    }
    r
}

/// The flattened skill bank up to entry `n`.
pub open spec fn skills_entries_upto(ss: SkillsModel, n: int) -> Seq<EntryModel<ValueModel>>
    decreases n,
{
    if n <= 0 {
        Seq::empty()
    } else {
        skills_entries_upto(ss, n - 1) + prefixed_entries(
            skill_key_str(ss[n - 1].0.0, ss[n - 1].0.1),
            skill_entries(ss[n - 1].1),
        )
    }
}

pub open spec fn skills_entries(ss: SkillsModel) -> Seq<EntryModel<ValueModel>> {
    skills_entries_upto(ss, ss.len() as int)
}

impl Skills {
    /// Flattens the bank: each skill's entries under its `name_level` key.
    pub fn to_map(&self) -> (r: PathMap<Value>)
        requires
            skills_wf(self@),
        ensures
            r@ == skills_entries(self@),
            r.wf(),
    {
        let ghost ss = self@;
        let mut m = PathMap::<Value>::new();
        let mut i: usize = 0;
        let n = self.0.len();
        proof {
            assert(m@ =~= skills_entries_upto(ss, 0));
        }
        while i < n
            invariant
                n == self.0@.len(),
                ss == self@,
                skills_wf(ss),
                i <= n,
                m.wf(),
                m@ == skills_entries_upto(ss, i as int),
                forall|k: int| 0 <= k < m@.len() ==> (#[trigger] m@[k]).0.len() >= 1 && exists|
                    j: int,
                |
                    0 <= j < i && m@[k].0[0] == skill_key_str(
                        (#[trigger] ss[j]).0.0,
                        ss[j].0.1,
                    ),
            decreases n - i,
        {
            proof {
                assert(self.0@[i as int].deep_view() == ss[i as int]);
                assert(skill_wf(ss[i as int].1));
                assert(self.0@[i as int].1.deep_view() == ss[i as int].1);
            }
            let key = skill_key_string(&self.0[i].0.0, self.0[i].0.1);
            let g = self.0[i].1.to_map();
            let ghost oldm = m@;
            let ghost pre = skill_key_str(ss[i as int].0.0, ss[i as int].0.1);
            proof {
                assert(key@ == pre);
                assert(skill_wf(ss[i as int].1));
                assert forall|k: int| 0 <= k < g@.len() implies !assoc_contains(
                    m@,
                    seq![pre] + g@[k].0,
                ) by {
                    if assoc_contains(m@, seq![pre] + g@[k].0) {
                        let t = choose|t: int|
                            0 <= t < m@.len() && m@[t].0 == seq![pre] + g@[k].0;
                        assert(m@[t].0[0] == pre);
                        let j = choose|j: int|
                            0 <= j < i && m@[t].0[0] == skill_key_str(
                                (#[trigger] ss[j]).0.0,
                                ss[j].0.1,
                            );
                        lemma_skill_key_inj(ss[j].0.0, ss[j].0.1, ss[i as int].0.0, ss[
                            i as int].0.1);
                        assert(ss[j].0 == ss[i as int].0);
                        assert(false);
                    }
                }
            }
            m.extend_prefixed(key.as_str(), g);
            i += 1;
            proof {
                assert(m@ =~= skills_entries_upto(ss, i as int));
                assert forall|k: int| 0 <= k < m@.len() implies (#[trigger] m@[k]).0.len() >= 1
                    && exists|j: int|
                    0 <= j < i && m@[k].0[0] == skill_key_str(
                        (#[trigger] ss[j]).0.0,
                        ss[j].0.1,
                    ) by {
                    if k < oldm.len() {
                        assert(m@[k] == oldm[k]);
                    } else {
                        let e = prefixed_entries(pre, skill_entries(ss[i - 1].1))[k - oldm.len()];
                        assert(m@[k] == e);
                        assert(m@[k].0[0] == skill_key_str(ss[i - 1].0.0, ss[i - 1].0.1));
                    }
                }
            }
        }
        proof {
            assert(skills_entries_upto(ss, n as int) == skills_entries(ss));
        }
        m
    }
}

/// The flattened entries of one mode up to collection `n`.
pub open spec fn mode_entries_upto(mm: ModeModel, n: int) -> Seq<EntryModel<ValueModel>>
    decreases n,
{
    if n <= 0 {
        Seq::empty()
    } else {
        mode_entries_upto(mm, n - 1) + prefixed_entries(mm[n - 1].0, set_entries(mm[n - 1].1))
    }
}

pub open spec fn mode_entries(mm: ModeModel) -> Seq<EntryModel<ValueModel>> {
    mode_entries_upto(mm, mm.len() as int)
}

impl Mode {
    /// Flattens one mode: each named collection as a set under its name.
    pub fn to_map(&self) -> (r: PathMap<Value>)
        requires
            mode_wf(self@),
        ensures
            r@ == mode_entries(self@),
            r.wf(),
    {
        let ghost mm = self@;
        let mut m = PathMap::<Value>::new();
        let mut i: usize = 0;
        let n = self.0.len();
        proof {
            assert(m@ =~= mode_entries_upto(mm, 0));
        }
        while i < n
            invariant
                n == self.0@.len(),
                mm == self@,
                mode_wf(mm),
                i <= n,
                m.wf(),
                m@ == mode_entries_upto(mm, i as int),
                forall|k: int| 0 <= k < m@.len() ==> (#[trigger] m@[k]).0.len() >= 1 && exists|
                    j: int,
                |
                    0 <= j < i && m@[k].0[0] == (#[trigger] mm[j]).0,
            decreases n - i,
        {
            proof {
                assert(self.0@[i as int].deep_view() == mm[i as int]);
                assert(strings_distinct(mm[i as int].1));
            }
            let g = string_set(&self.0[i].1);
            let ghost oldm = m@;
            proof {
                assert forall|k: int| 0 <= k < g@.len() implies !assoc_contains(
                    m@,
                    seq![mm[i as int].0] + g@[k].0,
                ) by {
                    if assoc_contains(m@, seq![mm[i as int].0] + g@[k].0) {
                        let t = choose|t: int|
                            0 <= t < m@.len() && m@[t].0 == seq![mm[i as int].0] + g@[k].0;
                        assert(m@[t].0[0] == mm[i as int].0);
                        let j = choose|j: int|
                            0 <= j < i && m@[t].0[0] == (#[trigger] mm[j]).0;
                        assert(mm[j].0 != mm[i as int].0);
                        assert(false);
                    }
                }
            }
            m.extend_prefixed(self.0[i].0.as_str(), g);
            i += 1;
            proof {
                assert(m@ =~= mode_entries_upto(mm, i as int));
                assert forall|k: int| 0 <= k < m@.len() implies (#[trigger] m@[k]).0.len() >= 1
                    && exists|j: int| 0 <= j < i && m@[k].0[0] == (#[trigger] mm[j]).0 by {
                    if k < oldm.len() {
                        assert(m@[k] == oldm[k]);
                    } else {
                        let e = prefixed_entries(mm[i - 1].0, set_entries(mm[i - 1].1))[k
                            - oldm.len()];
                        assert(m@[k] == e);
                        assert(m@[k].0[0] == mm[i - 1].0);
                    }
                }
            }
        }
        proof {
            assert(mode_entries_upto(mm, n as int) == mode_entries(mm));
        }
        m
    }
}

/// The flattened mode bank up to mode `n`.
pub open spec fn modes_entries_upto(ms: ModesModel, n: int) -> Seq<EntryModel<ValueModel>>
    decreases n,
{
    if n <= 0 {
        Seq::empty()
    } else {
        modes_entries_upto(ms, n - 1) + prefixed_entries(ms[n - 1].0, mode_entries(ms[n - 1].1))
    }
}

pub open spec fn modes_entries(ms: ModesModel) -> Seq<EntryModel<ValueModel>> {
    modes_entries_upto(ms, ms.len() as int)
}

impl Modes {
    /// Flattens the bank: each mode's entries under the mode's id.
    pub fn to_map(&self) -> (r: PathMap<Value>)
        requires
            modes_wf(self@),
        ensures
            r@ == modes_entries(self@),
            r.wf(),
    {
        let ghost ms = self@;
        let mut m = PathMap::<Value>::new();
        let mut i: usize = 0;
        let n = self.0.len();
        proof {
            assert(m@ =~= modes_entries_upto(ms, 0));
        }
        while i < n
            invariant
                n == self.0@.len(),
                ms == self@,
                modes_wf(ms),
                i <= n,
                m.wf(),
                m@ == modes_entries_upto(ms, i as int),
                forall|k: int| 0 <= k < m@.len() ==> (#[trigger] m@[k]).0.len() >= 1 && exists|
                    j: int,
                |
                    0 <= j < i && m@[k].0[0] == (#[trigger] ms[j]).0,
            decreases n - i,
        {
            proof {
                assert(self.0@[i as int].deep_view() == ms[i as int]);
                assert(mode_wf(ms[i as int].1));
            }
            let g = self.0[i].1.to_map();
            let ghost oldm = m@;
            proof {
                assert forall|k: int| 0 <= k < g@.len() implies !assoc_contains(
                    m@,
                    seq![ms[i as int].0] + g@[k].0,
                ) by {
                    if assoc_contains(m@, seq![ms[i as int].0] + g@[k].0) {
                        let t = choose|t: int|
                            0 <= t < m@.len() && m@[t].0 == seq![ms[i as int].0] + g@[k].0;
                        assert(m@[t].0[0] == ms[i as int].0);
                        let j = choose|j: int|
                            0 <= j < i && m@[t].0[0] == (#[trigger] ms[j]).0;
                        assert(ms[j].0 != ms[i as int].0);
                        assert(false);
                    }
                }
            }
            m.extend_prefixed(self.0[i].0.as_str(), g);
            i += 1;
            proof {
                assert(m@ =~= modes_entries_upto(ms, i as int));
                assert forall|k: int| 0 <= k < m@.len() implies (#[trigger] m@[k]).0.len() >= 1
                    && exists|j: int| 0 <= j < i && m@[k].0[0] == (#[trigger] ms[j]).0 by {
                    if k < oldm.len() {
                        assert(m@[k] == oldm[k]);
                    } else {
                        let e = prefixed_entries(ms[i - 1].0, mode_entries(ms[i - 1].1))[k
                            - oldm.len()];
                        assert(m@[k] == e);
                        assert(m@[k].0[0] == ms[i - 1].0);
                    }
                }
            }
        }
        proof {
            assert(modes_entries_upto(ms, n as int) == modes_entries(ms));
        }
        m
    }
}

/// The flattened incompatibility table up to entry `n`.
pub open spec fn incompat_entries_upto(t: IncompatibilitiesModel, n: int) -> Seq<
    EntryModel<ValueModel>,
>
    decreases n,
{
    if n <= 0 {
        Seq::empty()
    } else {
        incompat_entries_upto(t, n - 1) + prefixed_entries(t[n - 1].0, set_entries(t[n - 1].1))
    }
}

pub open spec fn incompat_entries(t: IncompatibilitiesModel) -> Seq<EntryModel<ValueModel>> {
    incompat_entries_upto(t, t.len() as int)
}

impl Incompatibilities {
    /// Flattens the table: each id's tag list as a set under the id.
    pub fn to_map(&self) -> (r: PathMap<Value>)
        requires
            incompatibilities_wf(self@),
        ensures
            r@ == incompat_entries(self@),
            r.wf(),
    {
        let ghost tt = self@;
        let mut m = PathMap::<Value>::new();
        let mut i: usize = 0;
        let n = self.0.len();
        proof {
            assert(m@ =~= incompat_entries_upto(tt, 0));
        }
        while i < n
            invariant
                n == self.0@.len(),
                tt == self@,
                incompatibilities_wf(tt),
                i <= n,
                m.wf(),
                m@ == incompat_entries_upto(tt, i as int),
                forall|k: int| 0 <= k < m@.len() ==> (#[trigger] m@[k]).0.len() >= 1 && exists|
                    j: int,
                |
                    0 <= j < i && m@[k].0[0] == (#[trigger] tt[j]).0,
            decreases n - i,
        {
            proof {
                assert(self.0@[i as int].deep_view() == tt[i as int]);
                assert(strings_distinct(tt[i as int].1));
            }
            let g = string_set(&self.0[i].1);
            let ghost oldm = m@;
            proof {
                assert forall|k: int| 0 <= k < g@.len() implies !assoc_contains(
                    m@,
                    seq![tt[i as int].0] + g@[k].0,
                ) by {
                    if assoc_contains(m@, seq![tt[i as int].0] + g@[k].0) {
                        let t = choose|t: int|
                            0 <= t < m@.len() && m@[t].0 == seq![tt[i as int].0] + g@[k].0;
                        assert(m@[t].0[0] == tt[i as int].0);
                        let j = choose|j: int|
                            0 <= j < i && m@[t].0[0] == (#[trigger] tt[j]).0;
                        assert(tt[j].0 != tt[i as int].0);
                        assert(false);
                    }
                }
            }
            m.extend_prefixed(self.0[i].0.as_str(), g);
            i += 1;
            proof {
                assert(m@ =~= incompat_entries_upto(tt, i as int));
                assert forall|k: int| 0 <= k < m@.len() implies (#[trigger] m@[k]).0.len() >= 1
                    && exists|j: int| 0 <= j < i && m@[k].0[0] == (#[trigger] tt[j]).0 by {
                    if k < oldm.len() {
                        assert(m@[k] == oldm[k]);
                    } else {
                        let e = prefixed_entries(tt[i - 1].0, set_entries(tt[i - 1].1))[k
                            - oldm.len()];
                        assert(m@[k] == e);
                        assert(m@[k].0[0] == tt[i - 1].0);
                    }
                }
            }
        }
        proof {
            assert(incompat_entries_upto(tt, n as int) == incompat_entries(tt));
        }
        m
    }
}

impl DeathReaction {
    /// Flattens the reactions as a set.
    pub fn to_map(&self) -> (r: PathMap<Value>)
        requires
            strings_distinct(self@),
        ensures
            r@ == set_entries(self@),
            r.wf(),
    {
        string_set(&self.0)
    }
}


/// The flattened catch-all extension table up to entry `n`: two levels of
/// prefixing (outer key, then inner key) over the list-as-set encoding.
pub open spec fn other_entries_upto(o: OtherModel, n: int) -> Seq<EntryModel<ValueModel>>
    decreases n,
{
    if n <= 0 {
        Seq::empty()
    } else {
        other_entries_upto(o, n - 1) + prefixed_entries(
            o[n - 1].0.0,
            prefixed_entries(o[n - 1].0.1, set_entries(o[n - 1].1)),
        )
    }
}

pub open spec fn other_entries(o: OtherModel) -> Seq<EntryModel<ValueModel>> {
    other_entries_upto(o, o.len() as int)
}

/// Flattens the catch-all extension table.
pub fn other_map(o: &Vec<((String, String), Vec<String>)>) -> (r: PathMap<Value>)
    requires
        other_wf(o.deep_view()),
    ensures
        r@ == other_entries(o.deep_view()),
        r.wf(),
{
    let ghost om = o.deep_view();
    let mut m = PathMap::<Value>::new();
    let mut i: usize = 0;
    let n = o.len();
    proof {
        assert(m@ =~= other_entries_upto(om, 0));
    }
    while i < n
        invariant
            n == o@.len(),
            om == o.deep_view(),
            other_wf(om),
            i <= n,
            m.wf(),
            m@ == other_entries_upto(om, i as int),
            forall|k: int| 0 <= k < m@.len() ==> (#[trigger] m@[k]).0.len() >= 2 && exists|
                j: int,
            |
                0 <= j < i && m@[k].0[0] == (#[trigger] om[j]).0.0 && m@[k].0[1] == om[j].0.1,
        decreases n - i,
    {
        proof {
            assert(o@[i as int].deep_view() == om[i as int]);
            assert(strings_distinct(om[i as int].1));
        }
        let g = string_set(&o[i].1);
        let mut m2 = PathMap::<Value>::new();
        proof {
            assert forall|k: int| 0 <= k < g@.len() implies !assoc_contains(
                Seq::<EntryModel<ValueModel>>::empty(),
                seq![om[i as int].0.1] + g@[k].0,
            ) by {}
            assert(m2@ == Seq::<EntryModel<ValueModel>>::empty());
        }
        m2.extend_prefixed(o[i].0.1.as_str(), g);
        let ghost inner2 = prefixed_entries(om[i as int].0.1, set_entries(om[i as int].1));
        proof {
            assert(m2@ =~= inner2);
        }
        let mut m1 = PathMap::<Value>::new();
        proof {
            assert forall|k: int| 0 <= k < m2@.len() implies !assoc_contains(
                Seq::<EntryModel<ValueModel>>::empty(),
                seq![om[i as int].0.0] + m2@[k].0,
            ) by {}
            assert(m1@ == Seq::<EntryModel<ValueModel>>::empty());
        }
        m1.extend_prefixed(o[i].0.0.as_str(), m2);
        let ghost inner1 = prefixed_entries(om[i as int].0.0, inner2);
        proof {
            assert(m1@ =~= inner1);
            // every entry of the new block carries the entry's key pair in
            // its first two segments
            assert forall|k: int| 0 <= k < m1@.len() implies m1@[k].0.len() >= 2 && m1@[k].0[0]
                == om[i as int].0.0 && m1@[k].0[1] == om[i as int].0.1 by {
                assert(m1@[k] == inner1[k]);
                assert(inner1[k].0 == seq![om[i as int].0.0] + inner2[k].0);
                assert(inner2[k].0 == seq![om[i as int].0.1] + set_entries(om[i as int].1)[
                    k].0);
                assert(inner1[k].0[1] == inner2[k].0[0]);
            }
            // and is therefore fresh: key pairs are distinct across entries
            assert forall|k: int| 0 <= k < m1@.len() implies !assoc_contains(m@, m1@[k].0) by {
                if assoc_contains(m@, m1@[k].0) {
                    let t = choose|t: int| 0 <= t < m@.len() && m@[t].0 == m1@[k].0;
                    let j = choose|j: int|
                        0 <= j < i && m@[t].0[0] == (#[trigger] om[j]).0.0 && m@[t].0[1] == om[
                            j].0.1;
                    assert(om[j].0.0 == om[i as int].0.0 && om[j].0.1 == om[i as int].0.1);
                    assert(om[j].0 != om[i as int].0);
                    assert(false);
                }
            }
        }
        let ghost oldm = m@;
        m.append_all(m1);
        i += 1;
        proof {
            assert(m@ =~= other_entries_upto(om, i as int));
            assert forall|k: int| 0 <= k < m@.len() implies (#[trigger] m@[k]).0.len() >= 2
                && exists|j: int|
                0 <= j < i && m@[k].0[0] == (#[trigger] om[j]).0.0 && m@[k].0[1] == om[
                    j].0.1 by {
                if k < oldm.len() {
                    assert(m@[k] == oldm[k]);
                } else {
                    assert(m@[k] == inner1[k - oldm.len()]);
                    assert(m@[k].0[0] == om[i - 1].0.0 && m@[k].0[1] == om[i - 1].0.1);
                }
            }
        }
    }
    proof {
        assert(other_entries_upto(om, n as int) == other_entries(om));
    }
    m
}

/// The inner flat form of a full hero record: each block's entries under the
/// block's field name, in a fixed block order.
pub open spec fn hero_inner_entries(h: HeroModel) -> Seq<EntryModel<ValueModel>> {
    prefixed_entries("resistances"@, res_entries(h.resistances)) + prefixed_entries(
        "weapons"@,
        weapons_entries(h.weapons),
    ) + prefixed_entries("armours"@, armours_entries(h.armours)) + prefixed_entries(
        "skills"@,
        skills_entries(h.skills),
    ) + prefixed_entries("riposte_skill"@, skill_entries(h.riposte_skill)) + prefixed_entries(
        "move_skill"@,
        move_entries(h.move_skill),
    ) + prefixed_entries("tags"@, set_entries(h.tags)) + prefixed_entries(
        "extra_stack_limit"@,
        set_entries(h.extra_stack_limit),
    ) + prefixed_entries("deaths_door"@, deaths_door_entries(h.deaths_door)) + prefixed_entries(
        "modes"@,
        modes_entries(h.modes),
    ) + prefixed_entries(
        "incompatible_party_member"@,
        incompat_entries(h.incompatible_party_member),
    ) + prefixed_entries("death_reaction"@, set_entries(h.death_reaction)) + prefixed_entries(
        "other"@,
        other_entries(h.other),
    )
}

/// The full flat form: every path re-prefixed with the record's id.
pub open spec fn hero_flat(h: HeroModel) -> Seq<EntryModel<ValueModel>> {
    prefixed_entries(h.id, hero_inner_entries(h))
}

/// The thirteen field-group names are distinct words.
pub proof fn lemma_hero_keys()
    ensures
        "resistances"@.len() == 11,
        "weapons"@.len() == 7,
        "armours"@.len() == 7,
        "skills"@.len() == 6,
        "riposte_skill"@.len() == 13,
        "move_skill"@.len() == 10,
        "tags"@.len() == 4,
        "extra_stack_limit"@.len() == 17,
        "deaths_door"@.len() == 11,
        "modes"@.len() == 5,
        "incompatible_party_member"@.len() == 25,
        "death_reaction"@.len() == 14,
        "other"@.len() == 5,
        "weapons"@[0] == 'w',
        "armours"@[0] == 'a',
        "resistances"@[0] == 'r',
        "deaths_door"@[0] == 'd',
        "modes"@[0] == 'm',
        "other"@[0] == 'o',
{
    reveal_strlit("resistances");
    reveal_strlit("weapons");
    reveal_strlit("armours");
    reveal_strlit("skills");
    reveal_strlit("riposte_skill");
    reveal_strlit("move_skill");
    reveal_strlit("tags");
    reveal_strlit("extra_stack_limit");
    reveal_strlit("deaths_door");
    reveal_strlit("modes");
    reveal_strlit("incompatible_party_member");
    reveal_strlit("death_reaction");
    reveal_strlit("other");
}

impl HeroInfo {
    /// Flattens the whole record: deterministic given the record's field
    /// values, with no side effects and no failure cases.
    #[verifier::rlimit(100)]
    pub fn to_map(&self) -> (r: PathMap<Value>)
        requires
            hero_wf(self@),
        ensures
            r@ == hero_flat(self@),
            r.wf(),
    {
        proof {
            lemma_hero_keys();
        }
        let mut inner = PathMap::<Value>::new();
        let ghost u0: Set<Seq<char>> = Set::empty();
        extend_group(&mut inner, Ghost(u0), "resistances", self.resistances.to_map());
        let ghost u1 = u0.insert("resistances"@);
        extend_group(&mut inner, Ghost(u1), "weapons", self.weapons.to_map());
        let ghost u2 = u1.insert("weapons"@);
        extend_group(&mut inner, Ghost(u2), "armours", self.armours.to_map());
        let ghost u3 = u2.insert("armours"@);
        extend_group(&mut inner, Ghost(u3), "skills", self.skills.to_map());
        let ghost u4 = u3.insert("skills"@);
        extend_group(&mut inner, Ghost(u4), "riposte_skill", self.riposte_skill.to_map());
        let ghost u5 = u4.insert("riposte_skill"@);
        extend_group(&mut inner, Ghost(u5), "move_skill", self.move_skill.to_map());
        let ghost u6 = u5.insert("move_skill"@);
        extend_group(&mut inner, Ghost(u6), "tags", string_set(&self.tags));
        let ghost u7 = u6.insert("tags"@);
        extend_group(&mut inner, Ghost(u7), "extra_stack_limit", string_set(
            &self.extra_stack_limit,
        ));
        let ghost u8 = u7.insert("extra_stack_limit"@);
        extend_group(&mut inner, Ghost(u8), "deaths_door", self.deaths_door.to_map());
        let ghost u9 = u8.insert("deaths_door"@);
        extend_group(&mut inner, Ghost(u9), "modes", self.modes.to_map());
        let ghost u10 = u9.insert("modes"@);
        extend_group(
            &mut inner,
            Ghost(u10),
            "incompatible_party_member",
            self.incompatible_party_member.to_map(),
        );
        let ghost u11 = u10.insert("incompatible_party_member"@);
        extend_group(&mut inner, Ghost(u11), "death_reaction", self.death_reaction.to_map());
        let ghost u12 = u11.insert("death_reaction"@);
        extend_group(&mut inner, Ghost(u12), "other", other_map(&self.other));
        proof {
            assert(inner@ == hero_inner_entries(self@));
        }
        let mut out = PathMap::<Value>::new();
        proof {
            assert forall|k: int| 0 <= k < inner@.len() implies !assoc_contains(
                Seq::<EntryModel<ValueModel>>::empty(),
                seq![self.id@] + inner@[k].0,
            ) by {}
            assert(out@ == Seq::<EntryModel<ValueModel>>::empty());
        }
        out.extend_prefixed(self.id.as_str(), inner);
        proof {
            assert(out@ =~= hero_flat(self@));
        }
        out
    }
}

/// The inner flat form of an override record: present blocks only, in the
/// same block order as the full record.
pub open spec fn hero_override_inner_entries(h: HeroOverrideModel) -> Seq<
    EntryModel<ValueModel>,
> {
    prefixed_entries("resistances"@, res_override_entries(h.resistances)) + (match h.weapons {
        Some(w) => prefixed_entries("weapons"@, weapons_entries(w)),
        None => Seq::empty(),
    }) + (match h.armours {
        Some(a) => prefixed_entries("armours"@, armours_entries(a)),
        None => Seq::empty(),
    }) + (match h.skills {
        Some(ss) => prefixed_entries("skills"@, skills_entries(ss)),
        None => Seq::empty(),
    }) + (match h.riposte_skill {
        Some(sk) => prefixed_entries("riposte_skill"@, skill_entries(sk)),
        None => Seq::empty(),
    }) + (match h.move_skill {
        Some(mv) => prefixed_entries("move_skill"@, move_entries(mv)),
        None => Seq::empty(),
    }) + prefixed_entries("tags"@, set_entries(h.tags)) + prefixed_entries(
        "extra_stack_limit"@,
        set_entries(h.extra_stack_limit),
    ) + (match h.deaths_door {
        Some(d) => prefixed_entries("deaths_door"@, deaths_door_entries(d)),
        None => Seq::empty(),
    }) + (match h.modes {
        Some(ms) => prefixed_entries("modes"@, modes_entries(ms)),
        None => Seq::empty(),
    }) + (match h.incompatible_party_member {
        Some(t) => prefixed_entries("incompatible_party_member"@, incompat_entries(t)),
        None => Seq::empty(),
    }) + (match h.death_reaction {
        Some(d) => prefixed_entries("death_reaction"@, set_entries(d)),
        None => Seq::empty(),
    }) + prefixed_entries("other"@, other_entries(h.other))
}

/// The full flat form of an override record.
pub open spec fn hero_override_flat(h: HeroOverrideModel) -> Seq<EntryModel<ValueModel>> {
    prefixed_entries(h.id, hero_override_inner_entries(h))
}

impl HeroOverride {
    /// Flattens the override record: present blocks only.
    #[verifier::rlimit(100)]
    pub fn to_map(&self) -> (r: PathMap<Value>)
        requires
            hero_override_wf(self@),
        ensures
            r@ == hero_override_flat(self@),
            r.wf(),
    {
        proof {
            lemma_hero_keys();
        }
        let ghost h = self@;
        let mut inner = PathMap::<Value>::new();
        let ghost u0: Set<Seq<char>> = Set::empty();
        extend_group(&mut inner, Ghost(u0), "resistances", self.resistances.to_map());
        let ghost u1 = u0.insert("resistances"@);
        let ghost c1 = prefixed_entries("resistances"@, res_override_entries(h.resistances));
        let ghost u2 = u1.insert("weapons"@);
        let ghost c2 = c1 + (match h.weapons {
            Some(w) => prefixed_entries("weapons"@, weapons_entries(w)),
            None => Seq::<EntryModel<ValueModel>>::empty(),
        });
        if let Some(w) = &self.weapons {
            extend_group(&mut inner, Ghost(u1), "weapons", w.to_map());
            proof {
                assert(inner@ =~= c2);
            }
        } else {
            proof {
                lemma_first_segs_weaken(inner@, u1, u2);
                assert(inner@ =~= c2);
            }
        }
        let ghost u3 = u2.insert("armours"@);
        let ghost c3 = c2 + (match h.armours {
            Some(a) => prefixed_entries("armours"@, armours_entries(a)),
            None => Seq::<EntryModel<ValueModel>>::empty(),
        });
        if let Some(a) = &self.armours {
            extend_group(&mut inner, Ghost(u2), "armours", a.to_map());
            proof {
                assert(inner@ =~= c3);
            }
        } else {
            proof {
                lemma_first_segs_weaken(inner@, u2, u3);
                assert(inner@ =~= c3);
            }
        }
        let ghost u4 = u3.insert("skills"@);
        let ghost c4 = c3 + (match h.skills {
            Some(ss) => prefixed_entries("skills"@, skills_entries(ss)),
            None => Seq::<EntryModel<ValueModel>>::empty(),
        });
        if let Some(ss) = &self.skills {
            extend_group(&mut inner, Ghost(u3), "skills", ss.to_map());
            proof {
                assert(inner@ =~= c4);
            }
        } else {
            proof {
                lemma_first_segs_weaken(inner@, u3, u4);
                assert(inner@ =~= c4);
            }
        }
        let ghost u5 = u4.insert("riposte_skill"@);
        let ghost c5 = c4 + (match h.riposte_skill {
            Some(sk) => prefixed_entries("riposte_skill"@, skill_entries(sk)),
            None => Seq::<EntryModel<ValueModel>>::empty(),
        });
        if let Some(sk) = &self.riposte_skill {
            extend_group(&mut inner, Ghost(u4), "riposte_skill", sk.to_map());
            proof {
                assert(inner@ =~= c5);
            }
        } else {
            proof {
                lemma_first_segs_weaken(inner@, u4, u5);
                assert(inner@ =~= c5);
            }
        }
        let ghost u6 = u5.insert("move_skill"@);
        let ghost c6 = c5 + (match h.move_skill {
            Some(mv) => prefixed_entries("move_skill"@, move_entries(mv)),
            None => Seq::<EntryModel<ValueModel>>::empty(),
        });
        if let Some(mv) = &self.move_skill {
            extend_group(&mut inner, Ghost(u5), "move_skill", mv.to_map());
            proof {
                assert(inner@ =~= c6);
            }
        } else {
            proof {
                lemma_first_segs_weaken(inner@, u5, u6);
                assert(inner@ =~= c6);
            }
        }
        let ghost u7 = u6.insert("tags"@);
        let ghost c7 = c6 + prefixed_entries("tags"@, set_entries(h.tags));
        extend_group(&mut inner, Ghost(u6), "tags", string_set(&self.tags));
        proof {
            assert(inner@ =~= c7);
        }
        let ghost u8 = u7.insert("extra_stack_limit"@);
        let ghost c8 = c7 + prefixed_entries("extra_stack_limit"@, set_entries(
            h.extra_stack_limit,
        ));
        extend_group(&mut inner, Ghost(u7), "extra_stack_limit", string_set(
            &self.extra_stack_limit,
        ));
        proof {
            assert(inner@ =~= c8);
        }
        let ghost u9 = u8.insert("deaths_door"@);
        let ghost c9 = c8 + (match h.deaths_door {
            Some(d) => prefixed_entries("deaths_door"@, deaths_door_entries(d)),
            None => Seq::<EntryModel<ValueModel>>::empty(),
        });
        if let Some(d) = &self.deaths_door {
            extend_group(&mut inner, Ghost(u8), "deaths_door", d.to_map());
            proof {
                assert(inner@ =~= c9);
            }
        } else {
            proof {
                lemma_first_segs_weaken(inner@, u8, u9);
                assert(inner@ =~= c9);
            }
        }
        let ghost u10 = u9.insert("modes"@);
        let ghost c10 = c9 + (match h.modes {
            Some(ms) => prefixed_entries("modes"@, modes_entries(ms)),
            None => Seq::<EntryModel<ValueModel>>::empty(),
        });
        if let Some(ms) = &self.modes {
            extend_group(&mut inner, Ghost(u9), "modes", ms.to_map());
            proof {
                assert(inner@ =~= c10);
            }
        } else {
            proof {
                lemma_first_segs_weaken(inner@, u9, u10);
                assert(inner@ =~= c10);
            }
        }
        let ghost u11 = u10.insert("incompatible_party_member"@);
        let ghost c11 = c10 + (match h.incompatible_party_member {
            Some(t) => prefixed_entries("incompatible_party_member"@, incompat_entries(t)),
            None => Seq::<EntryModel<ValueModel>>::empty(),
        });
        if let Some(t) = &self.incompatible_party_member {
            extend_group(&mut inner, Ghost(u10), "incompatible_party_member", t.to_map());
            proof {
                assert(inner@ =~= c11);
            }
        } else {
            proof {
                lemma_first_segs_weaken(inner@, u10, u11);
                assert(inner@ =~= c11);
            }
        }
        let ghost u12 = u11.insert("death_reaction"@);
        let ghost c12 = c11 + (match h.death_reaction {
            Some(d) => prefixed_entries("death_reaction"@, set_entries(d)),
            None => Seq::<EntryModel<ValueModel>>::empty(),
        });
        if let Some(d) = &self.death_reaction {
            extend_group(&mut inner, Ghost(u11), "death_reaction", d.to_map());
            proof {
                assert(inner@ =~= c12);
            }
        } else {
            proof {
                lemma_first_segs_weaken(inner@, u11, u12);
                assert(inner@ =~= c12);
            }
        }
        let ghost c13 = c12 + prefixed_entries("other"@, other_entries(h.other));
        extend_group(&mut inner, Ghost(u12), "other", other_map(&self.other));
        proof {
            assert(inner@ =~= c13);
            assert(c13 == hero_override_inner_entries(h));
        }
        let mut out = PathMap::<Value>::new();
        proof {
            assert forall|k: int| 0 <= k < inner@.len() implies !assoc_contains(
                Seq::<EntryModel<ValueModel>>::empty(),
                seq![self.id@] + inner@[k].0,
            ) by {}
            assert(out@ == Seq::<EntryModel<ValueModel>>::empty());
        }
        out.extend_prefixed(self.id.as_str(), inner);
        proof {
            assert(out@ =~= hero_override_flat(h));
        }
        out
    }
}


/// The float bits at a path of a flattened block (zero where absent or of
/// another kind; the blocks below never hit that case).
pub open spec fn float_at(s: Seq<EntryModel<ValueModel>>, p: Seq<Seq<char>>) -> u32 {
    match crate::map::assoc_lookup(s, p) {
        Some(ValueModel::Float(b)) => b,
        _ => 0,
    }
}

/// The integer at a path of a flattened block.
pub open spec fn int_at(s: Seq<EntryModel<ValueModel>>, p: Seq<Seq<char>>) -> i32 {
    match crate::map::assoc_lookup(s, p) {
        Some(ValueModel::Int(n)) => n,
        _ => 0,
    }
}

/// Reading a flattened resistance block back.
pub open spec fn res_unflatten(s: Seq<EntryModel<ValueModel>>) -> Resistances {
    Resistances {
        stun: float_at(s, seq!["stun"@]),
        poison: float_at(s, seq!["poison"@]),
        bleed: float_at(s, seq!["bleed"@]),
        disease: float_at(s, seq!["disease"@]),
        moving: float_at(s, seq!["move"@]),
        debuff: float_at(s, seq!["debuff"@]),
        death_blow: float_at(s, seq!["death_blow"@]),
        trap: float_at(s, seq!["trap"@]),
    }
}

/// Flattening a resistance block loses nothing: reading the flat form back
/// restores every field, so the encoding is injective on the block.
pub proof fn lemma_res_round_trip(r: Resistances)
    ensures
        res_unflatten(res_entries(r)) == r,
{
    lemma_res_keys();
    let s = res_entries(r);
    assert forall|j: int, k: int| 0 <= j < k < s.len() implies s[j].0 != s[k].0 by {
        if s[j].0 == s[k].0 {
            assert(s[j].0[0] == s[k].0[0]);
        }
    }
    crate::map::lemma_lookup_at(s, seq!["stun"@], 0);
    crate::map::lemma_lookup_at(s, seq!["poison"@], 1);
    crate::map::lemma_lookup_at(s, seq!["bleed"@], 2);
    crate::map::lemma_lookup_at(s, seq!["disease"@], 3);
    crate::map::lemma_lookup_at(s, seq!["move"@], 4);
    crate::map::lemma_lookup_at(s, seq!["debuff"@], 5);
    crate::map::lemma_lookup_at(s, seq!["death_blow"@], 6);
    crate::map::lemma_lookup_at(s, seq!["trap"@], 7);
}

/// Reading a flattened move skill back.
pub open spec fn move_unflatten(s: Seq<EntryModel<ValueModel>>) -> MoveSkill {
    MoveSkill {
        forward: int_at(s, seq!["forward"@]),
        backward: int_at(s, seq!["backward"@]),
    }
}

/// Flattening the move skill loses nothing.
pub proof fn lemma_move_round_trip(m: MoveSkill)
    ensures
        move_unflatten(move_entries(m)) == m,
{
    lemma_move_keys();
    let s = move_entries(m);
    assert forall|j: int, k: int| 0 <= j < k < s.len() implies s[j].0 != s[k].0 by {
        if s[j].0 == s[k].0 {
            assert(s[j].0[0] == s[k].0[0]);
        }
    }
    crate::map::lemma_lookup_at(s, seq!["forward"@], 0);
    crate::map::lemma_lookup_at(s, seq!["backward"@], 1);
}

/// Reading a flattened string set back: each entry's one-segment path is
/// the member itself, in insertion order.
pub open spec fn set_unflatten(s: Seq<EntryModel<ValueModel>>) -> Seq<Seq<char>> {
    s.map_values(|e: EntryModel<ValueModel>| e.0[0])
}

/// The set encoding of a string collection loses nothing: the members come
/// back in order, so the encoding is injective on the collection.
pub proof fn lemma_set_round_trip(l: Seq<Seq<char>>)
    ensures
        set_unflatten(set_entries(l)) == l,
{
    assert(set_unflatten(set_entries(l)) =~= l);
}

/// Walking a flattened chain from `cur`: the successor links decide each
/// next element, with fuel bounding the walk.
pub open spec fn chain_unwalk(
    cur: Seq<char>,
    marker: Seq<char>,
    s: Seq<EntryModel<ValueModel>>,
    fuel: nat,
) -> Seq<Seq<char>>
    decreases fuel,
{
    if fuel == 0 {
        seq![cur]
    } else {
        match crate::map::assoc_lookup(s, seq![marker, cur]) {
            Some(ValueModel::Text(nxt)) => seq![cur] + chain_unwalk(
                nxt,
                marker,
                s,
                (fuel - 1) as nat,
            ),
            _ => seq![cur],
        }
    }
}

/// Reading a flattened chain back: the marker entry names the first
/// element, and the walk follows the successor links.
pub open spec fn chain_unflatten(marker: Seq<char>, s: Seq<EntryModel<ValueModel>>) -> Seq<
    Seq<char>,
> {
    match crate::map::assoc_lookup(s, seq![marker]) {
        Some(ValueModel::Text(e)) => chain_unwalk(e, marker, s, s.len() + 1),
        _ => Seq::empty(),
    }
}

/// The flattened chain's successor link for element `i`.
proof fn lemma_chain_links(marker: Seq<char>, l: Seq<Seq<char>>, i: int)
    requires
        strings_distinct(l),
        0 <= i < l.len(),
    ensures
        i < l.len() - 1 ==> crate::map::assoc_lookup(
            chain_entries(marker, l),
            seq![marker, l[i]],
        ) == Some(ValueModel::Text(l[i + 1])),
        i == l.len() - 1 ==> crate::map::assoc_lookup(
            chain_entries(marker, l),
            seq![marker, l[i]],
        ) is None,
{
    let ce = chain_entries(marker, l);
    assert(ce.len() == l.len());
    assert(ce[0].0 == seq![marker]);
    assert forall|k: int| 1 <= k < ce.len() implies ce[k] == (
        seq![marker, l[k - 1]],
        ValueModel::Text(l[k]),
    ) by {}
    if i < l.len() - 1 {
        assert forall|k: int| 0 <= k < i + 1 implies ce[k].0 != seq![marker, l[i]] by {
            if k == 0 {
                assert(ce[0].0.len() == 1);
            } else {
                assert(ce[k].0 == seq![marker, l[k - 1]]);
                assert(l[k - 1] != l[i]);
                if ce[k].0 == seq![marker, l[i]] {
                    assert(ce[k].0[1] == l[k - 1]);
                }
            }
        }
        assert(ce[i + 1].0 == seq![marker, l[i]]);
        crate::map::lemma_lookup_at(ce, seq![marker, l[i]], i + 1);
    } else {
        assert forall|k: int| 0 <= k < ce.len() implies ce[k].0 != seq![marker, l[i]] by {
            if k == 0 {
                assert(ce[0].0.len() == 1);
            } else {
                assert(ce[k].0 == seq![marker, l[k - 1]]);
                assert(l[k - 1] != l[i]);
                if ce[k].0 == seq![marker, l[i]] {
                    assert(ce[k].0[1] == l[k - 1]);
                }
            }
        }
        crate::map::lemma_lookup_some(ce, seq![marker, l[i]]);
        if crate::map::assoc_contains(ce, seq![marker, l[i]]) {
            let k = choose|k: int| 0 <= k < ce.len() && ce[k].0 == seq![marker, l[i]];
            assert(false);
        }
    }
}

/// The walk from element `i` recovers the tail of the chain.
proof fn lemma_chain_unwalk_tail(marker: Seq<char>, l: Seq<Seq<char>>, i: int, fuel: nat)
    requires
        strings_distinct(l),
        0 <= i < l.len(),
        fuel >= l.len() - i,
    ensures
        chain_unwalk(l[i], marker, chain_entries(marker, l), fuel) == l.skip(i),
    decreases l.len() - i,
{
    let ce = chain_entries(marker, l);
    lemma_chain_links(marker, l, i);
    if i == l.len() - 1 {
        assert(chain_unwalk(l[i], marker, ce, fuel) =~= l.skip(i));
    } else {
        lemma_chain_unwalk_tail(marker, l, i + 1, (fuel - 1) as nat);
        assert(chain_unwalk(l[i], marker, ce, fuel) == seq![l[i]] + l.skip(i + 1));
        assert(seq![l[i]] + l.skip(i + 1) =~= l.skip(i));
    }
}

/// The chain encoding of an ordered sequence with distinct members loses
/// nothing: the walk recovers the sequence in order, so position-free
/// successor links carry exactly the original order.
pub proof fn lemma_chain_round_trip(marker: Seq<char>, l: Seq<Seq<char>>)
    requires
        strings_distinct(l),
    ensures
        chain_unflatten(marker, chain_entries(marker, l)) == l,
{
    let ce = chain_entries(marker, l);
    if l.len() == 0 {
        assert(ce.len() == 0);
        assert(chain_unflatten(marker, ce) =~= l);
    } else {
        assert(ce[0] == (seq![marker], ValueModel::Text(l[0])));
        crate::map::lemma_lookup_at(ce, seq![marker], 0);
        lemma_chain_unwalk_tail(marker, l, 0, ce.len() + 1);
        assert(l.skip(0) =~= l);
    }
}

/// Round trips make the encodings injective: equal flat forms mean equal
/// chains.
pub proof fn lemma_chain_injective(marker: Seq<char>, l1: Seq<Seq<char>>, l2: Seq<Seq<char>>)
    requires
        strings_distinct(l1),
        strings_distinct(l2),
        chain_entries(marker, l1) == chain_entries(marker, l2),
    ensures
        l1 == l2,
{
    lemma_chain_round_trip(marker, l1);
    lemma_chain_round_trip(marker, l2);
}


} // verus!
