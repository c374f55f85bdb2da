use vstd::prelude::*;
use crate::hero::{
    Armour, DeathsDoor, Incompatibilities, Mode, MoveSkill, Resistances, ResistancesOverride,
    Weapon,
};
use crate::map::{assoc_contains, assoc_distinct, assoc_lookup, assoc_key_index};
use crate::raw::{texts_of, token_texts, RawEntry, RawEntryModel, Token, TokenModel};
use crate::strnum::parse_i32_model;
use crate::strutil::{clone_string, str_eq};

verus! {

/// A fatal condition met while constructing a typed record from raw
/// entries: the source file is structurally malformed.
#[derive(Clone, Copy, Debug, PartialEq, Eq, Structural)]
pub enum LoadError {
    /// A required field is absent.
    MissingField,
    /// A field has the wrong number of values.
    WrongArity,
    /// A numeric field's value is not a decimal integer.
    NotANumber,
    /// A fraction field's value is not a percent-like number.
    NotAPercent,
    /// A field name occurs twice in one entry.
    DuplicateField,
    /// A key occurs twice where uniqueness is assumed.
    DuplicateKey,
    /// A fixed-arity bank has the wrong number of entries.
    WrongCount,
    /// An entry lacks its identifying key.
    MissingId,
    /// A field uses a name the flattened encoding reserves.
    ReservedField,
    /// A skill name holds an underscore, which the flattened `name_level`
    /// key could not carry.
    BadSkillName,
}

/// Reading a fraction field: present, with exactly one value when `exact`
/// (at least one otherwise), and that value must read as a percent-like
/// number.
pub open spec fn percent_field(e: RawEntryModel, key: Seq<char>, exact: bool) -> Result<
    u32,
    LoadError,
> {
    match assoc_lookup(e, key) {
        None => Err(LoadError::MissingField),
        Some(toks) => if (exact && toks.len() != 1) || toks.len() == 0 {
            Err(LoadError::WrongArity)
        } else {
            match toks[0].percent_bits {
                Some(b) => Ok(b),
                None => Err(LoadError::NotAPercent),
            }
        },
    }
}

/// Reads a fraction field of an entry.
pub fn read_percent_field(e: &RawEntry, key: &str, exact: bool) -> (r: Result<u32, LoadError>)
    ensures
        r == percent_field(e@, key@, exact),
{
    match e.get(key) {
        None => Err(LoadError::MissingField),
        Some(toks) => {
            if (exact && toks.len() != 1) || toks.len() == 0 {
                return Err(LoadError::WrongArity);
            }
            proof {
                assert(toks.deep_view()[0] == toks@[0]@);
            }
            match toks[0].percent_bits {
                Some(b) => Ok(b),
                None => Err(LoadError::NotAPercent),
            }
        },
    }
}

/// Reading an integer field: present, nonempty, first value a decimal.
pub open spec fn int_field(e: RawEntryModel, key: Seq<char>) -> Result<i32, LoadError> {
    match assoc_lookup(e, key) {
        None => Err(LoadError::MissingField),
        Some(toks) => if toks.len() == 0 {
            Err(LoadError::WrongArity)
        } else {
            match parse_i32_model(toks[0].text) {
                Some(v) => Ok(v),
                None => Err(LoadError::NotANumber),
            }
        },
    }
}

/// Reads an integer field of an entry.
pub fn read_int_field(e: &RawEntry, key: &str) -> (r: Result<i32, LoadError>)
    ensures
        r == int_field(e@, key@),
{
    match e.get(key) {
        None => Err(LoadError::MissingField),
        Some(toks) => {
            if toks.len() == 0 {
                return Err(LoadError::WrongArity);
            }
            proof {
                assert(toks.deep_view()[0] == toks@[0]@);
            }
            match crate::strnum::parse_i32(toks[0].text.as_str()) {
                Some(v) => Ok(v),
                None => Err(LoadError::NotANumber),
            }
        },
    }
}

/// Reading a two-integer field: present, with at least two decimal values.
pub open spec fn int_pair_field(e: RawEntryModel, key: Seq<char>) -> Result<
    (i32, i32),
    LoadError,
> {
    match assoc_lookup(e, key) {
        None => Err(LoadError::MissingField),
        Some(toks) => if toks.len() < 2 {
            Err(LoadError::WrongArity)
        } else {
            match parse_i32_model(toks[0].text) {
                None => Err(LoadError::NotANumber),
                Some(a) => match parse_i32_model(toks[1].text) {
                    None => Err(LoadError::NotANumber),
                    Some(b) => Ok((a, b)),
                },
            }
        },
    }
}

/// Reads a two-integer field of an entry.
pub fn read_int_pair_field(e: &RawEntry, key: &str) -> (r: Result<(i32, i32), LoadError>)
    ensures
        r == int_pair_field(e@, key@),
{
    match e.get(key) {
        None => Err(LoadError::MissingField),
        Some(toks) => {
            if toks.len() < 2 {
                return Err(LoadError::WrongArity);
            }
            proof {
                assert(toks.deep_view()[0] == toks@[0]@);
                assert(toks.deep_view()[1] == toks@[1]@);
            }
            match crate::strnum::parse_i32(toks[0].text.as_str()) {
                None => Err(LoadError::NotANumber),
                Some(a) => match crate::strnum::parse_i32(toks[1].text.as_str()) {
                    None => Err(LoadError::NotANumber),
                    Some(b) => Ok((a, b)),
                },
            }
        },
    }
}

/// Whether the strings of a list are distinct.
#[verifier::loop_isolation(false)]
pub fn texts_distinct(v: &Vec<String>) -> (r: bool)
    ensures
        r == crate::map::strings_distinct(v.deep_view()),
{
    let n = v.len();
    let mut i: usize = 0;
    while i < n
        invariant
            n == v@.len(),
            i <= n,
            forall|a: int, b: int| 0 <= a < b < n && b < i ==> v.deep_view()[a] != v.deep_view()[
                b],
        decreases n - i,
    {
        let mut j: usize = 0;
        while j < i
            invariant
                n == v@.len(),
                j <= i < n,
                forall|a: int| 0 <= a < j ==> v.deep_view()[a] != v.deep_view()[i as int],
            decreases i - j,
        {
            proof {
                assert(v.deep_view()[j as int] == v@[j as int]@);
                assert(v.deep_view()[i as int] == v@[i as int]@);
            }
            if str_eq(v[j].as_str(), v[i].as_str()) {
                return false;
            }
            j += 1;
        }
        i += 1;
    }
    true
}

/// Keeps a collected bank only when it is nonempty; an override record omits
/// a block entirely where its file gave nothing.
pub fn opt_vec<T>(v: Vec<T>) -> (r: Option<Vec<T>>)
    ensures
        match r {
            Some(w) => w == v && v@.len() > 0,
            None => v@.len() == 0,
        },
{
    if v.len() == 0 {
        None
    } else {
        Some(v)
    }
}

/// What constructing a resistance block reads: the eight resistances, each
/// exactly one percent-like value, and nothing else.
pub open spec fn res_from_entry_model(e: RawEntryModel) -> Result<Resistances, LoadError> {
    if !assoc_distinct(e) {
        Err(LoadError::DuplicateField)
    } else {
        match percent_field(e, "stun"@, true) {
            Err(er) => Err(er),
            Ok(stun) => match percent_field(e, "poison"@, true) {
                Err(er) => Err(er),
                Ok(poison) => match percent_field(e, "bleed"@, true) {
                    Err(er) => Err(er),
                    Ok(bleed) => match percent_field(e, "disease"@, true) {
                        Err(er) => Err(er),
                        Ok(disease) => match percent_field(e, "move"@, true) {
                            Err(er) => Err(er),
                            Ok(moving) => match percent_field(e, "debuff"@, true) {
                                Err(er) => Err(er),
                                Ok(debuff) => match percent_field(e, "death_blow"@, true) {
                                    Err(er) => Err(er),
                                    Ok(death_blow) => match percent_field(e, "trap"@, true) {
                                        Err(er) => Err(er),
                                        Ok(trap) => if e.len() != 8 {
                                            Err(LoadError::WrongArity)
                                        } else {
                                            Ok(
                                                Resistances {
                                                    stun,
                                                    poison,
                                                    bleed,
                                                    disease,
                                                    moving,
                                                    debuff,
                                                    death_blow,
                                                    trap,
                                                },
                                            )
                                        },
                                    },
                                },
                            },
                        },
                    },
                },
            },
        }
    }
}

impl Resistances {
    /// Constructs the block from one raw entry, exactly as
    /// `res_from_entry_model` says.
    pub fn from_entry(e: &RawEntry) -> (r: Result<Resistances, LoadError>)
        ensures
            r == res_from_entry_model(e@),
    {
        if !e.keys_distinct() {
            return Err(LoadError::DuplicateField);
        }
        let stun = match read_percent_field(e, "stun", true) {
            Ok(v) => v,
            Err(er) => {
                return Err(er);
            },
        };
        let poison = match read_percent_field(e, "poison", true) {
            Ok(v) => v,
            Err(er) => {
                return Err(er);
            },
        };
        let bleed = match read_percent_field(e, "bleed", true) {
            Ok(v) => v,
            Err(er) => {
                return Err(er);
            },
        };
        let disease = match read_percent_field(e, "disease", true) {
            Ok(v) => v,
            Err(er) => {
                return Err(er);
            },
        };
        let moving = match read_percent_field(e, "move", true) {
            Ok(v) => v,
            Err(er) => {
                return Err(er);
            },
        };
        let debuff = match read_percent_field(e, "debuff", true) {
            Ok(v) => v,
            Err(er) => {
                return Err(er);
            },
        };
        let death_blow = match read_percent_field(e, "death_blow", true) {
            Ok(v) => v,
            Err(er) => {
                return Err(er);
            },
        };
        let trap = match read_percent_field(e, "trap", true) {
            Ok(v) => v,
            Err(er) => {
                return Err(er);
            },
        };
        if e.len() != 8 {
            return Err(LoadError::WrongArity);
        }
        Ok(Resistances { stun, poison, bleed, disease, moving, debuff, death_blow, trap })
    }
}

/// An optional percent field of an override block: absent stays absent.
pub open spec fn opt_percent_field(e: RawEntryModel, key: Seq<char>) -> Result<
    Option<u32>,
    LoadError,
> {
    match assoc_lookup(e, key) {
        None => Ok(None),
        Some(toks) => if toks.len() != 1 {
            Err(LoadError::WrongArity)
        } else {
            match toks[0].percent_bits {
                Some(b) => Ok(Some(b)),
                None => Err(LoadError::NotAPercent),
            }
        },
    }
}

/// Reads an optional fraction field of an entry.
pub fn read_opt_percent_field(e: &RawEntry, key: &str) -> (r: Result<Option<u32>, LoadError>)
    ensures
        r == opt_percent_field(e@, key@),
{
    match e.get(key) {
        None => Ok(None),
        Some(toks) => {
            if toks.len() != 1 {
                return Err(LoadError::WrongArity);
            }
            proof {
                assert(toks.deep_view()[0] == toks@[0]@);
            }
            match toks[0].percent_bits {
                Some(b) => Ok(Some(b)),
                None => Err(LoadError::NotAPercent),
            }
        },
    }
}

/// What constructing an override resistance block reads: any subset of the
/// eight resistances, each exactly one percent-like value.
pub open spec fn res_override_from_entry_model(e: RawEntryModel) -> Result<
    ResistancesOverride,
    LoadError,
> {
    if !assoc_distinct(e) {
        Err(LoadError::DuplicateField)
    } else {
        match opt_percent_field(e, "stun"@) {
            Err(er) => Err(er),
            Ok(stun) => match opt_percent_field(e, "poison"@) {
                Err(er) => Err(er),
                Ok(poison) => match opt_percent_field(e, "bleed"@) {
                    Err(er) => Err(er),
                    Ok(bleed) => match opt_percent_field(e, "disease"@) {
                        Err(er) => Err(er),
                        Ok(disease) => match opt_percent_field(e, "move"@) {
                            Err(er) => Err(er),
                            Ok(moving) => match opt_percent_field(e, "debuff"@) {
                                Err(er) => Err(er),
                                Ok(debuff) => match opt_percent_field(e, "death_blow"@) {
                                    Err(er) => Err(er),
                                    Ok(death_blow) => match opt_percent_field(e, "trap"@) {
                                        Err(er) => Err(er),
                                        Ok(trap) => Ok(
                                            ResistancesOverride {
                                                stun,
                                                poison,
                                                bleed,
                                                disease,
                                                moving,
                                                debuff,
                                                death_blow,
                                                trap,
                                            },
                                        ),
                                    },
                                },
                            },
                        },
                    },
                },
            },
        }
    }
}

impl ResistancesOverride {
    /// Constructs the block from one raw entry, exactly as
    /// `res_override_from_entry_model` says.
    pub fn from_entry(e: &RawEntry) -> (r: Result<ResistancesOverride, LoadError>)
        ensures
            r == res_override_from_entry_model(e@),
    {
        if !e.keys_distinct() {
            return Err(LoadError::DuplicateField);
        }
        let stun = match read_opt_percent_field(e, "stun") {
            Ok(v) => v,
            Err(er) => {
                return Err(er);
            },
        };
        let poison = match read_opt_percent_field(e, "poison") {
            Ok(v) => v,
            Err(er) => {
                return Err(er);
            },
        };
        let bleed = match read_opt_percent_field(e, "bleed") {
            Ok(v) => v,
            Err(er) => {
                return Err(er);
            },
        };
        let disease = match read_opt_percent_field(e, "disease") {
            Ok(v) => v,
            Err(er) => {
                return Err(er);
            },
        };
        let moving = match read_opt_percent_field(e, "move") {
            Ok(v) => v,
            Err(er) => {
                return Err(er);
            },
        };
        let debuff = match read_opt_percent_field(e, "debuff") {
            Ok(v) => v,
            Err(er) => {
                return Err(er);
            },
        };
        let death_blow = match read_opt_percent_field(e, "death_blow") {
            Ok(v) => v,
            Err(er) => {
                return Err(er);
            },
        };
        let trap = match read_opt_percent_field(e, "trap") {
            Ok(v) => v,
            Err(er) => {
                return Err(er);
            },
        };
        Ok(ResistancesOverride { stun, poison, bleed, disease, moving, debuff, death_blow, trap })
    }
}

/// What constructing one weapon rank reads.
pub open spec fn weapon_from_entry_model(e: RawEntryModel) -> Result<Weapon, LoadError> {
    match percent_field(e, "atk"@, false) {
        Err(er) => Err(er),
        Ok(atk) => match int_pair_field(e, "dmg"@) {
            Err(er) => Err(er),
            Ok(dmg) => match percent_field(e, "crit"@, false) {
                Err(er) => Err(er),
                Ok(crit) => match int_field(e, "spd"@) {
                    Err(er) => Err(er),
                    Ok(spd) => Ok(
                        Weapon { atk, dmg_min: dmg.0, dmg_max: dmg.1, crit, spd },
                    ),
                },
            },
        },
    }
}

impl Weapon {
    /// Constructs one rank from one raw entry, exactly as
    /// `weapon_from_entry_model` says.
    pub fn from_entry(e: &RawEntry) -> (r: Result<Weapon, LoadError>)
        ensures
            r == weapon_from_entry_model(e@),
    {
        let atk = match read_percent_field(e, "atk", false) {
            Ok(v) => v,
            Err(er) => {
                return Err(er);
            },
        };
        let dmg = match read_int_pair_field(e, "dmg") {
            Ok(v) => v,
            Err(er) => {
                return Err(er);
            },
        };
        let crit = match read_percent_field(e, "crit", false) {
            Ok(v) => v,
            Err(er) => {
                return Err(er);
            },
        };
        let spd = match read_int_field(e, "spd") {
            Ok(v) => v,
            Err(er) => {
                return Err(er);
            },
        };
        Ok(Weapon { atk, dmg_min: dmg.0, dmg_max: dmg.1, crit, spd })
    }
}

/// What constructing one armour rank reads.
pub open spec fn armour_from_entry_model(e: RawEntryModel) -> Result<Armour, LoadError> {
    match percent_field(e, "def"@, false) {
        Err(er) => Err(er),
        Ok(def) => match percent_field(e, "prot"@, false) {
            Err(er) => Err(er),
            Ok(prot) => match int_field(e, "hp"@) {
                Err(er) => Err(er),
                Ok(hp) => match int_field(e, "spd"@) {
                    Err(er) => Err(er),
                    Ok(spd) => Ok(Armour { def, prot, hp, spd }),
                },
            },
        },
    }
}

impl Armour {
    /// Constructs one rank from one raw entry, exactly as
    /// `armour_from_entry_model` says.
    pub fn from_entry(e: &RawEntry) -> (r: Result<Armour, LoadError>)
        ensures
            r == armour_from_entry_model(e@),
    {
        let def = match read_percent_field(e, "def", false) {
            Ok(v) => v,
            Err(er) => {
                return Err(er);
            },
        };
        let prot = match read_percent_field(e, "prot", false) {
            Ok(v) => v,
            Err(er) => {
                return Err(er);
            },
        };
        let hp = match read_int_field(e, "hp") {
            Ok(v) => v,
            Err(er) => {
                return Err(er);
            },
        };
        let spd = match read_int_field(e, "spd") {
            Ok(v) => v,
            Err(er) => {
                return Err(er);
            },
        };
        Ok(Armour { def, prot, hp, spd })
    }
}

/// What constructing the move skill reads: the two positions of the `move`
/// field, backward first.
pub open spec fn move_from_entry_model(e: RawEntryModel) -> Result<MoveSkill, LoadError> {
    match int_pair_field(e, "move"@) {
        Err(er) => Err(er),
        Ok(mv) => Ok(MoveSkill { backward: mv.0, forward: mv.1 }),
    }
}

impl MoveSkill {
    /// Constructs the move skill from one raw entry, exactly as
    /// `move_from_entry_model` says.
    pub fn from_entry(e: &RawEntry) -> (r: Result<MoveSkill, LoadError>)
        ensures
            r == move_from_entry_model(e@),
    {
        match read_int_pair_field(e, "move") {
            Err(er) => Err(er),
            Ok(mv) => Ok(MoveSkill { backward: mv.0, forward: mv.1 }),
        }
    }
}

/// The texts of an optional list field; an absent field reads as empty.
pub open spec fn list_field(e: RawEntryModel, key: Seq<char>) -> Seq<Seq<char>> {
    match assoc_lookup(e, key) {
        None => Seq::empty(),
        Some(toks) => texts_of(toks),
    }
}

/// Reads an optional list field of an entry.
pub fn read_list_field(e: &RawEntry, key: &str) -> (r: Vec<String>)
    ensures
        r.deep_view() == list_field(e@, key@),
{
    match e.get(key) {
        None => {
            let empty: Vec<String> = Vec::new();
            proof {
                assert(empty.deep_view() =~= Seq::<Seq<char>>::empty());
            }
            empty
        },
        Some(toks) => token_texts(toks),
    }
}

/// What constructing the death's door block reads: its three optional buff
/// lists, whose members must be distinct (they flatten as sets).
pub open spec fn deaths_door_from_entry_model(e: RawEntryModel) -> Result<
    crate::hero::DeathsDoorModel,
    LoadError,
> {
    let d = crate::hero::DeathsDoorModel {
        buffs: list_field(e, "buffs"@),
        recovery_buffs: list_field(e, "recovery_buffs"@),
        recovery_heart_attack_buffs: list_field(e, "recovery_heart_attack_buffs"@),
    };
    if !crate::hero::deaths_door_wf(d) {
        Err(LoadError::DuplicateKey)
    } else {
        Ok(d)
    }
}

impl DeathsDoor {
    /// Constructs the block from one raw entry, exactly as
    /// `deaths_door_from_entry_model` says.
    pub fn from_entry(e: &RawEntry) -> (r: Result<DeathsDoor, LoadError>)
        ensures
            match (r, deaths_door_from_entry_model(e@)) {
                (Ok(d), Ok(m)) => d@ == m && crate::hero::deaths_door_wf(d@),
                (Err(e1), Err(e2)) => e1 == e2,
                _ => false,
            },
    {
        let buffs = read_list_field(e, "buffs");
        let recovery_buffs = read_list_field(e, "recovery_buffs");
        let recovery_heart_attack_buffs = read_list_field(e, "recovery_heart_attack_buffs");
        if !texts_distinct(&buffs) || !texts_distinct(&recovery_buffs) || !texts_distinct(
            &recovery_heart_attack_buffs,
        ) {
            return Err(LoadError::DuplicateKey);
        }
        Ok(DeathsDoor { buffs, recovery_buffs, recovery_heart_attack_buffs })
    }
}


/// The words joined with single spaces.
pub open spec fn join_spaces(ts: Seq<Seq<char>>) -> Seq<char>
    decreases ts.len(),
{
    if ts.len() == 0 {
        Seq::empty()
    } else if ts.len() == 1 {
        ts[0]
    } else {
        join_spaces(ts.drop_last()) + seq![' '] + ts.last()
    }
}

/// Joins strings with single spaces.
#[verifier::loop_isolation(false)]
pub fn join_with_spaces(v: &Vec<String>) -> (r: String)
    ensures
        r@ == join_spaces(v.deep_view()),
{
    let mut out = String::new();
    let mut i: usize = 0;
    let n = v.len();
    proof {
        assert(out@ =~= join_spaces(v.deep_view().take(0)));
    }
    while i < n
        invariant
            n == v@.len(),
            i <= n,
            out@ == join_spaces(v.deep_view().take(i as int)),
        decreases n - i,
    {
        proof {
            assert(v.deep_view()[i as int] == v@[i as int]@);
        }
        if i > 0 {
            proof {
                reveal_strlit(" ");
            }
            vstd::string::StringExecFns::append(&mut out, " ");
        }
        vstd::string::StringExecFns::append(&mut out, v[i].as_str());
        i += 1;
        proof {
            assert(v.deep_view().take(i as int).drop_last() =~= v.deep_view().take(i as int - 1));
            assert(v.deep_view().take(i as int).last() == v.deep_view()[i - 1]);
            if i == 1 {
                assert(out@ =~= join_spaces(v.deep_view().take(i as int)));
            } else {
                assert(" "@ =~= seq![' ']) by {
                    reveal_strlit(" ");
                }
                assert(out@ =~= join_spaces(v.deep_view().take(i as int)));
            }
        }
    }
    proof {
        assert(v.deep_view().take(n as int) =~= v.deep_view());
    }
    out
}

/// A copy of a token list whose model is unchanged.
#[verifier::loop_isolation(false)]
pub fn clone_tokens(v: &Vec<Token>) -> (r: Vec<Token>)
    ensures
        r.deep_view() == v.deep_view(),
{
    let mut r: Vec<Token> = Vec::new();
    let mut i: usize = 0;
    while i < v.len()
        invariant
            i <= v@.len(),
            r@.len() == i,
            r.deep_view() == v.deep_view().take(i as int),
        decreases v@.len() - i,
    {
        proof {
            assert(v.deep_view()[i as int] == v@[i as int]@);
        }
        r.push(v[i].dup());
        i += 1;
        proof {
            assert(r.deep_view() =~= v.deep_view().take(i as int));
        }
    }
    proof {
        assert(v.deep_view().take(v@.len() as int) =~= v.deep_view());
    }
    r
}

impl RawEntry {
    /// An explicit copy with a contract.
    #[verifier::loop_isolation(false)]
    pub fn dup(&self) -> (r: RawEntry)
        ensures
            r@ == self@,
    {
        let mut fields: Vec<(String, Vec<Token>)> = Vec::new();
        let mut i: usize = 0;
        while i < self.fields.len()
            invariant
                i <= self.fields@.len(),
                fields@.len() == i,
                fields.deep_view() == self@.take(i as int),
            decreases self.fields@.len() - i,
        {
            proof {
                assert(self@[i as int] == self.fields@[i as int].deep_view());
            }
            fields.push((clone_string(&self.fields[i].0), clone_tokens(&self.fields[i].1)));
            i += 1;
            proof {
                assert(fields.deep_view() =~= self@.take(i as int));
            }
        }
        proof {
            assert(self@.take(self.fields@.len() as int) =~= self@);
        }
        RawEntry { fields }
    }
}

/// The effect chain collected over the first `n` entries: each entry's
/// `effect` tokens in order.
pub open spec fn effects_upto(ems: Seq<RawEntryModel>, n: int) -> Seq<Seq<char>>
    decreases n,
{
    if n <= 0 {
        Seq::empty()
    } else {
        effects_upto(ems, n - 1) + list_field(ems[n - 1], "effect"@)
    }
}

/// The scalar fields folded over one entry's fields from the left: `effect`
/// tokens feed the chain instead, and the name `effects` is reserved by the
/// flattened encoding.
pub open spec fn skill_other_entry(
    acc: Seq<(Seq<char>, Seq<char>)>,
    em: RawEntryModel,
    j: int,
) -> Result<Seq<(Seq<char>, Seq<char>)>, LoadError>
    decreases j,
{
    if j <= 0 {
        Ok(acc)
    } else {
        match skill_other_entry(acc, em, j - 1) {
            Err(er) => Err(er),
            Ok(acc2) => if em[j - 1].0 == "effect"@ {
                Ok(acc2)
            } else if em[j - 1].0 == "effects"@ {
                Err(LoadError::ReservedField)
            } else {
                Ok(crate::map::assoc_put(acc2, em[j - 1].0, join_spaces(texts_of(em[j - 1].1))))
            },
        }
    }
}

/// The scalar fields folded over the first `n` entries.
pub open spec fn skill_other_upto(ems: Seq<RawEntryModel>, n: int) -> Result<
    Seq<(Seq<char>, Seq<char>)>,
    LoadError,
>
    decreases n,
{
    if n <= 0 {
        Ok(Seq::empty())
    } else {
        match skill_other_upto(ems, n - 1) {
            Err(er) => Err(er),
            Ok(acc) => skill_other_entry(acc, ems[n - 1], ems[n - 1].len() as int),
        }
    }
}

/// What constructing one skill from its entries reads: the effect chain from
/// the `effect` fields (members distinct, as the chain encoding needs), and
/// every other field joined to one scalar value, later entries replacing
/// earlier ones.
pub open spec fn skill_from_entries_model(ems: Seq<RawEntryModel>) -> Result<
    crate::hero::SkillModel,
    LoadError,
> {
    match skill_other_upto(ems, ems.len() as int) {
        Err(er) => Err(er),
        Ok(other) => {
            let effects = effects_upto(ems, ems.len() as int);
            if !crate::map::strings_distinct(effects) {
                Err(LoadError::DuplicateKey)
            } else {
                Ok(crate::hero::SkillModel { effects, other })
            }
        },
    }
}

/// A put keeps association keys distinct and adds no reserved name.
pub proof fn lemma_assoc_put_good(
    s: Seq<(Seq<char>, Seq<char>)>,
    k: Seq<char>,
    v: Seq<char>,
)
    requires
        assoc_distinct(s),
    ensures
        assoc_distinct(crate::map::assoc_put(s, k, v)),
        forall|i: int| 0 <= i < crate::map::assoc_put(s, k, v).len() ==> (
        #[trigger] crate::map::assoc_put(s, k, v)[i]).0 == k || exists|j: int|
            0 <= j < s.len() && crate::map::assoc_put(s, k, v)[i].0 == (#[trigger] s[j]).0,
{
    crate::map::lemma_assoc_key_index(s, k);
    match crate::map::assoc_key_index(s, k) {
        Some(i) => {
            let s2 = s.update(i, (k, v));
            assert forall|a: int, b: int| 0 <= a < b < s2.len() implies s2[a].0 != s2[b].0 by {
                if a != i && b != i {
                    assert(s2[a] == s[a] && s2[b] == s[b]);
                } else if a == i {
                    assert(s2[b] == s[b]);
                    assert(s[i].0 == k);
                } else {
                    assert(s2[a] == s[a]);
                    assert(s[i].0 == k);
                }
            }
            assert forall|t: int| 0 <= t < s2.len() implies (#[trigger] s2[t]).0 == k || exists|
                j: int,
            |
                0 <= j < s.len() && s2[t].0 == (#[trigger] s[j]).0 by {
                if t != i {
                    assert(s2[t].0 == s[t].0);
                }
            }
        },
        None => {
            let s2 = s.push((k, v));
            assert forall|a: int, b: int| 0 <= a < b < s2.len() implies s2[a].0 != s2[b].0 by {
                if b < s.len() {
                } else {
                    assert(s2[b].0 == k);
                    assert(s[a].0 != k);
                }
            }
            assert forall|t: int| 0 <= t < s2.len() implies (#[trigger] s2[t]).0 == k || exists|
                j: int,
            |
                0 <= j < s.len() && s2[t].0 == (#[trigger] s[j]).0 by {
                if t < s.len() {
                    assert(s2[t].0 == s[t].0);
                }
            }
        },
    }
}

/// The folded scalar fields keep distinct keys and never use the reserved
/// chain-marker name.
pub proof fn lemma_skill_other_entry_good(
    acc: Seq<(Seq<char>, Seq<char>)>,
    em: RawEntryModel,
    j: int,
)
    requires
        assoc_distinct(acc),
        forall|i: int| 0 <= i < acc.len() ==> (#[trigger] acc[i]).0 != "effects"@,
    ensures
        match skill_other_entry(acc, em, j) {
            Ok(acc2) => assoc_distinct(acc2) && forall|i: int|
                0 <= i < acc2.len() ==> (#[trigger] acc2[i]).0 != "effects"@,
            Err(_) => true,
        },
    decreases j,
{
    if j > 0 {
        lemma_skill_other_entry_good(acc, em, j - 1);
        match skill_other_entry(acc, em, j - 1) {
            Err(_) => {},
            Ok(acc2) => {
                if em[j - 1].0 == "effect"@ || em[j - 1].0 == "effects"@ {
                } else {
                    lemma_assoc_put_good(acc2, em[j - 1].0, join_spaces(texts_of(em[j - 1].1)));
                    let acc3 = crate::map::assoc_put(
                        acc2,
                        em[j - 1].0,
                        join_spaces(texts_of(em[j - 1].1)),
                    );
                    assert forall|i: int| 0 <= i < acc3.len() implies (#[trigger] acc3[i]).0
                        != "effects"@ by {
                        if acc3[i].0 == em[j - 1].0 {
                        } else {
                            let jj = choose|jj: int|
                                0 <= jj < acc2.len() && acc3[i].0 == (#[trigger] acc2[jj]).0;
                        }
                    }
                }
            },
        }
    }
}

/// An error in an entry's fold persists through the rest of the entry.
pub proof fn lemma_skill_other_entry_err(
    acc: Seq<(Seq<char>, Seq<char>)>,
    em: RawEntryModel,
    j: int,
    j2: int,
    er: LoadError,
)
    requires
        0 <= j <= j2,
        skill_other_entry(acc, em, j) == Err::<Seq<(Seq<char>, Seq<char>)>, LoadError>(er),
    ensures
        skill_other_entry(acc, em, j2) == Err::<Seq<(Seq<char>, Seq<char>)>, LoadError>(er),
    decreases j2 - j,
{
    if j < j2 {
        lemma_skill_other_entry_err(acc, em, j + 1, j2, er);
    }
}

/// An error in the fold persists through the remaining entries.
pub proof fn lemma_skill_other_upto_err(ems: Seq<RawEntryModel>, i: int, i2: int, er: LoadError)
    requires
        0 <= i <= i2,
        skill_other_upto(ems, i) == Err::<Seq<(Seq<char>, Seq<char>)>, LoadError>(er),
    ensures
        skill_other_upto(ems, i2) == Err::<Seq<(Seq<char>, Seq<char>)>, LoadError>(er),
    decreases i2 - i,
{
    if i < i2 {
        lemma_skill_other_upto_err(ems, i + 1, i2, er);
    }
}

pub proof fn lemma_skill_other_upto_good(ems: Seq<RawEntryModel>, n: int)
    ensures
        match skill_other_upto(ems, n) {
            Ok(acc) => assoc_distinct(acc) && forall|i: int|
                0 <= i < acc.len() ==> (#[trigger] acc[i]).0 != "effects"@,
            Err(_) => true,
        },
    decreases n,
{
    if n > 0 {
        lemma_skill_other_upto_good(ems, n - 1);
        match skill_other_upto(ems, n - 1) {
            Err(_) => {},
            Ok(acc) => {
                lemma_skill_other_entry_good(acc, ems[n - 1], ems[n - 1].len() as int);
            },
        }
    }
}

impl crate::hero::Skill {
    /// Constructs one skill from the raw entries that share its key, exactly
    /// as `skill_from_entries_model` says; a constructed skill satisfies its
    /// invariant.
    #[verifier::loop_isolation(false)]
    pub fn from_entries(input: &Vec<RawEntry>) -> (r: Result<crate::hero::Skill, LoadError>)
        ensures
            match (r, skill_from_entries_model(input.deep_view())) {
                (Ok(sk), Ok(m)) => sk@ == m && crate::hero::skill_wf(sk@),
                (Err(e1), Err(e2)) => e1 == e2,
                _ => false,
            },
    {
        let ghost ems = input.deep_view();
        let mut effects: Vec<String> = Vec::new();
        let mut other: Vec<(String, String)> = Vec::new();
        let mut i: usize = 0;
        let n = input.len();
        proof {
            assert(effects.deep_view() =~= effects_upto(ems, 0));
            assert(other.deep_view() =~= skill_other_upto(ems, 0).unwrap());
            lemma_skill_other_upto_good(ems, 0);
        }
        while i < n
            invariant
                n == ems.len(),
                ems == input.deep_view(),
                i <= n,
                effects.deep_view() == effects_upto(ems, i as int),
                skill_other_upto(ems, i as int) == Ok::<Seq<(Seq<char>, Seq<char>)>, LoadError>(
                    other.deep_view(),
                ),
            decreases n - i,
        {
            proof {
                assert(input@[i as int].deep_view() == ems[i as int]);
            }
            let mut eff = read_list_field(&input[i], "effect");
            effects.append(&mut eff);
            proof {
                assert(effects.deep_view() =~= effects_upto(ems, i as int + 1));
            }
            // fold this entry's scalar fields
            let fn_count = input[i].len();
            let mut j: usize = 0;
            while j < fn_count
                invariant
                    n == ems.len(),
                    ems == input.deep_view(),
                    i < n,
                    fn_count == ems[i as int].len(),
                    input@[i as int].deep_view() == ems[i as int],
                    j <= fn_count,
                    skill_other_entry(
                        skill_other_upto(ems, i as int).unwrap(),
                        ems[i as int],
                        j as int,
                    ) == Ok::<Seq<(Seq<char>, Seq<char>)>, LoadError>(other.deep_view()),
                    skill_other_upto(ems, i as int) is Ok,
                decreases fn_count - j,
            {
                proof {
                    assert(ems[i as int][j as int] == input@[i as int].fields@[
                        j as int].deep_view());
                    assert(ems[i as int][j as int].0 == input@[i as int].fields@[j as int].0@);
                    assert(ems[i as int][j as int].1 == input@[i as int].fields@[
                        j as int].1.deep_view());
                }
                let f = input[i].field_at(j);
                if crate::strutil::seg_is(&f.0, "effect") {
                    j += 1;
                    continue ;
                }
                if crate::strutil::seg_is(&f.0, "effects") {
                    proof {
                        let base = skill_other_upto(ems, i as int).unwrap();
                        assert(skill_other_entry(base, ems[i as int], j as int + 1) == Err::<
                            Seq<(Seq<char>, Seq<char>)>,
                            LoadError,
                        >(LoadError::ReservedField));
                        lemma_skill_other_entry_err(
                            base,
                            ems[i as int],
                            j as int + 1,
                            ems[i as int].len() as int,
                            LoadError::ReservedField,
                        );
                        assert(skill_other_upto(ems, i as int + 1) == Err::<
                            Seq<(Seq<char>, Seq<char>)>,
                            LoadError,
                        >(LoadError::ReservedField));
                        lemma_skill_other_upto_err(
                            ems,
                            i as int + 1,
                            n as int,
                            LoadError::ReservedField,
                        );
                    }
                    return Err(LoadError::ReservedField);
                }
                let joined = join_with_spaces(&token_texts(&f.1));
                crate::hero_apply::skill_other_put(&mut other, &f.0, joined);
                j += 1;
            }
            i += 1;
        }
        proof {
            lemma_skill_other_upto_good(ems, n as int);
        }
        if !texts_distinct(&effects) {
            return Err(LoadError::DuplicateKey);
        }
        Ok(crate::hero::Skill { effects, other })
    }
}


/// The weapon bank folded from the first `n` entries.
pub open spec fn weapons_from_upto(ems: Seq<RawEntryModel>, n: int) -> Result<
    Seq<Weapon>,
    LoadError,
>
    decreases n,
{
    if n <= 0 {
        Ok(Seq::empty())
    } else {
        match weapons_from_upto(ems, n - 1) {
            Err(er) => Err(er),
            Ok(acc) => match weapon_from_entry_model(ems[n - 1]) {
                Err(er) => Err(er),
                Ok(w) => Ok(acc.push(w)),
            },
        }
    }
}

/// What constructing the weapon bank reads: each entry one rank, and there
/// must be exactly five.
pub open spec fn weapons_from_entries_model(ems: Seq<RawEntryModel>) -> Result<
    Seq<Weapon>,
    LoadError,
> {
    match weapons_from_upto(ems, ems.len() as int) {
        Err(er) => Err(er),
        Ok(ws) => if ws.len() != 5 {
            Err(LoadError::WrongCount)
        } else {
            Ok(ws)
        },
    }
}

proof fn lemma_weapons_from_err(ems: Seq<RawEntryModel>, i: int, i2: int, er: LoadError)
    requires
        0 <= i <= i2,
        weapons_from_upto(ems, i) == Err::<Seq<Weapon>, LoadError>(er),
    ensures
        weapons_from_upto(ems, i2) == Err::<Seq<Weapon>, LoadError>(er),
    decreases i2 - i,
{
    if i < i2 {
        lemma_weapons_from_err(ems, i + 1, i2, er);
    }
}

impl crate::hero::Weapons {
    /// Constructs the bank, exactly as `weapons_from_entries_model` says; a
    /// constructed bank holds five ranks.
    #[verifier::loop_isolation(false)]
    pub fn from_entries(input: &Vec<RawEntry>) -> (r: Result<crate::hero::Weapons, LoadError>)
        ensures
            match (r, weapons_from_entries_model(input.deep_view())) {
                (Ok(w), Ok(m)) => w.0@ == m && w.wf(),
                (Err(e1), Err(e2)) => e1 == e2,
                _ => false,
            },
    {
        let ghost ems = input.deep_view();
        let mut ws: Vec<Weapon> = Vec::new();
        let mut i: usize = 0;
        let n = input.len();
        proof {
            assert(ws@ =~= weapons_from_upto(ems, 0).unwrap());
        }
        while i < n
            invariant
                n == ems.len(),
                ems == input.deep_view(),
                i <= n,
                weapons_from_upto(ems, i as int) == Ok::<Seq<Weapon>, LoadError>(ws@),
            decreases n - i,
        {
            proof {
                assert(input@[i as int].deep_view() == ems[i as int]);
            }
            match Weapon::from_entry(&input[i]) {
                Ok(w) => {
                    ws.push(w);
                },
                Err(er) => {
                    proof {
                        lemma_weapons_from_err(ems, i as int + 1, n as int, er);
                    }
                    return Err(er);
                },
            }
            i += 1;
        }
        if ws.len() != 5 {
            return Err(LoadError::WrongCount);
        }
        Ok(crate::hero::Weapons(ws))
    }
}

/// The armour bank folded from the first `n` entries.
pub open spec fn armours_from_upto(ems: Seq<RawEntryModel>, n: int) -> Result<
    Seq<Armour>,
    LoadError,
>
    decreases n,
{
    if n <= 0 {
        Ok(Seq::empty())
    } else {
        match armours_from_upto(ems, n - 1) {
            Err(er) => Err(er),
            Ok(acc) => match armour_from_entry_model(ems[n - 1]) {
                Err(er) => Err(er),
                Ok(a) => Ok(acc.push(a)),
            },
        }
    }
}

/// What constructing the armour bank reads: exactly five ranks.
pub open spec fn armours_from_entries_model(ems: Seq<RawEntryModel>) -> Result<
    Seq<Armour>,
    LoadError,
> {
    match armours_from_upto(ems, ems.len() as int) {
        Err(er) => Err(er),
        Ok(a) => if a.len() != 5 {
            Err(LoadError::WrongCount)
        } else {
            Ok(a)
        },
    }
}

proof fn lemma_armours_from_err(ems: Seq<RawEntryModel>, i: int, i2: int, er: LoadError)
    requires
        0 <= i <= i2,
        armours_from_upto(ems, i) == Err::<Seq<Armour>, LoadError>(er),
    ensures
        armours_from_upto(ems, i2) == Err::<Seq<Armour>, LoadError>(er),
    decreases i2 - i,
{
    if i < i2 {
        lemma_armours_from_err(ems, i + 1, i2, er);
    }
}

impl crate::hero::Armours {
    /// Constructs the bank, exactly as `armours_from_entries_model` says; a
    /// constructed bank holds five ranks.
    #[verifier::loop_isolation(false)]
    pub fn from_entries(input: &Vec<RawEntry>) -> (r: Result<crate::hero::Armours, LoadError>)
        ensures
            match (r, armours_from_entries_model(input.deep_view())) {
                (Ok(a), Ok(m)) => a.0@ == m && a.wf(),
                (Err(e1), Err(e2)) => e1 == e2,
                _ => false,
            },
    {
        let ghost ems = input.deep_view();
        let mut ar: Vec<Armour> = Vec::new();
        let mut i: usize = 0;
        let n = input.len();
        proof {
            assert(ar@ =~= armours_from_upto(ems, 0).unwrap());
        }
        while i < n
            invariant
                n == ems.len(),
                ems == input.deep_view(),
                i <= n,
                armours_from_upto(ems, i as int) == Ok::<Seq<Armour>, LoadError>(ar@),
            decreases n - i,
        {
            proof {
                assert(input@[i as int].deep_view() == ems[i as int]);
            }
            match Armour::from_entry(&input[i]) {
                Ok(a) => {
                    ar.push(a);
                },
                Err(er) => {
                    proof {
                        lemma_armours_from_err(ems, i as int + 1, n as int, er);
                    }
                    return Err(er);
                },
            }
            i += 1;
        }
        if ar.len() != 5 {
            return Err(LoadError::WrongCount);
        }
        Ok(crate::hero::Armours(ar))
    }
}

/// One mode's collections folded over its fields: every field but `id`
/// becomes a named string collection with distinct members.
pub open spec fn mode_fields_upto(em: RawEntryModel, j: int) -> Result<
    crate::hero::ModeModel,
    LoadError,
>
    decreases j,
{
    if j <= 0 {
        Ok(Seq::empty())
    } else {
        match mode_fields_upto(em, j - 1) {
            Err(er) => Err(er),
            Ok(acc) => if em[j - 1].0 == "id"@ {
                Ok(acc)
            } else if !crate::map::strings_distinct(texts_of(em[j - 1].1)) {
                Err(LoadError::DuplicateKey)
            } else {
                Ok(acc.push((em[j - 1].0, texts_of(em[j - 1].1))))
            },
        }
    }
}

/// What constructing one mode reads: its id (first value of the `id` field)
/// and its named collections.
pub open spec fn mode_from_entry_model(em: RawEntryModel) -> Result<
    (Seq<char>, crate::hero::ModeModel),
    LoadError,
> {
    if !assoc_distinct(em) {
        Err(LoadError::DuplicateField)
    } else {
        match assoc_lookup(em, "id"@) {
            None => Err(LoadError::MissingId),
            Some(toks) => if toks.len() == 0 {
                Err(LoadError::WrongArity)
            } else {
                match mode_fields_upto(em, em.len() as int) {
                    Err(er) => Err(er),
                    Ok(m) => Ok((toks[0].text, m)),
                }
            },
        }
    }
}

/// The folded mode keeps distinct collection names and satisfies the mode
/// invariant.
proof fn lemma_mode_fields_good(em: RawEntryModel, j: int)
    requires
        assoc_distinct(em),
        0 <= j <= em.len(),
    ensures
        match mode_fields_upto(em, j) {
            Ok(acc) => crate::hero::mode_wf(acc) && forall|a: int|
                0 <= a < acc.len() ==> exists|jj: int|
                    0 <= jj < j && (#[trigger] acc[a]).0 == em[jj].0,
            Err(_) => true,
        },
    decreases j,
{
    if j > 0 {
        lemma_mode_fields_good(em, j - 1);
        match mode_fields_upto(em, j - 1) {
            Err(_) => {},
            Ok(acc) => {
                if em[j - 1].0 == "id"@ || !crate::map::strings_distinct(
                    texts_of(em[j - 1].1),
                ) {
                } else {
                    let acc2 = acc.push((em[j - 1].0, texts_of(em[j - 1].1)));
                    assert forall|a: int, b: int| 0 <= a < b < acc2.len() implies acc2[a].0
                        != acc2[b].0 by {
                        if b < acc.len() {
                            assert(acc2[a] == acc[a] && acc2[b] == acc[b]);
                        } else {
                            assert(acc2[a] == acc[a]);
                            let jj = choose|jj: int|
                                0 <= jj < j - 1 && (#[trigger] acc[a]).0 == em[jj].0;
                            assert(em[jj].0 != em[j - 1].0);
                        }
                    }
                    assert forall|a: int| 0 <= a < acc2.len() implies exists|jj: int|
                        0 <= jj < j && (#[trigger] acc2[a]).0 == em[jj].0 by {
                        if a < acc.len() {
                            let jj = choose|jj: int|
                                0 <= jj < j - 1 && (#[trigger] acc[a]).0 == em[jj].0;
                            assert(acc2[a].0 == em[jj].0);
                        } else {
                            assert(acc2[a].0 == em[j - 1].0);
                        }
                    }
                }
            },
        }
    }
}

impl Mode {
    /// Constructs one mode and its id from a raw entry, exactly as
    /// `mode_from_entry_model` says; a constructed mode satisfies its
    /// invariant.
    #[verifier::loop_isolation(false)]
    pub fn from_entry(e: &RawEntry) -> (r: Result<(String, Mode), LoadError>)
        ensures
            match (r, mode_from_entry_model(e@)) {
                (Ok((id, m)), Ok((idm, mm))) => id@ == idm && m@ == mm && crate::hero::mode_wf(
                    m@,
                ),
                (Err(e1), Err(e2)) => e1 == e2,
                _ => false,
            },
    {
        let ghost em = e@;
        if !e.keys_distinct() {
            return Err(LoadError::DuplicateField);
        }
        let id: String = match e.get("id") {
            None => {
                return Err(LoadError::MissingId);
            },
            Some(toks) => {
                if toks.len() == 0 {
                    return Err(LoadError::WrongArity);
                }
                proof {
                    assert(toks.deep_view()[0] == toks@[0]@);
                }
                clone_string(&toks[0].text)
            },
        };
        let mut m: Vec<(String, Vec<String>)> = Vec::new();
        let mut j: usize = 0;
        let n = e.len();
        proof {
            assert(m.deep_view() =~= mode_fields_upto(em, 0).unwrap());
        }
        while j < n
            invariant
                n == em.len(),
                em == e@,
                j <= n,
                mode_fields_upto(em, j as int) == Ok::<crate::hero::ModeModel, LoadError>(
                    m.deep_view(),
                ),
            decreases n - j,
        {
            proof {
                assert(em[j as int] == e.fields@[j as int].deep_view());
                assert(em[j as int].0 == e.fields@[j as int].0@);
                assert(em[j as int].1 == e.fields@[j as int].1.deep_view());
            }
            let f = e.field_at(j);
            if crate::strutil::seg_is(&f.0, "id") {
                j += 1;
                continue ;
            }
            let texts = token_texts(&f.1);
            if !texts_distinct(&texts) {
                proof {
                    lemma_mode_fields_err(em, j as int + 1, n as int, LoadError::DuplicateKey);
                }
                return Err(LoadError::DuplicateKey);
            }
            let ghost before = m.deep_view();
            m.push((clone_string(&f.0), texts));
            j += 1;
            proof {
                assert(m.deep_view() =~= before.push((em[j - 1].0, texts_of(em[j - 1].1))));
            }
        }
        proof {
            lemma_mode_fields_good(em, n as int);
        }
        Ok((id, Mode(m)))
    }
}

proof fn lemma_mode_fields_err(em: RawEntryModel, j: int, j2: int, er: LoadError)
    requires
        0 <= j <= j2,
        mode_fields_upto(em, j) == Err::<crate::hero::ModeModel, LoadError>(er),
    ensures
        mode_fields_upto(em, j2) == Err::<crate::hero::ModeModel, LoadError>(er),
    decreases j2 - j,
{
    if j < j2 {
        lemma_mode_fields_err(em, j + 1, j2, er);
    }
}

/// The mode bank folded from the first `n` entries; a repeated mode id
/// replaces the earlier mode.
pub open spec fn modes_from_upto(ems: Seq<RawEntryModel>, n: int) -> Result<
    crate::hero::ModesModel,
    LoadError,
>
    decreases n,
{
    if n <= 0 {
        Ok(Seq::empty())
    } else {
        match modes_from_upto(ems, n - 1) {
            Err(er) => Err(er),
            Ok(acc) => match mode_from_entry_model(ems[n - 1]) {
                Err(er) => Err(er),
                Ok((id, m)) => Ok(crate::map::assoc_put(acc, id, m)),
            },
        }
    }
}

pub open spec fn modes_from_entries_model(ems: Seq<RawEntryModel>) -> Result<
    crate::hero::ModesModel,
    LoadError,
> {
    modes_from_upto(ems, ems.len() as int)
}

proof fn lemma_modes_from_err(ems: Seq<RawEntryModel>, i: int, i2: int, er: LoadError)
    requires
        0 <= i <= i2,
        modes_from_upto(ems, i) == Err::<crate::hero::ModesModel, LoadError>(er),
    ensures
        modes_from_upto(ems, i2) == Err::<crate::hero::ModesModel, LoadError>(er),
    decreases i2 - i,
{
    if i < i2 {
        lemma_modes_from_err(ems, i + 1, i2, er);
    }
}

impl crate::hero::Modes {
    /// Constructs the bank, exactly as `modes_from_entries_model` says; a
    /// constructed bank satisfies its invariant.
    #[verifier::loop_isolation(false)]
    pub fn from_entries(input: &Vec<RawEntry>) -> (r: Result<crate::hero::Modes, LoadError>)
        ensures
            match (r, modes_from_entries_model(input.deep_view())) {
                (Ok(ms), Ok(m)) => ms@ == m && crate::hero::modes_wf(ms@),
                (Err(e1), Err(e2)) => e1 == e2,
                _ => false,
            },
    {
        let ghost ems = input.deep_view();
        let mut ms: Vec<(String, Mode)> = Vec::new();
        let mut i: usize = 0;
        let n = input.len();
        proof {
            assert(ms.deep_view() =~= modes_from_upto(ems, 0).unwrap());
        }
        while i < n
            invariant
                n == ems.len(),
                ems == input.deep_view(),
                i <= n,
                modes_from_upto(ems, i as int) == Ok::<crate::hero::ModesModel, LoadError>(
                    ms.deep_view(),
                ),
                crate::hero::modes_wf(ms.deep_view()),
            decreases n - i,
        {
            proof {
                assert(input@[i as int].deep_view() == ems[i as int]);
            }
            match Mode::from_entry(&input[i]) {
                Err(er) => {
                    proof {
                        lemma_modes_from_err(ems, i as int + 1, n as int, er);
                    }
                    return Err(er);
                },
                Ok((id, md)) => {
                    let ghost before = ms.deep_view();
                    let ghost newm = md@;
                    proof {
                        crate::map::lemma_assoc_key_index(before, id@);
                        crate::map::lemma_assoc_put_distinct(before, id@, newm);
                    }
                    // put: replace the mode under this id, or append
                    let mut t: usize = 0;
                    let tn = ms.len();
                    let mut found = false;
                    while t < tn
                        invariant
                            tn == before.len(),
                            before == ms.deep_view(),
                            t <= tn,
                            !found ==> forall|u: int| 0 <= u < t ==> (#[trigger] before[u]).0
                                != id@,
                            found ==> t < tn && before[t as int].0 == id@,
                        decreases tn - t + if found {
                            0int
                        } else {
                            1int
                        },
                    {
                        if found {
                            break ;
                        }
                        proof {
                            assert(before[t as int] == ms@[t as int].deep_view());
                        }
                        if str_eq(ms[t].0.as_str(), id.as_str()) {
                            found = true;
                        } else {
                            t += 1;
                        }
                    }
                    if found {
                        let kc = clone_string(&ms[t].0);
                        ms.set(t, (kc, md));
                        proof {
                            match crate::map::assoc_key_index(before, id@) {
                                Some(fi) => {
                                    assert(fi == t);
                                },
                                None => {
                                    assert(before[t as int].0 != id@);
                                },
                            }
                            assert(ms.deep_view() =~= before.update(t as int, (id@, newm)));
                        }
                    } else {
                        ms.push((id, md));
                        proof {
                            match crate::map::assoc_key_index(before, id@) {
                                Some(fi) => {
                                    assert(before[fi].0 != id@);
                                },
                                None => {},
                            }
                            assert(ms.deep_view() =~= before.push((id@, newm)));
                        }
                    }
                    proof {
                        assert forall|g: int| 0 <= g < ms.deep_view().len() implies
                            crate::hero::mode_wf((#[trigger] ms.deep_view()[g]).1) by {
                            if found && g == t {
                            } else if !found && g == before.len() {
                            } else {
                                assert(ms.deep_view()[g] == before[g]);
                            }
                        }
                    }
                },
            }
            i += 1;
        }
        Ok(crate::hero::Modes(ms))
    }
}

/// The incompatibility table folded from the first `n` entries: each entry
/// appends its tag to its id's list, tags distinct per id.
pub open spec fn incompat_from_upto(ems: Seq<RawEntryModel>, n: int) -> Result<
    crate::hero::IncompatibilitiesModel,
    LoadError,
>
    decreases n,
{
    if n <= 0 {
        Ok(Seq::empty())
    } else {
        match incompat_from_upto(ems, n - 1) {
            Err(er) => Err(er),
            Ok(acc) => match assoc_lookup(ems[n - 1], "id"@) {
                None => Err(LoadError::MissingId),
                Some(idt) => if idt.len() == 0 {
                    Err(LoadError::WrongArity)
                } else {
                    match assoc_lookup(ems[n - 1], "hero_tag"@) {
                        None => Err(LoadError::MissingField),
                        Some(tagt) => if tagt.len() == 0 {
                            Err(LoadError::WrongArity)
                        } else {
                            let id = idt[0].text;
                            let tag = tagt[0].text;
                            match crate::map::assoc_key_index(acc, id) {
                                Some(i) => if acc[i].1.contains(tag) {
                                    Err(LoadError::DuplicateKey)
                                } else {
                                    Ok(acc.update(i, (id, acc[i].1.push(tag))))
                                },
                                None => Ok(acc.push((id, seq![tag]))),
                            }
                        },
                    }
                },
            },
        }
    }
}

pub open spec fn incompat_from_entries_model(ems: Seq<RawEntryModel>) -> Result<
    crate::hero::IncompatibilitiesModel,
    LoadError,
> {
    incompat_from_upto(ems, ems.len() as int)
}

proof fn lemma_incompat_from_err(ems: Seq<RawEntryModel>, i: int, i2: int, er: LoadError)
    requires
        0 <= i <= i2,
        incompat_from_upto(ems, i) == Err::<crate::hero::IncompatibilitiesModel, LoadError>(er),
    ensures
        incompat_from_upto(ems, i2) == Err::<crate::hero::IncompatibilitiesModel, LoadError>(er),
    decreases i2 - i,
{
    if i < i2 {
        lemma_incompat_from_err(ems, i + 1, i2, er);
    }
}

impl Incompatibilities {
    /// Constructs the table, exactly as `incompat_from_entries_model` says;
    /// a constructed table satisfies its invariant.
    #[verifier::loop_isolation(false)]
    pub fn from_entries(input: &Vec<RawEntry>) -> (r: Result<Incompatibilities, LoadError>)
        ensures
            match (r, incompat_from_entries_model(input.deep_view())) {
                (Ok(t), Ok(m)) => t@ == m && crate::hero::incompatibilities_wf(t@),
                (Err(e1), Err(e2)) => e1 == e2,
                _ => false,
            },
    {
        let ghost ems = input.deep_view();
        let mut acc: Vec<(String, Vec<String>)> = Vec::new();
        let mut i: usize = 0;
        let n = input.len();
        proof {
            assert(acc.deep_view() =~= incompat_from_upto(ems, 0).unwrap());
        }
        while i < n
            invariant
                n == ems.len(),
                ems == input.deep_view(),
                i <= n,
                incompat_from_upto(ems, i as int) == Ok::<
                    crate::hero::IncompatibilitiesModel,
                    LoadError,
                >(acc.deep_view()),
                crate::hero::incompatibilities_wf(acc.deep_view()),
            decreases n - i,
        {
            proof {
                assert(input@[i as int].deep_view() == ems[i as int]);
            }
            let e = &input[i];
            let id: String = match e.get("id") {
                None => {
                    proof {
                        lemma_incompat_from_err(ems, i as int + 1, n as int, LoadError::MissingId);
                    }
                    return Err(LoadError::MissingId);
                },
                Some(toks) => {
                    if toks.len() == 0 {
                        proof {
                            lemma_incompat_from_err(
                                ems,
                                i as int + 1,
                                n as int,
                                LoadError::WrongArity,
                            );
                        }
                        return Err(LoadError::WrongArity);
                    }
                    proof {
                        assert(toks.deep_view()[0] == toks@[0]@);
                    }
                    clone_string(&toks[0].text)
                },
            };
            let tag: String = match e.get("hero_tag") {
                None => {
                    proof {
                        lemma_incompat_from_err(
                            ems,
                            i as int + 1,
                            n as int,
                            LoadError::MissingField,
                        );
                    }
                    return Err(LoadError::MissingField);
                },
                Some(toks) => {
                    if toks.len() == 0 {
                        proof {
                            lemma_incompat_from_err(
                                ems,
                                i as int + 1,
                                n as int,
                                LoadError::WrongArity,
                            );
                        }
                        return Err(LoadError::WrongArity);
                    }
                    proof {
                        assert(toks.deep_view()[0] == toks@[0]@);
                    }
                    clone_string(&toks[0].text)
                },
            };
            let ghost before = acc.deep_view();
            proof {
                crate::map::lemma_assoc_key_index(before, id@);
            }
            let mut t: usize = 0;
            let tn = acc.len();
            let mut found = false;
            while t < tn
                invariant
                    tn == before.len(),
                    before == acc.deep_view(),
                    t <= tn,
                    !found ==> forall|u: int| 0 <= u < t ==> (#[trigger] before[u]).0 != id@,
                    found ==> t < tn && before[t as int].0 == id@,
                decreases tn - t + if found {
                    0int
                } else {
                    1int
                },
            {
                if found {
                    break ;
                }
                proof {
                    assert(before[t as int] == acc@[t as int].deep_view());
                }
                if str_eq(acc[t].0.as_str(), id.as_str()) {
                    found = true;
                } else {
                    t += 1;
                }
            }
            if found {
                proof {
                    match crate::map::assoc_key_index(before, id@) {
                        Some(fi) => {
                            assert(fi == t);
                        },
                        None => {
                            assert(before[t as int].0 != id@);
                        },
                    }
                }
                // the tag must be new for this id
                let mut lst = crate::strutil::clone_path(&acc[t].1);
                let mut u: usize = 0;
                let ln = lst.len();
                while u < ln
                    invariant
                        ln == before[t as int].1.len(),
                        lst.deep_view() == before[t as int].1,
                        u <= ln,
                        forall|w: int| 0 <= w < u ==> before[t as int].1[w] != tag@,
                    decreases ln - u,
                {
                    proof {
                        assert(before[t as int].1[u as int] == lst@[u as int]@);
                    }
                    if str_eq(lst[u].as_str(), tag.as_str()) {
                        proof {
                            assert(before[t as int].1.contains(tag@));
                            lemma_incompat_from_err(
                                ems,
                                i as int + 1,
                                n as int,
                                LoadError::DuplicateKey,
                            );
                        }
                        return Err(LoadError::DuplicateKey);
                    }
                    u += 1;
                }
                proof {
                    if before[t as int].1.contains(tag@) {
                        let w = choose|w: int|
                            0 <= w < before[t as int].1.len() && before[t as int].1[w] == tag@;
                        assert(false);
                    }
                }
                lst.push(tag);
                proof {
                    assert(lst.deep_view() =~= before[t as int].1.push(tag@));
                }
                let kc = clone_string(&acc[t].0);
                proof {
                    assert(acc@[t as int].deep_view() == before[t as int]);
                    assert(kc@ == id@);
                }
                acc.set(t, (kc, lst));
                proof {
                    assert(acc.deep_view() =~= before.update(
                        t as int,
                        (id@, before[t as int].1.push(tag@)),
                    ));
                    assert forall|a: int, b: int|
                        0 <= a < b < acc.deep_view().len() implies acc.deep_view()[a].0
                        != acc.deep_view()[b].0 by {
                        if a != t && b != t {
                            assert(acc.deep_view()[a] == before[a]);
                            assert(acc.deep_view()[b] == before[b]);
                        } else if a == t {
                            assert(acc.deep_view()[b] == before[b]);
                            assert(before[t as int].0 == id@);
                        } else {
                            assert(acc.deep_view()[a] == before[a]);
                            assert(before[t as int].0 == id@);
                        }
                    }
                    assert forall|g: int|
                        0 <= g < acc.deep_view().len() implies crate::map::strings_distinct(
                        (#[trigger] acc.deep_view()[g]).1,
                    ) by {
                        if g == t {
                            let nl = before[t as int].1.push(tag@);
                            assert forall|a: int, b: int| 0 <= a < b < nl.len() implies nl[a]
                                != nl[b] by {
                                if b < before[t as int].1.len() {
                                } else {
                                    assert(nl[b] == tag@);
                                    assert(before[t as int].1[a] != tag@);
                                }
                            }
                        } else {
                            assert(acc.deep_view()[g] == before[g]);
                        }
                    }
                }
            } else {
                proof {
                    match crate::map::assoc_key_index(before, id@) {
                        Some(fi) => {
                            assert(before[fi].0 != id@);
                        },
                        None => {},
                    }
                }
                let mut lst: Vec<String> = Vec::new();
                lst.push(tag);
                acc.push((id, lst));
                proof {
                    assert(lst.deep_view() =~= seq![tag@]);
                    assert(acc.deep_view() =~= before.push((id@, seq![tag@])));
                    assert forall|a: int, b: int|
                        0 <= a < b < acc.deep_view().len() implies acc.deep_view()[a].0
                        != acc.deep_view()[b].0 by {
                        if b < before.len() {
                        } else {
                            assert(acc.deep_view()[b].0 == id@);
                            assert(before[a].0 != id@);
                        }
                    }
                    assert forall|g: int|
                        0 <= g < acc.deep_view().len() implies crate::map::strings_distinct(
                        (#[trigger] acc.deep_view()[g]).1,
                    ) by {
                        if g < before.len() {
                            assert(acc.deep_view()[g] == before[g]);
                        }
                    }
                }
            }
            i += 1;
        }
        Ok(Incompatibilities(acc))
    }
}

/// The words of one raw entry: each field's name followed by its values, in
/// order.
pub open spec fn entry_words_upto(em: RawEntryModel, j: int) -> Seq<Seq<char>>
    decreases j,
{
    if j <= 0 {
        Seq::empty()
    } else {
        entry_words_upto(em, j - 1) + seq![em[j - 1].0] + texts_of(em[j - 1].1)
    }
}

/// One raw entry rendered as a single line of words.
pub open spec fn render_entry(em: RawEntryModel) -> Seq<char> {
    join_spaces(entry_words_upto(em, em.len() as int))
}

/// The rendered reactions of the first `n` entries.
pub open spec fn death_reaction_upto(ems: Seq<RawEntryModel>, n: int) -> Seq<Seq<char>>
    decreases n,
{
    if n <= 0 {
        Seq::empty()
    } else {
        death_reaction_upto(ems, n - 1).push(render_entry(ems[n - 1]))
    }
}

/// What constructing the death reactions reads: each entry rendered to one
/// line, lines distinct (they flatten as a set).
pub open spec fn death_reaction_from_entries_model(ems: Seq<RawEntryModel>) -> Result<
    Seq<Seq<char>>,
    LoadError,
> {
    let lines = death_reaction_upto(ems, ems.len() as int);
    if !crate::map::strings_distinct(lines) {
        Err(LoadError::DuplicateKey)
    } else {
        Ok(lines)
    }
}

impl crate::hero::DeathReaction {
    /// Constructs the reactions, exactly as
    /// `death_reaction_from_entries_model` says.
    #[verifier::loop_isolation(false)]
    pub fn from_entries(input: &Vec<RawEntry>) -> (r: Result<
        crate::hero::DeathReaction,
        LoadError,
    >)
        ensures
            match (r, death_reaction_from_entries_model(input.deep_view())) {
                (Ok(d), Ok(m)) => d@ == m && crate::map::strings_distinct(d@),
                (Err(e1), Err(e2)) => e1 == e2,
                _ => false,
            },
    {
        let ghost ems = input.deep_view();
        let mut lines: Vec<String> = Vec::new();
        let mut i: usize = 0;
        let n = input.len();
        proof {
            assert(lines.deep_view() =~= death_reaction_upto(ems, 0));
        }
        while i < n
            invariant
                n == ems.len(),
                ems == input.deep_view(),
                i <= n,
                lines.deep_view() == death_reaction_upto(ems, i as int),
            decreases n - i,
        {
            proof {
                assert(input@[i as int].deep_view() == ems[i as int]);
            }
            let mut words: Vec<String> = Vec::new();
            let mut j: usize = 0;
            let fn_count = input[i].len();
            proof {
                assert(words.deep_view() =~= entry_words_upto(ems[i as int], 0));
            }
            while j < fn_count
                invariant
                    n == ems.len(),
                    ems == input.deep_view(),
                    i < n,
                    input@[i as int].deep_view() == ems[i as int],
                    fn_count == ems[i as int].len(),
                    j <= fn_count,
                    words.deep_view() == entry_words_upto(ems[i as int], j as int),
                decreases fn_count - j,
            {
                proof {
                    assert(ems[i as int][j as int] == input@[i as int].fields@[
                        j as int].deep_view());
                    assert(ems[i as int][j as int].0 == input@[i as int].fields@[j as int].0@);
                    assert(ems[i as int][j as int].1 == input@[i as int].fields@[
                        j as int].1.deep_view());
                }
                let f = input[i].field_at(j);
                words.push(clone_string(&f.0));
                let mut texts = token_texts(&f.1);
                words.append(&mut texts);
                j += 1;
                proof {
                    assert(words.deep_view() =~= entry_words_upto(ems[i as int], j as int));
                }
            }
            let line = join_with_spaces(&words);
            lines.push(line);
            i += 1;
            proof {
                assert(words.deep_view() == entry_words_upto(ems[i - 1], ems[i - 1].len() as int));
                assert(lines.deep_view() =~= death_reaction_upto(ems, i as int));
            }
        }
        if !texts_distinct(&lines) {
            return Err(LoadError::DuplicateKey);
        }
        Ok(crate::hero::DeathReaction(lines))
    }
}


/// The key of one skill entry: its id's first value and its decimal level;
/// the name must be underscore-free for the flattened `name_level` key.
pub open spec fn skill_entry_key(em: RawEntryModel) -> Result<(Seq<char>, i32), LoadError> {
    match assoc_lookup(em, "id"@) {
        None => Err(LoadError::MissingId),
        Some(toks) => if toks.len() == 0 {
            Err(LoadError::WrongArity)
        } else {
            match int_field(em, "level"@) {
                Err(er) => Err(er),
                Ok(lvl) => if !crate::hero::no_underscore(toks[0].text) {
                    Err(LoadError::BadSkillName)
                } else {
                    Ok((toks[0].text, lvl))
                },
            }
        },
    }
}

/// The skill entries grouped by key over the first `n` entries, keys in
/// first-appearance order.
pub open spec fn skill_groups_upto(ems: Seq<RawEntryModel>, n: int) -> Result<
    Seq<((Seq<char>, i32), Seq<RawEntryModel>)>,
    LoadError,
>
    decreases n,
{
    if n <= 0 {
        Ok(Seq::empty())
    } else {
        match skill_groups_upto(ems, n - 1) {
            Err(er) => Err(er),
            Ok(acc) => match skill_entry_key(ems[n - 1]) {
                Err(er) => Err(er),
                Ok(key) => match crate::map::assoc_key_index(acc, key) {
                    Some(i) => Ok(acc.update(i, (key, acc[i].1.push(ems[n - 1])))),
                    None => Ok(acc.push((key, seq![ems[n - 1]]))),
                },
            },
        }
    }
}

/// The bank mapped from the first `n` groups.
pub open spec fn skills_map_upto(
    gs: Seq<((Seq<char>, i32), Seq<RawEntryModel>)>,
    n: int,
) -> Result<crate::hero::SkillsModel, LoadError>
    decreases n,
{
    if n <= 0 {
        Ok(Seq::empty())
    } else {
        match skills_map_upto(gs, n - 1) {
            Err(er) => Err(er),
            Ok(acc) => match skill_from_entries_model(gs[n - 1].1) {
                Err(er) => Err(er),
                Ok(sk) => Ok(acc.push((gs[n - 1].0, sk))),
            },
        }
    }
}

/// What constructing the skill bank reads: entries grouped by (name, level),
/// each group one skill.
pub open spec fn skills_from_entries_model(ems: Seq<RawEntryModel>) -> Result<
    crate::hero::SkillsModel,
    LoadError,
> {
    match skill_groups_upto(ems, ems.len() as int) {
        Err(er) => Err(er),
        Ok(gs) => skills_map_upto(gs, gs.len() as int),
    }
}

proof fn lemma_skill_groups_err(ems: Seq<RawEntryModel>, i: int, i2: int, er: LoadError)
    requires
        0 <= i <= i2,
        skill_groups_upto(ems, i) == Err::<
            Seq<((Seq<char>, i32), Seq<RawEntryModel>)>,
            LoadError,
        >(er),
    ensures
        skill_groups_upto(ems, i2) == Err::<
            Seq<((Seq<char>, i32), Seq<RawEntryModel>)>,
            LoadError,
        >(er),
    decreases i2 - i,
{
    if i < i2 {
        lemma_skill_groups_err(ems, i + 1, i2, er);
    }
}

proof fn lemma_skills_map_err(
    gs: Seq<((Seq<char>, i32), Seq<RawEntryModel>)>,
    i: int,
    i2: int,
    er: LoadError,
)
    requires
        0 <= i <= i2,
        skills_map_upto(gs, i) == Err::<crate::hero::SkillsModel, LoadError>(er),
    ensures
        skills_map_upto(gs, i2) == Err::<crate::hero::SkillsModel, LoadError>(er),
    decreases i2 - i,
{
    if i < i2 {
        lemma_skills_map_err(gs, i + 1, i2, er);
    }
}

/// The groups keep distinct, underscore-free keys.
proof fn lemma_skill_groups_good(ems: Seq<RawEntryModel>, n: int)
    ensures
        match skill_groups_upto(ems, n) {
            Ok(gs) => assoc_distinct(gs) && forall|g: int|
                0 <= g < gs.len() ==> crate::hero::no_underscore((#[trigger] gs[g]).0.0),
            Err(_) => true,
        },
    decreases n,
{
    if n > 0 {
        lemma_skill_groups_good(ems, n - 1);
        match skill_groups_upto(ems, n - 1) {
            Err(_) => {},
            Ok(acc) => {
                match skill_entry_key(ems[n - 1]) {
                    Err(_) => {},
                    Ok(key) => {
                        crate::map::lemma_assoc_key_index(acc, key);
                        match crate::map::assoc_key_index(acc, key) {
                            Some(i) => {
                                let acc2 = acc.update(i, (key, acc[i].1.push(ems[n - 1])));
                                assert forall|a: int, b: int|
                                    0 <= a < b < acc2.len() implies acc2[a].0 != acc2[b].0 by {
                                    if a != i && b != i {
                                        assert(acc2[a] == acc[a] && acc2[b] == acc[b]);
                                    } else if a == i {
                                        assert(acc2[b] == acc[b]);
                                        assert(acc[i].0 == key);
                                    } else {
                                        assert(acc2[a] == acc[a]);
                                        assert(acc[i].0 == key);
                                    }
                                }
                                assert forall|g: int|
                                    0 <= g < acc2.len() implies crate::hero::no_underscore(
                                    (#[trigger] acc2[g]).0.0,
                                ) by {
                                    if g != i {
                                        assert(acc2[g] == acc[g]);
                                    } else {
                                        assert(acc2[g].0 == key);
                                        assert(acc[i].0 == key);
                                        assert(crate::hero::no_underscore(acc[i].0.0));
                                    }
                                }
                            },
                            None => {
                                let acc2 = acc.push((key, seq![ems[n - 1]]));
                                assert forall|a: int, b: int|
                                    0 <= a < b < acc2.len() implies acc2[a].0 != acc2[b].0 by {
                                    if b < acc.len() {
                                    } else {
                                        assert(acc2[b].0 == key);
                                        assert(acc[a].0 != key);
                                    }
                                }
                                assert forall|g: int|
                                    0 <= g < acc2.len() implies crate::hero::no_underscore(
                                    (#[trigger] acc2[g]).0.0,
                                ) by {
                                    if g < acc.len() {
                                        assert(acc2[g] == acc[g]);
                                    }
                                }
                            },
                        }
                    },
                }
            },
        }
    }
}

/// A copy of a raw entry list whose model is unchanged.
#[verifier::loop_isolation(false)]
pub fn clone_entries(v: &Vec<RawEntry>) -> (r: Vec<RawEntry>)
    ensures
        r.deep_view() == v.deep_view(),
{
    let mut r: Vec<RawEntry> = Vec::new();
    let mut i: usize = 0;
    while i < v.len()
        invariant
            i <= v@.len(),
            r@.len() == i,
            r.deep_view() == v.deep_view().take(i as int),
        decreases v@.len() - i,
    {
        proof {
            assert(v.deep_view()[i as int] == v@[i as int].deep_view());
        }
        r.push(v[i].dup());
        i += 1;
        proof {
            assert(r.deep_view() =~= v.deep_view().take(i as int));
        }
    }
    proof {
        assert(v.deep_view().take(v@.len() as int) =~= v.deep_view());
    }
    r
}

impl crate::hero::Skills {
    /// Constructs the bank, exactly as `skills_from_entries_model` says; a
    /// constructed bank satisfies its invariant.
    #[verifier::loop_isolation(false)]
    #[verifier::rlimit(60)]
    pub fn from_entries(input: &Vec<RawEntry>) -> (r: Result<crate::hero::Skills, LoadError>)
        ensures
            match (r, skills_from_entries_model(input.deep_view())) {
                (Ok(s), Ok(m)) => s@ == m && crate::hero::skills_wf(s@),
                (Err(e1), Err(e2)) => e1 == e2,
                _ => false,
            },
    {
        let ghost ems = input.deep_view();
        let mut groups: Vec<((String, i32), Vec<RawEntry>)> = Vec::new();
        let mut i: usize = 0;
        let n = input.len();
        proof {
            assert(groups.deep_view() =~= skill_groups_upto(ems, 0).unwrap());
        }
        while i < n
            invariant
                n == ems.len(),
                ems == input.deep_view(),
                i <= n,
                skill_groups_upto(ems, i as int) == Ok::<
                    Seq<((Seq<char>, i32), Seq<RawEntryModel>)>,
                    LoadError,
                >(groups.deep_view()),
            decreases n - i,
        {
            proof {
                assert(input@[i as int].deep_view() == ems[i as int]);
            }
            let e = &input[i];
            let name: String = match e.get("id") {
                None => {
                    proof {
                        lemma_skill_groups_err(ems, i as int + 1, n as int, LoadError::MissingId);
                    }
                    return Err(LoadError::MissingId);
                },
                Some(toks) => {
                    if toks.len() == 0 {
                        proof {
                            lemma_skill_groups_err(
                                ems,
                                i as int + 1,
                                n as int,
                                LoadError::WrongArity,
                            );
                        }
                        return Err(LoadError::WrongArity);
                    }
                    proof {
                        assert(toks.deep_view()[0] == toks@[0]@);
                    }
                    clone_string(&toks[0].text)
                },
            };
            let lvl: i32 = match read_int_field(e, "level") {
                Err(er) => {
                    proof {
                        lemma_skill_groups_err(ems, i as int + 1, n as int, er);
                    }
                    return Err(er);
                },
                Ok(v) => v,
            };
            match crate::strutil::find_char(name.as_str(), '_') {
                Some(_) => {
                    proof {
                        lemma_skill_groups_err(
                            ems,
                            i as int + 1,
                            n as int,
                            LoadError::BadSkillName,
                        );
                    }
                    return Err(LoadError::BadSkillName);
                },
                None => {},
            }
            let ghost key = (name@, lvl);
            let ghost before = groups.deep_view();
            proof {
                assert(crate::hero::no_underscore(name@));
                assert(skill_entry_key(ems[i as int]) == Ok::<(Seq<char>, i32), LoadError>(key));
                crate::map::lemma_assoc_key_index(before, key);
                lemma_skill_groups_good(ems, i as int);
            }
            let mut t: usize = 0;
            let tn = groups.len();
            let mut found = false;
            while t < tn
                invariant
                    tn == before.len(),
                    before == groups.deep_view(),
                    t <= tn,
                    !found ==> forall|u: int| 0 <= u < t ==> (#[trigger] before[u]).0 != key,
                    found ==> t < tn && before[t as int].0 == key,
                decreases tn - t + if found {
                    0int
                } else {
                    1int
                },
            {
                if found {
                    break ;
                }
                proof {
                    assert(before[t as int] == groups@[t as int].deep_view());
                }
                if str_eq(groups[t].0.0.as_str(), name.as_str()) && groups[t].0.1 == lvl {
                    found = true;
                } else {
                    t += 1;
                }
            }
            if found {
                proof {
                    match crate::map::assoc_key_index(before, key) {
                        Some(fi) => {
                            assert(fi == t);
                        },
                        None => {
                            assert(before[t as int].0 != key);
                        },
                    }
                }
                let mut lst = clone_entries(&groups[t].1);
                lst.push(e.dup());
                proof {
                    assert(lst.deep_view() =~= before[t as int].1.push(ems[i as int]));
                }
                let kc = (clone_string(&groups[t].0.0), groups[t].0.1);
                proof {
                    assert(groups@[t as int].deep_view() == before[t as int]);
                    assert(kc.deep_view() == key);
                }
                groups.set(t, (kc, lst));
                proof {
                    assert(groups.deep_view() =~= before.update(
                        t as int,
                        (key, before[t as int].1.push(ems[i as int])),
                    ));
                }
            } else {
                proof {
                    match crate::map::assoc_key_index(before, key) {
                        Some(fi) => {
                            assert(before[fi].0 != key);
                        },
                        None => {},
                    }
                }
                let mut lst: Vec<RawEntry> = Vec::new();
                lst.push(e.dup());
                groups.push(((name, lvl), lst));
                proof {
                    assert(lst.deep_view() =~= seq![ems[i as int]]);
                    assert(groups.deep_view() =~= before.push((key, seq![ems[i as int]])));
                }
            }
            i += 1;
        }
        proof {
            lemma_skill_groups_good(ems, n as int);
        }
        let ghost gs = groups.deep_view();
        // one skill per group
        let mut out: Vec<((String, i32), crate::hero::Skill)> = Vec::new();
        let mut g: usize = 0;
        let gn = groups.len();
        proof {
            assert(out.deep_view() =~= skills_map_upto(gs, 0).unwrap());
        }
        while g < gn
            invariant
                gn == gs.len(),
                gs == groups.deep_view(),
                g <= gn,
                assoc_distinct(gs),
                forall|w: int| 0 <= w < gs.len() ==> crate::hero::no_underscore(
                    (#[trigger] gs[w]).0.0,
                ),
                skills_map_upto(gs, g as int) == Ok::<crate::hero::SkillsModel, LoadError>(
                    out.deep_view(),
                ),
                out@.len() == g,
                forall|w: int| 0 <= w < out.deep_view().len() ==> crate::hero::skill_wf(
                    (#[trigger] out.deep_view()[w]).1,
                ),
                forall|w: int| 0 <= w < out.deep_view().len() && w < gs.len() ==> (
                #[trigger] out.deep_view()[w]).0 == gs[w].0,
            decreases gn - g,
        {
            proof {
                assert(gs[g as int] == groups@[g as int].deep_view());
            }
            match crate::hero::Skill::from_entries(&groups[g].1) {
                Err(er) => {
                    proof {
                        lemma_skills_map_err(gs, g as int + 1, gn as int, er);
                    }
                    return Err(er);
                },
                Ok(sk) => {
                    let kc = (clone_string(&groups[g].0.0), groups[g].0.1);
                    proof {
                        assert(kc.deep_view() == gs[g as int].0);
                    }
                    out.push((kc, sk));
                    g += 1;
                    proof {
                        assert(out.deep_view() =~= skills_map_upto(gs, g as int).unwrap());
                    }
                },
            }
        }
        proof {
            assert forall|a: int, b: int|
                0 <= a < b < out.deep_view().len() implies out.deep_view()[a].0
                != out.deep_view()[b].0 by {
                assert(out.deep_view()[a].0 == gs[a].0);
                assert(out.deep_view()[b].0 == gs[b].0);
            }
            assert forall|w: int| 0 <= w < out.deep_view().len() implies
                crate::hero::no_underscore((#[trigger] out.deep_view()[w]).0.0) by {
                assert(out.deep_view()[w].0 == gs[w].0);
            }
        }
        Ok(crate::hero::Skills(out))
    }
}


/// The raw entries of one file, distributed to the record's blocks: which
/// top-level key fed which block.
pub struct HeroParts {
    pub resistances: Option<RawEntry>,
    pub weapons: Vec<RawEntry>,
    pub armours: Vec<RawEntry>,
    pub skills: Vec<RawEntry>,
    pub riposte: Vec<RawEntry>,
    pub move_skill: Option<RawEntry>,
    pub tags: Vec<String>,
    pub extra_stack_limit: Vec<String>,
    pub deaths_door: Option<RawEntry>,
    pub modes: Vec<RawEntry>,
    pub incompat: Vec<RawEntry>,
    pub death_reaction: Vec<RawEntry>,
    pub other: Vec<((String, String), Vec<String>)>,
}

/// The model of the distributed entries.
pub struct HeroPartsModel {
    pub resistances: Option<RawEntryModel>,
    pub weapons: Seq<RawEntryModel>,
    pub armours: Seq<RawEntryModel>,
    pub skills: Seq<RawEntryModel>,
    pub riposte: Seq<RawEntryModel>,
    pub move_skill: Option<RawEntryModel>,
    pub tags: Seq<Seq<char>>,
    pub extra_stack_limit: Seq<Seq<char>>,
    pub deaths_door: Option<RawEntryModel>,
    pub modes: Seq<RawEntryModel>,
    pub incompat: Seq<RawEntryModel>,
    pub death_reaction: Seq<RawEntryModel>,
    pub other: crate::hero::OtherModel,
}

impl View for HeroParts {
    type V = HeroPartsModel;

    open spec fn view(&self) -> HeroPartsModel {
        HeroPartsModel {
            resistances: self.resistances.deep_view(),
            weapons: self.weapons.deep_view(),
            armours: self.armours.deep_view(),
            skills: self.skills.deep_view(),
            riposte: self.riposte.deep_view(),
            move_skill: self.move_skill.deep_view(),
            tags: self.tags.deep_view(),
            extra_stack_limit: self.extra_stack_limit.deep_view(),
            deaths_door: self.deaths_door.deep_view(),
            modes: self.modes.deep_view(),
            incompat: self.incompat.deep_view(),
            death_reaction: self.death_reaction.deep_view(),
            other: self.other.deep_view(),
        }
    }
}

pub open spec fn empty_parts() -> HeroPartsModel {
    HeroPartsModel {
        resistances: None,
        weapons: Seq::empty(),
        armours: Seq::empty(),
        skills: Seq::empty(),
        riposte: Seq::empty(),
        move_skill: None,
        tags: Seq::empty(),
        extra_stack_limit: Seq::empty(),
        deaths_door: None,
        modes: Seq::empty(),
        incompat: Seq::empty(),
        death_reaction: Seq::empty(),
        other: Seq::empty(),
    }
}

/// A catch-all entry's fields folded into the extension table: each
/// (top-level key, field name) pair keys one distinct string collection.
pub open spec fn collect_other(
    acc: crate::hero::OtherModel,
    key: Seq<char>,
    em: RawEntryModel,
    j: int,
) -> Result<crate::hero::OtherModel, LoadError>
    decreases j,
{
    if j <= 0 {
        Ok(acc)
    } else {
        match collect_other(acc, key, em, j - 1) {
            Err(er) => Err(er),
            Ok(acc2) => if crate::map::assoc_key_index(acc2, (key, em[j - 1].0)) is Some {
                Err(LoadError::DuplicateKey)
            } else if !crate::map::strings_distinct(texts_of(em[j - 1].1)) {
                Err(LoadError::DuplicateKey)
            } else {
                Ok(acc2.push(((key, em[j - 1].0), texts_of(em[j - 1].1))))
            },
        }
    }
}

/// One (key, entry) pair distributed to its block: the closed set of
/// recognized keys, with single-entry blocks rejecting repeats, list-valued
/// keys reading their `id` tokens, and anything else kept in the catch-all
/// extension table.
pub open spec fn collect_one(
    acc: HeroPartsModel,
    key: Seq<char>,
    em: RawEntryModel,
) -> Result<HeroPartsModel, LoadError> {
    if key == "resistances"@ {
        if acc.resistances is Some {
            Err(LoadError::DuplicateKey)
        } else {
            Ok(HeroPartsModel { resistances: Some(em), ..acc })
        }
    } else if key == "weapon"@ {
        Ok(HeroPartsModel { weapons: acc.weapons.push(em), ..acc })
    } else if key == "armour"@ {
        Ok(HeroPartsModel { armours: acc.armours.push(em), ..acc })
    } else if key == "combat_skill"@ {
        Ok(HeroPartsModel { skills: acc.skills.push(em), ..acc })
    } else if key == "riposte_skill"@ {
        Ok(HeroPartsModel { riposte: acc.riposte.push(em), ..acc })
    } else if key == "combat_move_skill"@ {
        if acc.move_skill is Some {
            Err(LoadError::DuplicateKey)
        } else {
            Ok(HeroPartsModel { move_skill: Some(em), ..acc })
        }
    } else if key == "tag"@ {
        match assoc_lookup(em, "id"@) {
            None => Err(LoadError::MissingField),
            Some(toks) => Ok(HeroPartsModel { tags: acc.tags + texts_of(toks), ..acc }),
        }
    } else if key == "extra_stack_limit"@ {
        match assoc_lookup(em, "id"@) {
            None => Err(LoadError::MissingField),
            Some(toks) => Ok(
                HeroPartsModel {
                    extra_stack_limit: acc.extra_stack_limit + texts_of(toks),
                    ..acc
                },
            ),
        }
    } else if key == "deaths_door"@ {
        if acc.deaths_door is Some {
            Err(LoadError::DuplicateKey)
        } else {
            Ok(HeroPartsModel { deaths_door: Some(em), ..acc })
        }
    } else if key == "mode"@ {
        Ok(HeroPartsModel { modes: acc.modes.push(em), ..acc })
    } else if key == "incompatible_party_member"@ {
        Ok(HeroPartsModel { incompat: acc.incompat.push(em), ..acc })
    } else if key == "death_reaction"@ {
        Ok(HeroPartsModel { death_reaction: acc.death_reaction.push(em), ..acc })
    } else {
        match collect_other(acc.other, key, em, em.len() as int) {
            Err(er) => Err(er),
            Ok(o2) => Ok(HeroPartsModel { other: o2, ..acc }),
        }
    }
}

/// The first `n` pairs distributed.
pub open spec fn collect_upto(pairs: Seq<(Seq<char>, RawEntryModel)>, n: int) -> Result<
    HeroPartsModel,
    LoadError,
>
    decreases n,
{
    if n <= 0 {
        Ok(empty_parts())
    } else {
        match collect_upto(pairs, n - 1) {
            Err(er) => Err(er),
            Ok(acc) => collect_one(acc, pairs[n - 1].0, pairs[n - 1].1),
        }
    }
}

proof fn lemma_collect_other_err(
    acc: crate::hero::OtherModel,
    key: Seq<char>,
    em: RawEntryModel,
    j: int,
    j2: int,
    er: LoadError,
)
    requires
        0 <= j <= j2,
        collect_other(acc, key, em, j) == Err::<crate::hero::OtherModel, LoadError>(er),
    ensures
        collect_other(acc, key, em, j2) == Err::<crate::hero::OtherModel, LoadError>(er),
    decreases j2 - j,
{
    if j < j2 {
        lemma_collect_other_err(acc, key, em, j + 1, j2, er);
    }
}

proof fn lemma_collect_upto_err(
    pairs: Seq<(Seq<char>, RawEntryModel)>,
    i: int,
    i2: int,
    er: LoadError,
)
    requires
        0 <= i <= i2,
        collect_upto(pairs, i) == Err::<HeroPartsModel, LoadError>(er),
    ensures
        collect_upto(pairs, i2) == Err::<HeroPartsModel, LoadError>(er),
    decreases i2 - i,
{
    if i < i2 {
        lemma_collect_upto_err(pairs, i + 1, i2, er);
    }
}

/// The folded extension table keeps distinct key pairs and distinct members.
proof fn lemma_collect_other_good(
    acc: crate::hero::OtherModel,
    key: Seq<char>,
    em: RawEntryModel,
    j: int,
)
    requires
        crate::hero::other_wf(acc),
    ensures
        match collect_other(acc, key, em, j) {
            Ok(acc2) => crate::hero::other_wf(acc2),
            Err(_) => true,
        },
    decreases j,
{
    if j > 0 {
        lemma_collect_other_good(acc, key, em, j - 1);
        match collect_other(acc, key, em, j - 1) {
            Err(_) => {},
            Ok(acc2) => {
                crate::map::lemma_assoc_key_index(acc2, (key, em[j - 1].0));
                if crate::map::assoc_key_index(acc2, (key, em[j - 1].0)) is Some
                    || !crate::map::strings_distinct(texts_of(em[j - 1].1)) {
                } else {
                    let acc3 = acc2.push(((key, em[j - 1].0), texts_of(em[j - 1].1)));
                    assert forall|a: int, b: int| 0 <= a < b < acc3.len() implies acc3[a].0
                        != acc3[b].0 by {
                        if b < acc2.len() {
                            assert(acc3[a] == acc2[a] && acc3[b] == acc2[b]);
                        } else {
                            assert(acc3[a] == acc2[a]);
                            assert(acc2[a].0 != (key, em[j - 1].0));
                        }
                    }
                    assert forall|g: int| 0 <= g < acc3.len() implies
                        crate::map::strings_distinct((#[trigger] acc3[g]).1) by {
                        if g < acc2.len() {
                            assert(acc3[g] == acc2[g]);
                        }
                    }
                }
            },
        }
    }
}

proof fn lemma_collect_upto_good(pairs: Seq<(Seq<char>, RawEntryModel)>, n: int)
    ensures
        match collect_upto(pairs, n) {
            Ok(p) => crate::hero::other_wf(p.other),
            Err(_) => true,
        },
    decreases n,
{
    if n > 0 {
        lemma_collect_upto_good(pairs, n - 1);
        match collect_upto(pairs, n - 1) {
            Err(_) => {},
            Ok(acc) => {
                let key = pairs[n - 1].0;
                let em = pairs[n - 1].1;
                lemma_collect_other_good(acc.other, key, em, em.len() as int);
            },
        }
    }
}

/// Distributes a file's raw entries to the record's blocks, exactly as
/// `collect_upto` says.
#[verifier::loop_isolation(false)]
#[verifier::rlimit(60)]
pub fn collect_hero_parts(pairs: &Vec<(String, RawEntry)>) -> (r: Result<HeroParts, LoadError>)
    ensures
        match (r, collect_upto(pairs.deep_view(), pairs.deep_view().len() as int)) {
            (Ok(p), Ok(m)) => p@ == m && crate::hero::other_wf(p@.other),
            (Err(e1), Err(e2)) => e1 == e2,
            _ => false,
        },
{
    let ghost pv = pairs.deep_view();
    let mut parts = HeroParts {
        resistances: None,
        weapons: Vec::new(),
        armours: Vec::new(),
        skills: Vec::new(),
        riposte: Vec::new(),
        move_skill: None,
        tags: Vec::new(),
        extra_stack_limit: Vec::new(),
        deaths_door: None,
        modes: Vec::new(),
        incompat: Vec::new(),
        death_reaction: Vec::new(),
        other: Vec::new(),
    };
    let mut i: usize = 0;
    let n = pairs.len();
    proof {
        assert(parts@.weapons =~= empty_parts().weapons);
        assert(parts@.armours =~= empty_parts().armours);
        assert(parts@.skills =~= empty_parts().skills);
        assert(parts@.riposte =~= empty_parts().riposte);
        assert(parts@.tags =~= empty_parts().tags);
        assert(parts@.extra_stack_limit =~= empty_parts().extra_stack_limit);
        assert(parts@.modes =~= empty_parts().modes);
        assert(parts@.incompat =~= empty_parts().incompat);
        assert(parts@.death_reaction =~= empty_parts().death_reaction);
        assert(parts@.other =~= empty_parts().other);
        assert(parts@ == empty_parts());
    }
    while i < n
        invariant
            n == pv.len(),
            pv == pairs.deep_view(),
            i <= n,
            collect_upto(pv, i as int) == Ok::<HeroPartsModel, LoadError>(parts@),
        decreases n - i,
    {
        proof {
            assert(pairs@[i as int].deep_view() == pv[i as int]);
            assert(pairs@[i as int].0@ == pv[i as int].0);
            assert(pairs@[i as int].1.deep_view() == pv[i as int].1);
        }
        let key = &pairs[i].0;
        let e = &pairs[i].1;
        let ghost before = parts@;
        if crate::strutil::seg_is(key, "resistances") {
            if parts.resistances.is_some() {
                proof {
                    lemma_collect_upto_err(pv, i as int + 1, n as int, LoadError::DuplicateKey);
                }
                return Err(LoadError::DuplicateKey);
            }
            parts.resistances = Some(e.dup());
        } else if crate::strutil::seg_is(key, "weapon") {
            parts.weapons.push(e.dup());
            proof {
                assert(parts@.weapons =~= before.weapons.push(pv[i as int].1));
            }
        } else if crate::strutil::seg_is(key, "armour") {
            parts.armours.push(e.dup());
            proof {
                assert(parts@.armours =~= before.armours.push(pv[i as int].1));
            }
        } else if crate::strutil::seg_is(key, "combat_skill") {
            parts.skills.push(e.dup());
            proof {
                assert(parts@.skills =~= before.skills.push(pv[i as int].1));
            }
        } else if crate::strutil::seg_is(key, "riposte_skill") {
            parts.riposte.push(e.dup());
            proof {
                assert(parts@.riposte =~= before.riposte.push(pv[i as int].1));
            }
        } else if crate::strutil::seg_is(key, "combat_move_skill") {
            if parts.move_skill.is_some() {
                proof {
                    lemma_collect_upto_err(pv, i as int + 1, n as int, LoadError::DuplicateKey);
                }
                return Err(LoadError::DuplicateKey);
            }
            parts.move_skill = Some(e.dup());
        } else if crate::strutil::seg_is(key, "tag") {
            match e.get("id") {
                None => {
                    proof {
                        lemma_collect_upto_err(
                            pv,
                            i as int + 1,
                            n as int,
                            LoadError::MissingField,
                        );
                    }
                    return Err(LoadError::MissingField);
                },
                Some(toks) => {
                    let mut ts = token_texts(toks);
                    parts.tags.append(&mut ts);
                    proof {
                        assert(parts@.tags =~= before.tags + texts_of(
                            assoc_lookup(pv[i as int].1, "id"@).unwrap(),
                        ));
                    }
                },
            }
        } else if crate::strutil::seg_is(key, "extra_stack_limit") {
            match e.get("id") {
                None => {
                    proof {
                        lemma_collect_upto_err(
                            pv,
                            i as int + 1,
                            n as int,
                            LoadError::MissingField,
                        );
                    }
                    return Err(LoadError::MissingField);
                },
                Some(toks) => {
                    let mut ts = token_texts(toks);
                    parts.extra_stack_limit.append(&mut ts);
                    proof {
                        assert(parts@.extra_stack_limit =~= before.extra_stack_limit + texts_of(
                            assoc_lookup(pv[i as int].1, "id"@).unwrap(),
                        ));
                    }
                },
            }
        } else if crate::strutil::seg_is(key, "deaths_door") {
            if parts.deaths_door.is_some() {
                proof {
                    lemma_collect_upto_err(pv, i as int + 1, n as int, LoadError::DuplicateKey);
                }
                return Err(LoadError::DuplicateKey);
            }
            parts.deaths_door = Some(e.dup());
        } else if crate::strutil::seg_is(key, "mode") {
            parts.modes.push(e.dup());
            proof {
                assert(parts@.modes =~= before.modes.push(pv[i as int].1));
            }
        } else if crate::strutil::seg_is(key, "incompatible_party_member") {
            parts.incompat.push(e.dup());
            proof {
                assert(parts@.incompat =~= before.incompat.push(pv[i as int].1));
            }
        } else if crate::strutil::seg_is(key, "death_reaction") {
            parts.death_reaction.push(e.dup());
            proof {
                assert(parts@.death_reaction =~= before.death_reaction.push(pv[i as int].1));
            }
        } else {
            // a catch-all entry: every field keyed by (entry key, field name)
            let ghost em = pv[i as int].1;
            let ghost other0 = before.other;
            let mut j: usize = 0;
            let fn_count = e.len();
            while j < fn_count
                invariant
                    n == pv.len(),
                    pv == pairs.deep_view(),
                    i < n,
                    pairs@[i as int].deep_view() == pv[i as int],
                    em == pv[i as int].1,
                    fn_count == em.len(),
                    j <= fn_count,
                    collect_upto(pv, i as int) == Ok::<HeroPartsModel, LoadError>(before),
                    other0 == before.other,
                    parts@ == (HeroPartsModel { other: parts@.other, ..before }),
                    collect_other(other0, pv[i as int].0, em, j as int) == Ok::<
                        crate::hero::OtherModel,
                        LoadError,
                    >(parts.other.deep_view()),
                decreases fn_count - j,
            {
                proof {
                    assert(em[j as int] == pairs@[i as int].1.fields@[j as int].deep_view());
                    assert(em[j as int].0 == pairs@[i as int].1.fields@[j as int].0@);
                    assert(em[j as int].1 == pairs@[i as int].1.fields@[j as int].1.deep_view());
                }
                let f = e.field_at(j);
                // the (key, field) pair must be new
                let ghost oacc = parts.other.deep_view();
                proof {
                    crate::map::lemma_assoc_key_index(oacc, (pv[i as int].0, em[j as int].0));
                }
                let mut t: usize = 0;
                let tn = parts.other.len();
                while t < tn
                    invariant
                        tn == oacc.len(),
                        oacc == parts.other.deep_view(),
                        pairs@[i as int].deep_view() == pv[i as int],
                        em == pv[i as int].1,
                        i < n,
                        j < fn_count,
                        fn_count == em.len(),
                        em[j as int].0 == pairs@[i as int].1.fields@[j as int].0@,
                        t <= tn,
                        forall|u: int| 0 <= u < t ==> (#[trigger] oacc[u]).0 != (
                            pv[i as int].0,
                            em[j as int].0,
                        ),
                    decreases tn - t,
                {
                    proof {
                        assert(oacc[t as int] == parts.other@[t as int].deep_view());
                    }
                    if str_eq(parts.other[t].0.0.as_str(), key.as_str()) && str_eq(
                        parts.other[t].0.1.as_str(),
                        f.0.as_str(),
                    ) {
                        proof {
                            assert(oacc[t as int].0 == (pv[i as int].0, em[j as int].0));
                            assert(crate::map::assoc_key_index(
                                oacc,
                                (pv[i as int].0, em[j as int].0),
                            ) is Some) by {
                                match crate::map::assoc_key_index(
                                    oacc,
                                    (pv[i as int].0, em[j as int].0),
                                ) {
                                    Some(_) => {},
                                    None => {
                                        assert(oacc[t as int].0 != (
                                            pv[i as int].0,
                                            em[j as int].0,
                                        ));
                                    },
                                }
                            }
                            assert(collect_other(other0, pv[i as int].0, em, j as int + 1)
                                == Err::<crate::hero::OtherModel, LoadError>(
                                LoadError::DuplicateKey,
                            ));
                            lemma_collect_other_err(
                                other0,
                                pv[i as int].0,
                                em,
                                j as int + 1,
                                em.len() as int,
                                LoadError::DuplicateKey,
                            );
                            lemma_collect_upto_err(
                                pv,
                                i as int + 1,
                                n as int,
                                LoadError::DuplicateKey,
                            );
                        }
                        return Err(LoadError::DuplicateKey);
                    }
                    t += 1;
                }
                proof {
                    match crate::map::assoc_key_index(oacc, (pv[i as int].0, em[j as int].0)) {
                        Some(fi) => {
                            assert(oacc[fi].0 != (pv[i as int].0, em[j as int].0));
                        },
                        None => {},
                    }
                }
                let texts = token_texts(&f.1);
                if !texts_distinct(&texts) {
                    proof {
                        assert(collect_other(other0, pv[i as int].0, em, j as int + 1) == Err::<
                            crate::hero::OtherModel,
                            LoadError,
                        >(LoadError::DuplicateKey));
                        lemma_collect_other_err(
                            other0,
                            pv[i as int].0,
                            em,
                            j as int + 1,
                            em.len() as int,
                            LoadError::DuplicateKey,
                        );
                        lemma_collect_upto_err(
                            pv,
                            i as int + 1,
                            n as int,
                            LoadError::DuplicateKey,
                        );
                    }
                    return Err(LoadError::DuplicateKey);
                }
                parts.other.push(((clone_string(key), clone_string(&f.0)), texts));
                j += 1;
                proof {
                    assert(parts.other.deep_view() =~= oacc.push(
                        ((pv[i as int].0, em[j - 1].0), texts_of(em[j - 1].1)),
                    ));
                }
            }
        }
        i += 1;
        proof {
            assert(collect_upto(pv, i as int) == Ok::<HeroPartsModel, LoadError>(parts@));
        }
    }
    proof {
        lemma_collect_upto_good(pv, n as int);
    }
    Ok(parts)
}


/// Assembling a full hero record from its distributed parts: the
/// resistance, move-skill and death's-door blocks are required, the banks
/// construct from their entries, and the two plain string collections must
/// have distinct members (they flatten as sets).
pub open spec fn hero_from_parts(id: Seq<char>, p: HeroPartsModel) -> Result<
    crate::hero::HeroModel,
    LoadError,
> {
    match p.resistances {
        None => Err(LoadError::MissingField),
        Some(re) => match res_from_entry_model(re) {
            Err(er) => Err(er),
            Ok(resistances) => match weapons_from_entries_model(p.weapons) {
                Err(er) => Err(er),
                Ok(weapons) => match armours_from_entries_model(p.armours) {
                    Err(er) => Err(er),
                    Ok(armours) => match skills_from_entries_model(p.skills) {
                        Err(er) => Err(er),
                        Ok(skills) => match skill_from_entries_model(p.riposte) {
                            Err(er) => Err(er),
                            Ok(riposte_skill) => match p.move_skill {
                                None => Err(LoadError::MissingField),
                                Some(me) => match move_from_entry_model(me) {
                                    Err(er) => Err(er),
                                    Ok(move_skill) => if !crate::map::strings_distinct(p.tags) {
                                        Err(LoadError::DuplicateKey)
                                    } else if !crate::map::strings_distinct(
                                        p.extra_stack_limit,
                                    ) {
                                        Err(LoadError::DuplicateKey)
                                    } else {
                                        match p.deaths_door {
                                            None => Err(LoadError::MissingField),
                                            Some(de) => match deaths_door_from_entry_model(de) {
                                                Err(er) => Err(er),
                                                Ok(deaths_door) => match
                                                    modes_from_entries_model(p.modes) {
                                                    Err(er) => Err(er),
                                                    Ok(modes) => match
                                                        incompat_from_entries_model(p.incompat) {
                                                        Err(er) => Err(er),
                                                        Ok(incompatible_party_member) => match
                                                            death_reaction_from_entries_model(
                                                            p.death_reaction,
                                                        ) {
                                                            Err(er) => Err(er),
                                                            Ok(death_reaction) => Ok(
                                                                crate::hero::HeroModel {
                                                                    id,
                                                                    resistances,
                                                                    weapons,
                                                                    armours,
                                                                    skills,
                                                                    riposte_skill,
                                                                    move_skill,
                                                                    tags: p.tags,
                                                                    extra_stack_limit:
                                                                        p.extra_stack_limit,
                                                                    deaths_door,
                                                                    modes,
                                                                    incompatible_party_member,
                                                                    death_reaction,
                                                                    other: p.other,
                                                                },
                                                            ),
                                                        },
                                                    },
                                                },
                                            },
                                        }
                                    },
                                },
                            },
                        },
                    },
                },
            },
        },
    }
}

/// What loading a full hero record from a parsed file reads.
pub open spec fn hero_from_pairs_model(
    id: Seq<char>,
    pairs: Seq<(Seq<char>, RawEntryModel)>,
) -> Result<crate::hero::HeroModel, LoadError> {
    match collect_upto(pairs, pairs.len() as int) {
        Err(er) => Err(er),
        Ok(p) => hero_from_parts(id, p),
    }
}

impl crate::hero::HeroInfo {
    /// Constructs a full hero record from a parsed file: the record's id and
    /// its (key, entry) pairs in file order. Exactly as
    /// `hero_from_pairs_model` says; a constructed record satisfies the
    /// record invariant.
    pub fn from_entries(id: String, pairs: &Vec<(String, RawEntry)>) -> (r: Result<
        crate::hero::HeroInfo,
        LoadError,
    >)
        ensures
            match (r, hero_from_pairs_model(id@, pairs.deep_view())) {
                (Ok(h), Ok(m)) => h@ == m && crate::hero::hero_wf(h@),
                (Err(e1), Err(e2)) => e1 == e2,
                _ => false,
            },
    {
        let parts = match collect_hero_parts(pairs) {
            Ok(p) => p,
            Err(er) => {
                return Err(er);
            },
        };
        let resistances = match &parts.resistances {
            None => {
                return Err(LoadError::MissingField);
            },
            Some(re) => match Resistances::from_entry(re) {
                Ok(v) => v,
                Err(er) => {
                    return Err(er);
                },
            },
        };
        let weapons = match crate::hero::Weapons::from_entries(&parts.weapons) {
            Ok(v) => v,
            Err(er) => {
                return Err(er);
            },
        };
        let armours = match crate::hero::Armours::from_entries(&parts.armours) {
            Ok(v) => v,
            Err(er) => {
                return Err(er);
            },
        };
        let skills = match crate::hero::Skills::from_entries(&parts.skills) {
            Ok(v) => v,
            Err(er) => {
                return Err(er);
            },
        };
        let riposte_skill = match crate::hero::Skill::from_entries(&parts.riposte) {
            Ok(v) => v,
            Err(er) => {
                return Err(er);
            },
        };
        let move_skill = match &parts.move_skill {
            None => {
                return Err(LoadError::MissingField);
            },
            Some(me) => match MoveSkill::from_entry(me) {
                Ok(v) => v,
                Err(er) => {
                    return Err(er);
                },
            },
        };
        if !texts_distinct(&parts.tags) {
            return Err(LoadError::DuplicateKey);
        }
        if !texts_distinct(&parts.extra_stack_limit) {
            return Err(LoadError::DuplicateKey);
        }
        let deaths_door = match &parts.deaths_door {
            None => {
                return Err(LoadError::MissingField);
            },
            Some(de) => match DeathsDoor::from_entry(de) {
                Ok(v) => v,
                Err(er) => {
                    return Err(er);
                },
            },
        };
        let modes = match crate::hero::Modes::from_entries(&parts.modes) {
            Ok(v) => v,
            Err(er) => {
                return Err(er);
            },
        };
        let incompatible_party_member = match Incompatibilities::from_entries(&parts.incompat) {
            Ok(v) => v,
            Err(er) => {
                return Err(er);
            },
        };
        let death_reaction = match crate::hero::DeathReaction::from_entries(
            &parts.death_reaction,
        ) {
            Ok(v) => v,
            Err(er) => {
                return Err(er);
            },
        };
        Ok(
            crate::hero::HeroInfo {
                id,
                resistances,
                weapons,
                armours,
                skills,
                riposte_skill,
                move_skill,
                tags: parts.tags,
                extra_stack_limit: parts.extra_stack_limit,
                deaths_door,
                modes,
                incompatible_party_member,
                death_reaction,
                other: parts.other,
            },
        )
    }
}

/// Assembling an override record, first half: the scalar banks and skills,
/// each absent where its file gave nothing.
pub open spec fn override_front(p: HeroPartsModel) -> Result<
    (
        ResistancesOverride,
        Option<Seq<Weapon>>,
        Option<Seq<Armour>>,
        Option<crate::hero::SkillsModel>,
        Option<crate::hero::SkillModel>,
        Option<MoveSkill>,
    ),
    LoadError,
> {
    let rres = match p.resistances {
        None => Ok(
            ResistancesOverride {
                stun: None,
                poison: None,
                bleed: None,
                disease: None,
                moving: None,
                debuff: None,
                death_blow: None,
                trap: None,
            },
        ),
        Some(re) => res_override_from_entry_model(re),
    };
    match rres {
        Err(er) => Err(er),
        Ok(resistances) => {
            let rw = if p.weapons.len() == 0 {
                Ok(None)
            } else {
                match weapons_from_entries_model(p.weapons) {
                    Err(er) => Err(er),
                    Ok(w) => Ok(Some(w)),
                }
            };
            match rw {
                Err(er) => Err(er),
                Ok(weapons) => {
                    let ra = if p.armours.len() == 0 {
                        Ok(None)
                    } else {
                        match armours_from_entries_model(p.armours) {
                            Err(er) => Err(er),
                            Ok(a) => Ok(Some(a)),
                        }
                    };
                    match ra {
                        Err(er) => Err(er),
                        Ok(armours) => {
                            let rs = if p.skills.len() == 0 {
                                Ok(None)
                            } else {
                                match skills_from_entries_model(p.skills) {
                                    Err(er) => Err(er),
                                    Ok(sk) => Ok(Some(sk)),
                                }
                            };
                            match rs {
                                Err(er) => Err(er),
                                Ok(skills) => {
                                    let rr = if p.riposte.len() == 0 {
                                        Ok(None)
                                    } else {
                                        match skill_from_entries_model(p.riposte) {
                                            Err(er) => Err(er),
                                            Ok(sk) => Ok(Some(sk)),
                                        }
                                    };
                                    match rr {
                                        Err(er) => Err(er),
                                        Ok(riposte_skill) => match p.move_skill {
                                            None => Ok(
                                                (
                                                    resistances,
                                                    weapons,
                                                    armours,
                                                    skills,
                                                    riposte_skill,
                                                    None,
                                                ),
                                            ),
                                            Some(me) => match move_from_entry_model(me) {
                                                Err(er) => Err(er),
                                                Ok(mv) => Ok(
                                                    (
                                                        resistances,
                                                        weapons,
                                                        armours,
                                                        skills,
                                                        riposte_skill,
                                                        Some(mv),
                                                    ),
                                                ),
                                            },
                                        },
                                    }
                                },
                            }
                        },
                    }
                },
            }
        },
    }
}

/// Assembling an override record, second half: the remaining optional
/// blocks.
pub open spec fn override_back(p: HeroPartsModel) -> Result<
    (
        Option<crate::hero::DeathsDoorModel>,
        Option<crate::hero::ModesModel>,
        Option<crate::hero::IncompatibilitiesModel>,
        Option<Seq<Seq<char>>>,
    ),
    LoadError,
> {
    let rd = match p.deaths_door {
        None => Ok(None),
        Some(de) => match deaths_door_from_entry_model(de) {
            Err(er) => Err(er),
            Ok(d) => Ok(Some(d)),
        },
    };
    match rd {
        Err(er) => Err(er),
        Ok(deaths_door) => {
            let rmo = if p.modes.len() == 0 {
                Ok(None)
            } else {
                match modes_from_entries_model(p.modes) {
                    Err(er) => Err(er),
                    Ok(ms) => Ok(Some(ms)),
                }
            };
            match rmo {
                Err(er) => Err(er),
                Ok(modes) => {
                    let ri = if p.incompat.len() == 0 {
                        Ok(None)
                    } else {
                        match incompat_from_entries_model(p.incompat) {
                            Err(er) => Err(er),
                            Ok(t) => Ok(Some(t)),
                        }
                    };
                    match ri {
                        Err(er) => Err(er),
                        Ok(incompatible_party_member) => {
                            let rdr = if p.death_reaction.len() == 0 {
                                Ok(None)
                            } else {
                                match death_reaction_from_entries_model(p.death_reaction) {
                                    Err(er) => Err(er),
                                    Ok(d) => Ok(Some(d)),
                                }
                            };
                            match rdr {
                                Err(er) => Err(er),
                                Ok(death_reaction) => Ok(
                                    (deaths_door, modes, incompatible_party_member,
                                    death_reaction),
                                ),
                            }
                        },
                    }
                },
            }
        },
    }
}

/// Assembling an override record from its distributed parts.
pub open spec fn hero_override_from_parts(id: Seq<char>, p: HeroPartsModel) -> Result<
    crate::hero::HeroOverrideModel,
    LoadError,
> {
    match override_front(p) {
        Err(er) => Err(er),
        Ok(front) => if !crate::map::strings_distinct(p.tags) {
            Err(LoadError::DuplicateKey)
        } else if !crate::map::strings_distinct(p.extra_stack_limit) {
            Err(LoadError::DuplicateKey)
        } else {
            match override_back(p) {
                Err(er) => Err(er),
                Ok(back) => Ok(
                    crate::hero::HeroOverrideModel {
                        id,
                        resistances: front.0,
                        weapons: front.1,
                        armours: front.2,
                        skills: front.3,
                        riposte_skill: front.4,
                        move_skill: front.5,
                        tags: p.tags,
                        extra_stack_limit: p.extra_stack_limit,
                        deaths_door: back.0,
                        modes: back.1,
                        incompatible_party_member: back.2,
                        death_reaction: back.3,
                        other: p.other,
                    },
                ),
            }
        },
    }
}

/// Constructs the first half of an override record.
fn build_override_front(parts: &HeroParts) -> (r: Result<
    (
        ResistancesOverride,
        Option<crate::hero::Weapons>,
        Option<crate::hero::Armours>,
        Option<crate::hero::Skills>,
        Option<crate::hero::Skill>,
        Option<MoveSkill>,
    ),
    LoadError,
>)
    ensures
        match (r, override_front(parts@)) {
            (Ok(f), Ok(m)) => {
                &&& f.0 == m.0
                &&& (match (f.1, m.1) {
                    (Some(w), Some(mw)) => w.0@ == mw && w.wf(),
                    (None, None) => true,
                    _ => false,
                })
                &&& (match (f.2, m.2) {
                    (Some(a), Some(ma)) => a.0@ == ma && a.wf(),
                    (None, None) => true,
                    _ => false,
                })
                &&& (match (f.3, m.3) {
                    (Some(sk), Some(msk)) => sk@ == msk && crate::hero::skills_wf(sk@),
                    (None, None) => true,
                    _ => false,
                })
                &&& (match (f.4, m.4) {
                    (Some(sk), Some(msk)) => sk@ == msk && crate::hero::skill_wf(sk@),
                    (None, None) => true,
                    _ => false,
                })
                &&& f.5 == m.5
            },
            (Err(e1), Err(e2)) => e1 == e2,
            _ => false,
        },
{
    let resistances = match &parts.resistances {
        None => ResistancesOverride {
            stun: None,
            poison: None,
            bleed: None,
            disease: None,
            moving: None,
            debuff: None,
            death_blow: None,
            trap: None,
        },
        Some(re) => match ResistancesOverride::from_entry(re) {
            Ok(v) => v,
            Err(er) => {
                return Err(er);
            },
        },
    };
    let weapons = if parts.weapons.len() == 0 {
        None
    } else {
        match crate::hero::Weapons::from_entries(&parts.weapons) {
            Ok(v) => Some(v),
            Err(er) => {
                return Err(er);
            },
        }
    };
    let armours = if parts.armours.len() == 0 {
        None
    } else {
        match crate::hero::Armours::from_entries(&parts.armours) {
            Ok(v) => Some(v),
            Err(er) => {
                return Err(er);
            },
        }
    };
    let skills = if parts.skills.len() == 0 {
        None
    } else {
        match crate::hero::Skills::from_entries(&parts.skills) {
            Ok(v) => Some(v),
            Err(er) => {
                return Err(er);
            },
        }
    };
    let riposte_skill = if parts.riposte.len() == 0 {
        None
    } else {
        match crate::hero::Skill::from_entries(&parts.riposte) {
            Ok(v) => Some(v),
            Err(er) => {
                return Err(er);
            },
        }
    };
    let move_skill = match &parts.move_skill {
        None => None,
        Some(me) => match MoveSkill::from_entry(me) {
            Ok(v) => Some(v),
            Err(er) => {
                return Err(er);
            },
        },
    };
    Ok((resistances, weapons, armours, skills, riposte_skill, move_skill))
}

/// Constructs the second half of an override record.
fn build_override_back(parts: &HeroParts) -> (r: Result<
    (
        Option<DeathsDoor>,
        Option<crate::hero::Modes>,
        Option<Incompatibilities>,
        Option<crate::hero::DeathReaction>,
    ),
    LoadError,
>)
    ensures
        match (r, override_back(parts@)) {
            (Ok(b), Ok(m)) => {
                &&& (match (b.0, m.0) {
                    (Some(d), Some(md)) => d@ == md && crate::hero::deaths_door_wf(d@),
                    (None, None) => true,
                    _ => false,
                })
                &&& (match (b.1, m.1) {
                    (Some(ms), Some(mm)) => ms@ == mm && crate::hero::modes_wf(ms@),
                    (None, None) => true,
                    _ => false,
                })
                &&& (match (b.2, m.2) {
                    (Some(t), Some(mt)) => t@ == mt && crate::hero::incompatibilities_wf(t@),
                    (None, None) => true,
                    _ => false,
                })
                &&& (match (b.3, m.3) {
                    (Some(d), Some(md)) => d@ == md && crate::map::strings_distinct(d@),
                    (None, None) => true,
                    _ => false,
                })
            },
            (Err(e1), Err(e2)) => e1 == e2,
            _ => false,
        },
{
    let deaths_door = match &parts.deaths_door {
        None => None,
        Some(de) => match DeathsDoor::from_entry(de) {
            Ok(v) => Some(v),
            Err(er) => {
                return Err(er);
            },
        },
    };
    let modes = if parts.modes.len() == 0 {
        None
    } else {
        match crate::hero::Modes::from_entries(&parts.modes) {
            Ok(v) => Some(v),
            Err(er) => {
                return Err(er);
            },
        }
    };
    let incompatible_party_member = if parts.incompat.len() == 0 {
        None
    } else {
        match Incompatibilities::from_entries(&parts.incompat) {
            Ok(v) => Some(v),
            Err(er) => {
                return Err(er);
            },
        }
    };
    let death_reaction = if parts.death_reaction.len() == 0 {
        None
    } else {
        match crate::hero::DeathReaction::from_entries(&parts.death_reaction) {
            Ok(v) => Some(v),
            Err(er) => {
                return Err(er);
            },
        }
    };
    Ok((deaths_door, modes, incompatible_party_member, death_reaction))
}

/// What loading an override record from a parsed file reads.
pub open spec fn hero_override_from_pairs_model(
    id: Seq<char>,
    pairs: Seq<(Seq<char>, RawEntryModel)>,
) -> Result<crate::hero::HeroOverrideModel, LoadError> {
    match collect_upto(pairs, pairs.len() as int) {
        Err(er) => Err(er),
        Ok(p) => hero_override_from_parts(id, p),
    }
}

impl crate::hero::HeroOverride {
    /// Constructs an override record from a parsed file, exactly as
    /// `hero_override_from_pairs_model` says; a constructed record satisfies
    /// the override invariant.
    pub fn from_entries(id: String, pairs: &Vec<(String, RawEntry)>) -> (r: Result<
        crate::hero::HeroOverride,
        LoadError,
    >)
        ensures
            match (r, hero_override_from_pairs_model(id@, pairs.deep_view())) {
                (Ok(h), Ok(m)) => h@ == m && crate::hero::hero_override_wf(h@),
                (Err(e1), Err(e2)) => e1 == e2,
                _ => false,
            },
    {
        let parts = match collect_hero_parts(pairs) {
            Ok(p) => p,
            Err(er) => {
                return Err(er);
            },
        };
        let front = match build_override_front(&parts) {
            Ok(f) => f,
            Err(er) => {
                return Err(er);
            },
        };
        if !texts_distinct(&parts.tags) {
            return Err(LoadError::DuplicateKey);
        }
        if !texts_distinct(&parts.extra_stack_limit) {
            return Err(LoadError::DuplicateKey);
        }
        let back = match build_override_back(&parts) {
            Ok(b) => b,
            Err(er) => {
                return Err(er);
            },
        };
        let (resistances, weapons, armours, skills, riposte_skill, move_skill) = front;
        let (deaths_door, modes, incompatible_party_member, death_reaction) = back;
        Ok(
            crate::hero::HeroOverride {
                id,
                resistances,
                weapons,
                armours,
                skills,
                riposte_skill,
                move_skill,
                tags: parts.tags,
                extra_stack_limit: parts.extra_stack_limit,
                deaths_door,
                modes,
                incompatible_party_member,
                death_reaction,
                other: parts.other,
            },
        )
    }
}

} // verus!
