use vstd::prelude::*;
use crate::map::{assoc_distinct, strings_distinct};

verus! {

/// A hero's resistance block. Each field is the bit pattern of a 32-bit
/// float fraction; the merge core stores and moves the bits, never computes
/// with them.
#[derive(Clone, Copy, Debug, PartialEq, Eq, Structural)]
pub struct Resistances {
    pub stun: u32,
    pub poison: u32,
    pub bleed: u32,
    pub disease: u32,
    pub moving: u32,
    pub debuff: u32,
    pub death_blow: u32,
    pub trap: u32,
}

/// The resistance block of an override record: each field optional.
#[derive(Clone, Copy, Debug, PartialEq)]
pub struct ResistancesOverride {
    pub stun: Option<u32>,
    pub poison: Option<u32>,
    pub bleed: Option<u32>,
    pub disease: Option<u32>,
    pub moving: Option<u32>,
    pub debuff: Option<u32>,
    pub death_blow: Option<u32>,
    pub trap: Option<u32>,
}

/// One weapon rank: attack and crit as float bit patterns, damage range and
/// speed as integers.
#[derive(Clone, Copy, Debug, PartialEq, Eq, Structural)]
pub struct Weapon {
    pub atk: u32,
    pub dmg_min: i32,
    pub dmg_max: i32,
    pub crit: u32,
    pub spd: i32,
}

/// The fixed five-rank weapon bank.
#[derive(Clone, Debug, PartialEq)]
pub struct Weapons(pub Vec<Weapon>);

impl Weapons {
    /// The bank always holds exactly five ranks.
    pub open spec fn wf(&self) -> bool {
        self.0@.len() == 5
    }
}

/// One armour rank.
#[derive(Clone, Copy, Debug, PartialEq, Eq, Structural)]
pub struct Armour {
    pub def: u32,
    pub prot: u32,
    pub hp: i32,
    pub spd: i32,
}

/// The fixed five-rank armour bank.
#[derive(Clone, Debug, PartialEq)]
pub struct Armours(pub Vec<Armour>);

impl Armours {
    /// The bank always holds exactly five ranks.
    pub open spec fn wf(&self) -> bool {
        self.0@.len() == 5
    }
}

/// The combat move skill: positions moved backward and forward.
#[derive(Clone, Copy, Debug, PartialEq, Eq, Structural)]
pub struct MoveSkill {
    pub forward: i32,
    pub backward: i32,
}

/// One skill: its ordered effect chain and its remaining scalar fields.
#[derive(Clone, Debug, PartialEq)]
pub struct Skill {
    pub effects: Vec<String>,
    pub other: Vec<(String, String)>,
}

/// Mathematical model of a skill.
pub struct SkillModel {
    pub effects: Seq<Seq<char>>,
    pub other: Seq<(Seq<char>, Seq<char>)>,
}

impl View for Skill {
    type V = SkillModel;

    open spec fn view(&self) -> SkillModel {
        SkillModel { effects: self.effects.deep_view(), other: self.other.deep_view() }
    }
}

impl DeepView for Skill {
    type V = SkillModel;

    open spec fn deep_view(&self) -> SkillModel {
        self.view()
    }
}

/// Whether a string holds no underscore. Skill keys flatten as
/// `name_level`, so names must be underscore-free for the key to parse back.
pub open spec fn no_underscore(s: Seq<char>) -> bool {
    forall|i: int| 0 <= i < s.len() ==> s[i] != '_'
}

/// A skill's invariant: distinct effects (the chain encoding keys successor
/// links by the element's own text), distinct field names, and no field
/// named like the chain marker.
pub open spec fn skill_wf(s: SkillModel) -> bool {
    &&& strings_distinct(s.effects)
    &&& assoc_distinct(s.other)
    &&& forall|i: int| 0 <= i < s.other.len() ==> s.other[i].0 != "effects"@
}

/// The model of the skill bank: (name, level) keys with their skills.
pub type SkillsModel = Seq<((Seq<char>, i32), SkillModel)>;

/// The skill bank, keyed by name and level.
#[derive(Clone, Debug, PartialEq)]
pub struct Skills(pub Vec<((String, i32), Skill)>);

impl View for Skills {
    type V = SkillsModel;

    open spec fn view(&self) -> SkillsModel {
        self.0.deep_view()
    }
}

/// The skill bank's invariant: distinct keys, well-formed skills, and
/// underscore-free names.
pub open spec fn skills_wf(s: SkillsModel) -> bool {
    &&& assoc_distinct(s)
    &&& forall|i: int| 0 <= i < s.len() ==> #[trigger] skill_wf(s[i].1)
    &&& forall|i: int| 0 <= i < s.len() ==> no_underscore(#[trigger] s[i].0.0)
}

/// The death's door buff lists.
#[derive(Clone, Debug, PartialEq)]
pub struct DeathsDoor {
    pub buffs: Vec<String>,
    pub recovery_buffs: Vec<String>,
    pub recovery_heart_attack_buffs: Vec<String>,
}

/// Mathematical model of the death's door block.
pub struct DeathsDoorModel {
    pub buffs: Seq<Seq<char>>,
    pub recovery_buffs: Seq<Seq<char>>,
    pub recovery_heart_attack_buffs: Seq<Seq<char>>,
}

impl View for DeathsDoor {
    type V = DeathsDoorModel;

    open spec fn view(&self) -> DeathsDoorModel {
        DeathsDoorModel {
            buffs: self.buffs.deep_view(),
            recovery_buffs: self.recovery_buffs.deep_view(),
            recovery_heart_attack_buffs: self.recovery_heart_attack_buffs.deep_view(),
        }
    }
}

/// The buff lists flatten as sets, so their members must be distinct.
pub open spec fn deaths_door_wf(d: DeathsDoorModel) -> bool {
    &&& strings_distinct(d.buffs)
    &&& strings_distinct(d.recovery_buffs)
    &&& strings_distinct(d.recovery_heart_attack_buffs)
}

/// One mode: its named string collections.
#[derive(Clone, Debug, PartialEq)]
pub struct Mode(pub Vec<(String, Vec<String>)>);

/// The model of a mode.
pub type ModeModel = Seq<(Seq<char>, Seq<Seq<char>>)>;

impl View for Mode {
    type V = ModeModel;

    open spec fn view(&self) -> ModeModel {
        self.0.deep_view()
    }
}

impl DeepView for Mode {
    type V = ModeModel;

    open spec fn deep_view(&self) -> ModeModel {
        self.view()
    }
}

pub open spec fn mode_wf(m: ModeModel) -> bool {
    &&& assoc_distinct(m)
    &&& forall|i: int| 0 <= i < m.len() ==> strings_distinct(#[trigger] m[i].1)
}

/// The mode bank, keyed by mode id.
#[derive(Clone, Debug, PartialEq)]
pub struct Modes(pub Vec<(String, Mode)>);

/// The model of the mode bank.
pub type ModesModel = Seq<(Seq<char>, ModeModel)>;

impl View for Modes {
    type V = ModesModel;

    open spec fn view(&self) -> ModesModel {
        self.0.deep_view()
    }
}

pub open spec fn modes_wf(m: ModesModel) -> bool {
    &&& assoc_distinct(m)
    &&& forall|i: int| 0 <= i < m.len() ==> mode_wf(#[trigger] m[i].1)
}

/// Party-member incompatibilities: ids with their tag lists.
#[derive(Clone, Debug, PartialEq)]
pub struct Incompatibilities(pub Vec<(String, Vec<String>)>);

/// The model of the incompatibility table.
pub type IncompatibilitiesModel = Seq<(Seq<char>, Seq<Seq<char>>)>;

impl View for Incompatibilities {
    type V = IncompatibilitiesModel;

    open spec fn view(&self) -> IncompatibilitiesModel {
        self.0.deep_view()
    }
}

pub open spec fn incompatibilities_wf(m: IncompatibilitiesModel) -> bool {
    &&& assoc_distinct(m)
    &&& forall|i: int| 0 <= i < m.len() ==> strings_distinct(#[trigger] m[i].1)
}

/// Death reactions, one rendered entry each.
#[derive(Clone, Debug, PartialEq)]
pub struct DeathReaction(pub Vec<String>);

impl View for DeathReaction {
    type V = Seq<Seq<char>>;

    open spec fn view(&self) -> Seq<Seq<char>> {
        self.0.deep_view()
    }
}

/// The model of the catch-all extension table: (outer key, inner key) pairs
/// with their string collections.
pub type OtherModel = Seq<((Seq<char>, Seq<char>), Seq<Seq<char>>)>;

pub open spec fn other_wf(m: OtherModel) -> bool {
    &&& assoc_distinct(m)
    &&& forall|i: int| 0 <= i < m.len() ==> strings_distinct(#[trigger] m[i].1)
}

/// A full hero record.
#[derive(Clone, Debug, PartialEq)]
pub struct HeroInfo {
    pub id: String,
    pub resistances: Resistances,
    pub weapons: Weapons,
    pub armours: Armours,
    pub skills: Skills,
    pub riposte_skill: Skill,
    pub move_skill: MoveSkill,
    pub tags: Vec<String>,
    pub extra_stack_limit: Vec<String>,
    pub deaths_door: DeathsDoor,
    pub modes: Modes,
    pub incompatible_party_member: Incompatibilities,
    pub death_reaction: DeathReaction,
    pub other: Vec<((String, String), Vec<String>)>,
}

/// Mathematical model of a hero record.
pub struct HeroModel {
    pub id: Seq<char>,
    pub resistances: Resistances,
    pub weapons: Seq<Weapon>,
    pub armours: Seq<Armour>,
    pub skills: SkillsModel,
    pub riposte_skill: SkillModel,
    pub move_skill: MoveSkill,
    pub tags: Seq<Seq<char>>,
    pub extra_stack_limit: Seq<Seq<char>>,
    pub deaths_door: DeathsDoorModel,
    pub modes: ModesModel,
    pub incompatible_party_member: IncompatibilitiesModel,
    pub death_reaction: Seq<Seq<char>>,
    pub other: OtherModel,
}

impl View for HeroInfo {
    type V = HeroModel;

    open spec fn view(&self) -> HeroModel {
        HeroModel {
            id: self.id@,
            resistances: self.resistances,
            weapons: self.weapons.0@,
            armours: self.armours.0@,
            skills: self.skills@,
            riposte_skill: self.riposte_skill@,
            move_skill: self.move_skill,
            tags: self.tags.deep_view(),
            extra_stack_limit: self.extra_stack_limit.deep_view(),
            deaths_door: self.deaths_door@,
            modes: self.modes@,
            incompatible_party_member: self.incompatible_party_member@,
            death_reaction: self.death_reaction@,
            other: self.other.deep_view(),
        }
    }
}

/// The invariant every loaded hero record satisfies; flattening requires it
/// (its collections encode as sets or chains, whose keys must be distinct).
pub open spec fn hero_wf(h: HeroModel) -> bool {
    &&& h.weapons.len() == 5
    &&& h.armours.len() == 5
    &&& skills_wf(h.skills)
    &&& skill_wf(h.riposte_skill)
    &&& strings_distinct(h.tags)
    &&& strings_distinct(h.extra_stack_limit)
    &&& deaths_door_wf(h.deaths_door)
    &&& modes_wf(h.modes)
    &&& incompatibilities_wf(h.incompatible_party_member)
    &&& strings_distinct(h.death_reaction)
    &&& other_wf(h.other)
}

/// An override-style hero record: most blocks optional, present only where
/// the file overrides them.
#[derive(Clone, Debug, PartialEq)]
pub struct HeroOverride {
    pub id: String,
    pub resistances: ResistancesOverride,
    pub weapons: Option<Weapons>,
    pub armours: Option<Armours>,
    pub skills: Option<Skills>,
    pub riposte_skill: Option<Skill>,
    pub move_skill: Option<MoveSkill>,
    pub tags: Vec<String>,
    pub extra_stack_limit: Vec<String>,
    pub deaths_door: Option<DeathsDoor>,
    pub modes: Option<Modes>,
    pub incompatible_party_member: Option<Incompatibilities>,
    pub death_reaction: Option<DeathReaction>,
    pub other: Vec<((String, String), Vec<String>)>,
}

/// Mathematical model of an override record.
pub struct HeroOverrideModel {
    pub id: Seq<char>,
    pub resistances: ResistancesOverride,
    pub weapons: Option<Seq<Weapon>>,
    pub armours: Option<Seq<Armour>>,
    pub skills: Option<SkillsModel>,
    pub riposte_skill: Option<SkillModel>,
    pub move_skill: Option<MoveSkill>,
    pub tags: Seq<Seq<char>>,
    pub extra_stack_limit: Seq<Seq<char>>,
    pub deaths_door: Option<DeathsDoorModel>,
    pub modes: Option<ModesModel>,
    pub incompatible_party_member: Option<IncompatibilitiesModel>,
    pub death_reaction: Option<Seq<Seq<char>>>,
    pub other: OtherModel,
}

impl View for HeroOverride {
    type V = HeroOverrideModel;

    open spec fn view(&self) -> HeroOverrideModel {
        HeroOverrideModel {
            id: self.id@,
            resistances: self.resistances,
            weapons: match &self.weapons {
                Some(w) => Some(w.0@),
                None => None,
            },
            armours: match &self.armours {
                Some(a) => Some(a.0@),
                None => None,
            },
            skills: match &self.skills {
                Some(s) => Some(s@),
                None => None,
            },
            riposte_skill: match &self.riposte_skill {
                Some(s) => Some(s@),
                None => None,
            },
            move_skill: self.move_skill,
            tags: self.tags.deep_view(),
            extra_stack_limit: self.extra_stack_limit.deep_view(),
            deaths_door: match &self.deaths_door {
                Some(d) => Some(d@),
                None => None,
            },
            modes: match &self.modes {
                Some(m) => Some(m@),
                None => None,
            },
            incompatible_party_member: match &self.incompatible_party_member {
                Some(m) => Some(m@),
                None => None,
            },
            death_reaction: match &self.death_reaction {
                Some(d) => Some(d@),
                None => None,
            },
            other: self.other.deep_view(),
        }
    }
}

/// The invariant of a loaded override record.
pub open spec fn hero_override_wf(h: HeroOverrideModel) -> bool {
    &&& match h.weapons {
        Some(w) => w.len() == 5,
        None => true,
    }
    &&& match h.armours {
        Some(a) => a.len() == 5,
        None => true,
    }
    &&& match h.skills {
        Some(s) => skills_wf(s),
        None => true,
    }
    &&& match h.riposte_skill {
        Some(s) => skill_wf(s),
        None => true,
    }
    &&& strings_distinct(h.tags)
    &&& strings_distinct(h.extra_stack_limit)
    &&& match h.deaths_door {
        Some(d) => deaths_door_wf(d),
        None => true,
    }
    &&& match h.modes {
        Some(m) => modes_wf(m),
        None => true,
    }
    &&& match h.incompatible_party_member {
        Some(m) => incompatibilities_wf(m),
        None => true,
    }
    &&& match h.death_reaction {
        Some(d) => strings_distinct(d),
        None => true,
    }
    &&& other_wf(h.other)
}

} // verus!
