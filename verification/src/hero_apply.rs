use vstd::prelude::*;
use crate::chain::{first_index, lemma_first_index};
use crate::hero::{
    Armour, Armours, MoveSkill, Resistances, ResistancesOverride, SkillModel, Weapon, Weapons,
};
use crate::patch::PatchError;
use crate::strnum::parse_i32_model;
use crate::strutil::{clone_string, seg_is, str_eq};
use vstd::string::StringExecFns;
use crate::value::{ChangeModel, ItemChange, Value, ValueModel};

verus! {

/// What editing a set-valued list does: a unit put appends the keyed string,
/// a removal deletes its first occurrence, and removing an absent entry is
/// fatal (the patch is stale). Any other value kind is fatal.
pub open spec fn patch_list_model(l: Seq<Seq<char>>, key: Seq<char>, c: ChangeModel) -> Result<
    Seq<Seq<char>>,
    PatchError,
> {
    match c {
        ChangeModel::Put(ValueModel::Unit) => Ok(l.push(key)),
        ChangeModel::Put(_) => Err(PatchError::BadValueKind),
        ChangeModel::Removed => match first_index(l, key) {
            Some(i) => Ok(l.remove(i)),
            None => Err(PatchError::MissingListEntry),
        },
    }
}

/// Applies one set-valued edit to a list; the path's last segment is the
/// keyed string. On a fatal condition the list is unchanged.
#[verifier::loop_isolation(false)]
pub fn patch_list(list: &mut Vec<String>, path: &Vec<String>, change: &ItemChange) -> (r: Result<
    (),
    PatchError,
>)
    requires
        path.deep_view().len() >= 1,
    ensures
        match patch_list_model(old(list).deep_view(), path.deep_view().last(), change@) {
            Ok(l2) => r == Ok::<(), PatchError>(()) && final(list).deep_view() == l2,
            Err(e) => r == Err::<(), PatchError>(e) && final(list).deep_view() == old(
                list,
            ).deep_view(),
        },
{
    let ghost lm = list.deep_view();
    let key_ix = path.len() - 1;
    let key = &path[key_ix];
    proof {
        assert(key@ == path.deep_view().last());
    }
    match change {
        ItemChange::Put(Value::Unit) => {
            list.push(clone_string(key));
            proof {
                assert(list.deep_view() =~= lm.push(key@));
            }
            Ok(())
        },
        ItemChange::Put(_) => Err(PatchError::BadValueKind),
        ItemChange::Removed => {
            proof {
                lemma_first_index(lm, key@);
            }
            let mut i: usize = 0;
            let n = list.len();
            while i < n
                invariant
                    n == lm.len(),
                    lm == list.deep_view(),
                    i <= n,
                    forall|j: int| 0 <= j < i ==> lm[j] != key@,
                decreases n - i,
            {
                proof {
                    assert(lm[i as int] == list@[i as int]@);
                }
                if str_eq(list[i].as_str(), key.as_str()) {
                    proof {
                        match first_index(lm, key@) {
                            Some(fi) => {
                                assert(fi == i);
                            },
                            None => {
                                assert(lm[i as int] != key@);
                            },
                        }
                    }
                    list.remove(i);
                    proof {
                        assert(list.deep_view() =~= lm.remove(i as int));
                    }
                    return Ok(());
                }
                i += 1;
            }
            Err(PatchError::MissingListEntry)
        },
    }
}

/// Editing a set-valued field with "put value V" and then "remove value V"
/// restores the field's membership: every string is a member afterwards
/// exactly when it was before, and where V was not yet a member the list
/// itself comes back unchanged. Removing a value the field does not hold is
/// fatal.
pub proof fn lemma_list_put_then_remove(l: Seq<Seq<char>>, v: Seq<char>)
    ensures
        match patch_list_model(l, v, ChangeModel::Put(ValueModel::Unit)) {
            Ok(l1) => match patch_list_model(l1, v, ChangeModel::Removed) {
                Ok(l2) => (forall|x: Seq<char>| l2.contains(x) <==> l.contains(x)) && (
                !l.contains(v) ==> l2 == l),
                Err(_) => false,
            },
            Err(_) => false,
        },
        !l.contains(v) ==> patch_list_model(l, v, ChangeModel::Removed) == Err::<
            Seq<Seq<char>>,
            PatchError,
        >(PatchError::MissingListEntry),
{
    let l1 = l.push(v);
    lemma_first_index(l1, v);
    match first_index(l1, v) {
        None => {
            assert(l1[l.len() as int] == v);
            assert(false);
        },
        Some(i) => {
            assert(l1[i] == v);
            let l2 = l1.remove(i);
            if !l.contains(v) {
                assert forall|j: int| 0 <= j < l.len() implies l[j] != v by {
                    if l[j] == v {
                        assert(l.contains(v));
                    }
                }
                assert(i == l.len()) by {
                    if i < l.len() {
                        assert(l1[i] == l[i]);
                    }
                }
                assert(l2 =~= l);
                lemma_first_index(l, v);
                match first_index(l, v) {
                    Some(fi) => {
                        assert(l[fi] == v);
                        assert(l.contains(v));
                        assert(false);
                    },
                    None => {},
                }
            } else {
                let w = choose|w: int| 0 <= w < l.len() && l[w] == v;
                assert(l1[w] == v);
                assert(i <= w) by {
                    if i > w {
                        assert(l1[w] != v);
                    }
                }
                assert(i < l.len());
                // removing the first occurrence of the freshly pushed copy
                // leaves one list with the same members
                assert(l2 =~= l.remove(i).push(v)) by {
                    assert forall|k: int| 0 <= k < l2.len() implies l2[k] == l.remove(i).push(
                        v,
                    )[k] by {
                        if k < i {
                            assert(l2[k] == l1[k]);
                            assert(l1[k] == l[k]);
                        } else if k < l.len() - 1 {
                            assert(l2[k] == l1[k + 1]);
                            assert(l1[k + 1] == l[k + 1]);
                        } else {
                            assert(l2[k] == l1[l.len() as int]);
                        }
                    }
                }
                assert forall|x: Seq<char>| l2.contains(x) implies l.contains(x) by {
                    let k = choose|k: int| 0 <= k < l2.len() && l2[k] == x;
                    if k < l.len() - 1 {
                        let src = if k < i {
                            k
                        } else {
                            k + 1
                        };
                        assert(l[src] == x);
                    } else {
                        assert(x == v);
                    }
                }
                assert forall|x: Seq<char>| l.contains(x) implies l2.contains(x) by {
                    let k = choose|k: int| 0 <= k < l.len() && l[k] == x;
                    if k == i {
                        assert(l[i] == v) by {
                            assert(l1[i] == l[i]);
                        }
                        assert(l2[l2.len() - 1] == v);
                    } else {
                        let dst = if k < i {
                            k
                        } else {
                            k - 1
                        };
                        assert(l2[dst] == x);
                    }
                }
            }
        },
    }
}

/// What a scalar edit of the resistance block does: the path names one of
/// the eight resistances, which must be put a float; removal is fatal since
/// scalar fields are always present.
pub open spec fn res_apply_model(
    r: Resistances,
    path: Seq<Seq<char>>,
    c: ChangeModel,
) -> Result<Resistances, PatchError> {
    if path.len() != 2 {
        Err(PatchError::BadPathShape)
    } else {
        match c {
            ChangeModel::Removed => Err(PatchError::ScalarRemove),
            ChangeModel::Put(ValueModel::Float(b)) => {
                if path[1] == "stun"@ {
                    Ok(Resistances { stun: b, ..r })
                } else if path[1] == "poison"@ {
                    Ok(Resistances { poison: b, ..r })
                } else if path[1] == "bleed"@ {
                    Ok(Resistances { bleed: b, ..r })
                } else if path[1] == "disease"@ {
                    Ok(Resistances { disease: b, ..r })
                } else if path[1] == "move"@ {
                    Ok(Resistances { moving: b, ..r })
                } else if path[1] == "debuff"@ {
                    Ok(Resistances { debuff: b, ..r })
                } else if path[1] == "death_blow"@ {
                    Ok(Resistances { death_blow: b, ..r })
                } else if path[1] == "trap"@ {
                    Ok(Resistances { trap: b, ..r })
                } else {
                    Err(PatchError::UnknownField)
                }
            },
            ChangeModel::Put(_) => Err(PatchError::BadValueKind),
        }
    }
}

impl Resistances {
    /// Applies one scalar edit, exactly as `res_apply_model` says.
    pub fn apply(&mut self, path: &Vec<String>, change: &ItemChange) -> (r: Result<
        (),
        PatchError,
    >)
        ensures
            match res_apply_model(*old(self), path.deep_view(), change@) {
                Ok(r2) => r == Ok::<(), PatchError>(()) && *final(self) == r2,
                Err(e) => r == Err::<(), PatchError>(e) && *final(self) == *old(self),
            },
    {
        if path.len() != 2 {
            return Err(PatchError::BadPathShape);
        }
        proof {
            assert(path.deep_view()[1] == path@[1]@);
        }
        match change {
            ItemChange::Removed => Err(PatchError::ScalarRemove),
            ItemChange::Put(Value::Float(b)) => {
                if seg_is(&path[1], "stun") {
                    self.stun = *b;
                    Ok(())
                } else if seg_is(&path[1], "poison") {
                    self.poison = *b;
                    Ok(())
                } else if seg_is(&path[1], "bleed") {
                    self.bleed = *b;
                    Ok(())
                } else if seg_is(&path[1], "disease") {
                    self.disease = *b;
                    Ok(())
                } else if seg_is(&path[1], "move") {
                    self.moving = *b;
                    Ok(())
                } else if seg_is(&path[1], "debuff") {
                    self.debuff = *b;
                    Ok(())
                } else if seg_is(&path[1], "death_blow") {
                    self.death_blow = *b;
                    Ok(())
                } else if seg_is(&path[1], "trap") {
                    self.trap = *b;
                    Ok(())
                } else {
                    Err(PatchError::UnknownField)
                }
            },
            ItemChange::Put(_) => Err(PatchError::BadValueKind),
        }
    }
}

/// The override resistance block treats removal as clearing the optional
/// field rather than as an error.
pub open spec fn res_override_apply_model(
    r: ResistancesOverride,
    path: Seq<Seq<char>>,
    c: ChangeModel,
) -> Result<ResistancesOverride, PatchError> {
    if path.len() != 2 {
        Err(PatchError::BadPathShape)
    } else {
        let nv = match c {
            ChangeModel::Removed => Ok(None),
            ChangeModel::Put(ValueModel::Float(b)) => Ok(Some(b)),
            ChangeModel::Put(_) => Err(PatchError::BadValueKind),
        };
        match nv {
            Err(e) => Err(e),
            Ok(v) => {
                if path[1] == "stun"@ {
                    Ok(ResistancesOverride { stun: v, ..r })
                } else if path[1] == "poison"@ {
                    Ok(ResistancesOverride { poison: v, ..r })
                } else if path[1] == "bleed"@ {
                    Ok(ResistancesOverride { bleed: v, ..r })
                } else if path[1] == "disease"@ {
                    Ok(ResistancesOverride { disease: v, ..r })
                } else if path[1] == "move"@ {
                    Ok(ResistancesOverride { moving: v, ..r })
                } else if path[1] == "debuff"@ {
                    Ok(ResistancesOverride { debuff: v, ..r })
                } else if path[1] == "death_blow"@ {
                    Ok(ResistancesOverride { death_blow: v, ..r })
                } else if path[1] == "trap"@ {
                    Ok(ResistancesOverride { trap: v, ..r })
                } else {
                    Err(PatchError::UnknownField)
                }
            },
        }
    }
}

impl ResistancesOverride {
    /// Applies one scalar edit, exactly as `res_override_apply_model` says.
    pub fn apply(&mut self, path: &Vec<String>, change: &ItemChange) -> (r: Result<
        (),
        PatchError,
    >)
        ensures
            match res_override_apply_model(*old(self), path.deep_view(), change@) {
                Ok(r2) => r == Ok::<(), PatchError>(()) && *final(self) == r2,
                Err(e) => r == Err::<(), PatchError>(e) && *final(self) == *old(self),
            },
    {
        if path.len() != 2 {
            return Err(PatchError::BadPathShape);
        }
        proof {
            assert(path.deep_view()[1] == path@[1]@);
        }
        let nv: Option<u32> = match change {
            ItemChange::Removed => None,
            ItemChange::Put(Value::Float(b)) => Some(*b),
            ItemChange::Put(_) => {
                return Err(PatchError::BadValueKind);
            },
        };
        if seg_is(&path[1], "stun") {
            self.stun = nv;
            Ok(())
        } else if seg_is(&path[1], "poison") {
            self.poison = nv;
            Ok(())
        } else if seg_is(&path[1], "bleed") {
            self.bleed = nv;
            Ok(())
        } else if seg_is(&path[1], "disease") {
            self.disease = nv;
            Ok(())
        } else if seg_is(&path[1], "move") {
            self.moving = nv;
            Ok(())
        } else if seg_is(&path[1], "debuff") {
            self.debuff = nv;
            Ok(())
        } else if seg_is(&path[1], "death_blow") {
            self.death_blow = nv;
            Ok(())
        } else if seg_is(&path[1], "trap") {
            self.trap = nv;
            Ok(())
        } else {
            Err(PatchError::UnknownField)
        }
    }
}

/// The index segment of an indexed fixed-arity field: plain decimal digits,
/// no sign.
pub open spec fn parse_index(s: Seq<char>) -> Option<int> {
    if s.len() > 0 && s[0] == '-' {
        None
    } else {
        match parse_i32_model(s) {
            Some(v) => Some(v as int),
            None => None,
        }
    }
}

/// Parses an index segment.
pub fn index_of_seg(s: &String) -> (r: Option<usize>)
    ensures
        match r {
            Some(i) => parse_index(s@) == Some(i as int),
            None => parse_index(s@) is None,
        },
{
    let n = vstd::string::StrSliceExecFns::unicode_len(s.as_str());
    if n > 0 && vstd::string::StrSliceExecFns::get_char(s.as_str(), 0) == '-' {
        return None;
    }
    match crate::strnum::parse_i32(s.as_str()) {
        Some(v) => {
            proof {
                assert(s@.len() > 0);
                assert(crate::strnum::all_digits(s@));
                crate::strnum::lemma_digits_val_nonneg(s@);
                assert(v >= 0);
            }
            Some(v as usize)
        },
        None => None,
    }
}

/// What a scalar edit of the weapon bank does: the second segment indexes a
/// rank, the third names the stat; each stat takes its own value kind.
pub open spec fn weapons_apply_model(
    ws: Seq<Weapon>,
    path: Seq<Seq<char>>,
    c: ChangeModel,
) -> Result<Seq<Weapon>, PatchError> {
    if path.len() != 3 {
        Err(PatchError::BadPathShape)
    } else {
        match parse_index(path[1]) {
            None => Err(PatchError::BadIndex),
            Some(ix) => if !(0 <= ix < ws.len()) {
                Err(PatchError::BadIndex)
            } else {
                match c {
                    ChangeModel::Removed => Err(PatchError::ScalarRemove),
                    ChangeModel::Put(v) => {
                        if path[2] == "atk"@ {
                            match v {
                                ValueModel::Float(b) => Ok(
                                    ws.update(ix, Weapon { atk: b, ..ws[ix] }),
                                ),
                                _ => Err(PatchError::BadValueKind),
                            }
                        } else if path[2] == "dmg min"@ {
                            match v {
                                ValueModel::Int(n) => Ok(
                                    ws.update(ix, Weapon { dmg_min: n, ..ws[ix] }),
                                ),
                                _ => Err(PatchError::BadValueKind),
                            }
                        } else if path[2] == "dmg max"@ {
                            match v {
                                ValueModel::Int(n) => Ok(
                                    ws.update(ix, Weapon { dmg_max: n, ..ws[ix] }),
                                ),
                                _ => Err(PatchError::BadValueKind),
                            }
                        } else if path[2] == "crit"@ {
                            match v {
                                ValueModel::Float(b) => Ok(
                                    ws.update(ix, Weapon { crit: b, ..ws[ix] }),
                                ),
                                _ => Err(PatchError::BadValueKind),
                            }
                        } else if path[2] == "spd"@ {
                            match v {
                                ValueModel::Int(n) => Ok(
                                    ws.update(ix, Weapon { spd: n, ..ws[ix] }),
                                ),
                                _ => Err(PatchError::BadValueKind),
                            }
                        } else {
                            Err(PatchError::UnknownField)
                        }
                    },
                }
            },
        }
    }
}

impl Weapons {
    /// Applies one scalar edit to the bank, exactly as `weapons_apply_model`
    /// says.
    pub fn apply(&mut self, path: &Vec<String>, change: &ItemChange) -> (r: Result<
        (),
        PatchError,
    >)
        ensures
            match weapons_apply_model(old(self).0@, path.deep_view(), change@) {
                Ok(w2) => r == Ok::<(), PatchError>(()) && final(self).0@ == w2,
                Err(e) => r == Err::<(), PatchError>(e) && final(self).0@ == old(self).0@,
            },
    {
        if path.len() != 3 {
            return Err(PatchError::BadPathShape);
        }
        proof {
            assert(path.deep_view()[1] == path@[1]@);
            assert(path.deep_view()[2] == path@[2]@);
        }
        let ix = match index_of_seg(&path[1]) {
            Some(ix) => ix,
            None => {
                return Err(PatchError::BadIndex);
            },
        };
        if ix >= self.0.len() {
            return Err(PatchError::BadIndex);
        }
        let cur = self.0[ix];
        match change {
            ItemChange::Removed => Err(PatchError::ScalarRemove),
            ItemChange::Put(v) => {
                if seg_is(&path[2], "atk") {
                    match v {
                        Value::Float(b) => {
                            self.0.set(ix, Weapon { atk: *b, ..cur });
                            Ok(())
                        },
                        _ => Err(PatchError::BadValueKind),
                    }
                } else if seg_is(&path[2], "dmg min") {
                    match v {
                        Value::Int(n) => {
                            self.0.set(ix, Weapon { dmg_min: *n, ..cur });
                            Ok(())
                        },
                        _ => Err(PatchError::BadValueKind),
                    }
                } else if seg_is(&path[2], "dmg max") {
                    match v {
                        Value::Int(n) => {
                            self.0.set(ix, Weapon { dmg_max: *n, ..cur });
                            Ok(())
                        },
                        _ => Err(PatchError::BadValueKind),
                    }
                } else if seg_is(&path[2], "crit") {
                    match v {
                        Value::Float(b) => {
                            self.0.set(ix, Weapon { crit: *b, ..cur });
                            Ok(())
                        },
                        _ => Err(PatchError::BadValueKind),
                    }
                } else if seg_is(&path[2], "spd") {
                    match v {
                        Value::Int(n) => {
                            self.0.set(ix, Weapon { spd: *n, ..cur });
                            Ok(())
                        },
                        _ => Err(PatchError::BadValueKind),
                    }
                } else {
                    Err(PatchError::UnknownField)
                }
            },
        }
    }
}

/// What a scalar edit of the armour bank does.
pub open spec fn armours_apply_model(
    a: Seq<Armour>,
    path: Seq<Seq<char>>,
    c: ChangeModel,
) -> Result<Seq<Armour>, PatchError> {
    if path.len() != 3 {
        Err(PatchError::BadPathShape)
    } else {
        match parse_index(path[1]) {
            None => Err(PatchError::BadIndex),
            Some(ix) => if !(0 <= ix < a.len()) {
                Err(PatchError::BadIndex)
            } else {
                match c {
                    ChangeModel::Removed => Err(PatchError::ScalarRemove),
                    ChangeModel::Put(v) => {
                        if path[2] == "def"@ {
                            match v {
                                ValueModel::Float(b) => Ok(
                                    a.update(ix, Armour { def: b, ..a[ix] }),
                                ),
                                _ => Err(PatchError::BadValueKind),
                            }
                        } else if path[2] == "prot"@ {
                            match v {
                                ValueModel::Float(b) => Ok(
                                    a.update(ix, Armour { prot: b, ..a[ix] }),
                                ),
                                _ => Err(PatchError::BadValueKind),
                            }
                        } else if path[2] == "hp"@ {
                            match v {
                                ValueModel::Int(n) => Ok(a.update(ix, Armour { hp: n, ..a[ix] })),
                                _ => Err(PatchError::BadValueKind),
                            }
                        } else if path[2] == "spd"@ {
                            match v {
                                ValueModel::Int(n) => Ok(
                                    a.update(ix, Armour { spd: n, ..a[ix] }),
                                ),
                                _ => Err(PatchError::BadValueKind),
                            }
                        } else {
                            Err(PatchError::UnknownField)
                        }
                    },
                }
            },
        }
    }
}

impl Armours {
    /// Applies one scalar edit to the bank, exactly as `armours_apply_model`
    /// says.
    pub fn apply(&mut self, path: &Vec<String>, change: &ItemChange) -> (r: Result<
        (),
        PatchError,
    >)
        ensures
            match armours_apply_model(old(self).0@, path.deep_view(), change@) {
                Ok(a2) => r == Ok::<(), PatchError>(()) && final(self).0@ == a2,
                Err(e) => r == Err::<(), PatchError>(e) && final(self).0@ == old(self).0@,
            },
    {
        if path.len() != 3 {
            return Err(PatchError::BadPathShape);
        }
        proof {
            assert(path.deep_view()[1] == path@[1]@);
            assert(path.deep_view()[2] == path@[2]@);
        }
        let ix = match index_of_seg(&path[1]) {
            Some(ix) => ix,
            None => {
                return Err(PatchError::BadIndex);
            },
        };
        if ix >= self.0.len() {
            return Err(PatchError::BadIndex);
        }
        let cur = self.0[ix];
        match change {
            ItemChange::Removed => Err(PatchError::ScalarRemove),
            ItemChange::Put(v) => {
                if seg_is(&path[2], "def") {
                    match v {
                        Value::Float(b) => {
                            self.0.set(ix, Armour { def: *b, ..cur });
                            Ok(())
                        },
                        _ => Err(PatchError::BadValueKind),
                    }
                } else if seg_is(&path[2], "prot") {
                    match v {
                        Value::Float(b) => {
                            self.0.set(ix, Armour { prot: *b, ..cur });
                            Ok(())
                        },
                        _ => Err(PatchError::BadValueKind),
                    }
                } else if seg_is(&path[2], "hp") {
                    match v {
                        Value::Int(n) => {
                            self.0.set(ix, Armour { hp: *n, ..cur });
                            Ok(())
                        },
                        _ => Err(PatchError::BadValueKind),
                    }
                } else if seg_is(&path[2], "spd") {
                    match v {
                        Value::Int(n) => {
                            self.0.set(ix, Armour { spd: *n, ..cur });
                            Ok(())
                        },
                        _ => Err(PatchError::BadValueKind),
                    }
                } else {
                    Err(PatchError::UnknownField)
                }
            },
        }
    }
}

/// What a scalar edit of the move skill does.
pub open spec fn move_apply_model(m: MoveSkill, path: Seq<Seq<char>>, c: ChangeModel) -> Result<
    MoveSkill,
    PatchError,
> {
    if path.len() != 2 {
        Err(PatchError::BadPathShape)
    } else {
        match c {
            ChangeModel::Removed => Err(PatchError::ScalarRemove),
            ChangeModel::Put(ValueModel::Int(n)) => {
                if path[1] == "forward"@ {
                    Ok(MoveSkill { forward: n, ..m })
                } else if path[1] == "backward"@ {
                    Ok(MoveSkill { backward: n, ..m })
                } else {
                    Err(PatchError::UnknownField)
                }
            },
            ChangeModel::Put(_) => Err(PatchError::BadValueKind),
        }
    }
}

impl MoveSkill {
    /// Applies one scalar edit, exactly as `move_apply_model` says.
    pub fn apply(&mut self, path: &Vec<String>, change: &ItemChange) -> (r: Result<
        (),
        PatchError,
    >)
        ensures
            match move_apply_model(*old(self), path.deep_view(), change@) {
                Ok(m2) => r == Ok::<(), PatchError>(()) && *final(self) == m2,
                Err(e) => r == Err::<(), PatchError>(e) && *final(self) == *old(self),
            },
    {
        if path.len() != 2 {
            return Err(PatchError::BadPathShape);
        }
        proof {
            assert(path.deep_view()[1] == path@[1]@);
        }
        match change {
            ItemChange::Removed => Err(PatchError::ScalarRemove),
            ItemChange::Put(Value::Int(n)) => {
                if seg_is(&path[1], "forward") {
                    self.forward = *n;
                    Ok(())
                } else if seg_is(&path[1], "backward") {
                    self.backward = *n;
                    Ok(())
                } else {
                    Err(PatchError::UnknownField)
                }
            },
            ItemChange::Put(_) => Err(PatchError::BadValueKind),
        }
    }
}


/// Applies one set-valued edit keyed directly by `key`.
#[verifier::loop_isolation(false)]
pub fn patch_list_key(list: &mut Vec<String>, key: &String, change: &ItemChange) -> (r: Result<
    (),
    PatchError,
>)
    ensures
        match patch_list_model(old(list).deep_view(), key@, change@) {
            Ok(l2) => r == Ok::<(), PatchError>(()) && final(list).deep_view() == l2,
            Err(e) => r == Err::<(), PatchError>(e) && final(list).deep_view() == old(
                list,
            ).deep_view(),
        },
{
    let ghost lm = list.deep_view();
    match change {
        ItemChange::Put(Value::Unit) => {
            list.push(clone_string(key));
            proof {
                assert(list.deep_view() =~= lm.push(key@));
            }
            Ok(())
        },
        ItemChange::Put(_) => Err(PatchError::BadValueKind),
        ItemChange::Removed => {
            proof {
                lemma_first_index(lm, key@);
            }
            let mut i: usize = 0;
            let n = list.len();
            while i < n
                invariant
                    n == lm.len(),
                    lm == list.deep_view(),
                    i <= n,
                    forall|j: int| 0 <= j < i ==> lm[j] != key@,
                decreases n - i,
            {
                proof {
                    assert(lm[i as int] == list@[i as int]@);
                }
                if str_eq(list[i].as_str(), key.as_str()) {
                    proof {
                        match first_index(lm, key@) {
                            Some(fi) => {
                                assert(fi == i);
                            },
                            None => {
                                assert(lm[i as int] != key@);
                            },
                        }
                    }
                    list.remove(i);
                    proof {
                        assert(list.deep_view() =~= lm.remove(i as int));
                    }
                    return Ok(());
                }
                i += 1;
            }
            Err(PatchError::MissingListEntry)
        },
    }
}

/// A copy of a string-pair list whose model is provably unchanged.
#[verifier::loop_isolation(false)]
pub fn clone_string_pairs(v: &Vec<(String, String)>) -> (r: Vec<(String, String)>)
    ensures
        r.deep_view() == v.deep_view(),
{
    let mut r: Vec<(String, String)> = Vec::new();
    let mut i: usize = 0;
    while i < v.len()
        invariant
            i <= v@.len(),
            r@.len() == i,
            r.deep_view() == v.deep_view().take(i as int),
        decreases v@.len() - i,
    {
        proof {
            assert(v.deep_view()[i as int] == v@[i as int].deep_view());
        }
        r.push((clone_string(&v[i].0), clone_string(&v[i].1)));
        i += 1;
        proof {
            assert(r.deep_view() =~= v.deep_view().take(i as int));
        }
    }
    proof {
        assert(v.deep_view().take(v@.len() as int) =~= v.deep_view());
    }
    r
}

/// A copy of a named string-collection list whose model is unchanged.
#[verifier::loop_isolation(false)]
pub fn clone_keyed_lists(v: &Vec<(String, Vec<String>)>) -> (r: Vec<(String, Vec<String>)>)
    ensures
        r.deep_view() == v.deep_view(),
{
    let mut r: Vec<(String, Vec<String>)> = Vec::new();
    let mut i: usize = 0;
    while i < v.len()
        invariant
            i <= v@.len(),
            r@.len() == i,
            r.deep_view() == v.deep_view().take(i as int),
        decreases v@.len() - i,
    {
        proof {
            assert(v.deep_view()[i as int] == v@[i as int].deep_view());
        }
        r.push((clone_string(&v[i].0), crate::strutil::clone_path(&v[i].1)));
        i += 1;
        proof {
            assert(r.deep_view() =~= v.deep_view().take(i as int));
        }
    }
    proof {
        assert(v.deep_view().take(v@.len() as int) =~= v.deep_view());
    }
    r
}

impl crate::hero::Skill {
    /// An explicit copy with a contract.
    pub fn dup(&self) -> (r: crate::hero::Skill)
        ensures
            r@ == self@,
    {
        crate::hero::Skill {
            effects: crate::strutil::clone_path(&self.effects),
            other: clone_string_pairs(&self.other),
        }
    }
}

/// Puts or replaces one scalar field of a skill.
#[verifier::loop_isolation(false)]
pub fn skill_other_put(o: &mut Vec<(String, String)>, k: &String, v: String)
    ensures
        final(o).deep_view() == crate::map::assoc_put(old(o).deep_view(), k@, v@),
{
    let ghost om = o.deep_view();
    proof {
        crate::map::lemma_assoc_key_index(om, k@);
    }
    let mut i: usize = 0;
    let n = o.len();
    while i < n
        invariant
            n == om.len(),
            om == o.deep_view(),
            i <= n,
            forall|j: int| 0 <= j < i ==> om[j].0 != k@,
        decreases n - i,
    {
        proof {
            assert(om[i as int] == o@[i as int].deep_view());
        }
        if str_eq(o[i].0.as_str(), k.as_str()) {
            proof {
                match crate::map::assoc_key_index(om, k@) {
                    Some(fi) => {
                        assert(fi == i);
                    },
                    None => {
                        assert(om[i as int].0 != k@);
                    },
                }
            }
            o.set(i, (clone_string(k), v));
            proof {
                assert(o.deep_view() =~= om.update(i as int, (k@, v@)));
            }
            return ;
        }
        i += 1;
    }
    o.push((clone_string(k), v));
    proof {
        assert(o.deep_view() =~= om.push((k@, v@)));
    }
}

/// Removes one scalar field of a skill, if present.
#[verifier::loop_isolation(false)]
pub fn skill_other_remove(o: &mut Vec<(String, String)>, k: &String)
    ensures
        final(o).deep_view() == crate::map::assoc_remove_entry(old(o).deep_view(), k@),
{
    let ghost om = o.deep_view();
    proof {
        crate::map::lemma_assoc_key_index(om, k@);
    }
    let mut i: usize = 0;
    let n = o.len();
    while i < n
        invariant
            n == om.len(),
            om == o.deep_view(),
            i <= n,
            forall|j: int| 0 <= j < i ==> om[j].0 != k@,
        decreases n - i,
    {
        proof {
            assert(om[i as int] == o@[i as int].deep_view());
        }
        if str_eq(o[i].0.as_str(), k.as_str()) {
            proof {
                match crate::map::assoc_key_index(om, k@) {
                    Some(fi) => {
                        assert(fi == i);
                    },
                    None => {
                        assert(om[i as int].0 != k@);
                    },
                }
            }
            o.remove(i);
            proof {
                assert(o.deep_view() =~= om.remove(i as int));
            }
            return ;
        }
        i += 1;
    }
}

/// What a scalar edit of one skill field does: a text put sets the field, a
/// removal drops it (silently where absent). The chain marker itself is no
/// scalar field.
pub open spec fn skill_field_model(s: SkillModel, key: Seq<char>, c: ChangeModel) -> Result<
    SkillModel,
    PatchError,
> {
    if key == "effects"@ {
        Err(PatchError::BadPathShape)
    } else {
        match c {
            ChangeModel::Put(ValueModel::Text(v)) => Ok(
                SkillModel { other: crate::map::assoc_put(s.other, key, v), ..s },
            ),
            ChangeModel::Put(_) => Err(PatchError::BadValueKind),
            ChangeModel::Removed => Ok(
                SkillModel { other: crate::map::assoc_remove_entry(s.other, key), ..s },
            ),
        }
    }
}

/// What a skill-path edit does: under the skill bank the field name is the
/// third segment, under the riposte skill the second; the effect chain is
/// handled separately and not here.
pub open spec fn skill_apply_model(s: SkillModel, path: Seq<Seq<char>>, c: ChangeModel) -> Result<
    SkillModel,
    PatchError,
> {
    if path.len() >= 1 && path[0] == "skills"@ {
        if path.len() != 3 {
            Err(PatchError::BadPathShape)
        } else {
            skill_field_model(s, path[2], c)
        }
    } else if path.len() >= 1 && path[0] == "riposte_skill"@ {
        if path.len() != 2 {
            Err(PatchError::BadPathShape)
        } else {
            skill_field_model(s, path[1], c)
        }
    } else {
        Err(PatchError::UnknownField)
    }
}

impl crate::hero::Skill {
    /// Applies one scalar edit to this skill, exactly as `skill_apply_model`
    /// says.
    pub fn apply(&mut self, path: &Vec<String>, change: &ItemChange) -> (r: Result<
        (),
        PatchError,
    >)
        ensures
            match skill_apply_model(old(self)@, path.deep_view(), change@) {
                Ok(s2) => r == Ok::<(), PatchError>(()) && final(self)@ == s2,
                Err(e) => r == Err::<(), PatchError>(e) && final(self)@ == old(self)@,
            },
    {
        let ghost pm = path.deep_view();
        if path.len() >= 1 && seg_is(&path[0], "skills") {
            if path.len() != 3 {
                return Err(PatchError::BadPathShape);
            }
            proof {
                assert(pm[2] == path@[2]@);
            }
            self.apply_field(&path[2], change)
        } else if path.len() >= 1 && seg_is(&path[0], "riposte_skill") {
            if path.len() != 2 {
                return Err(PatchError::BadPathShape);
            }
            proof {
                assert(pm[1] == path@[1]@);
            }
            self.apply_field(&path[1], change)
        } else {
            proof {
                if pm.len() >= 1 {
                    assert(pm[0] == path@[0]@);
                }
            }
            Err(PatchError::UnknownField)
        }
    }

    /// Applies one scalar edit given the field name itself.
    pub fn apply_field(&mut self, key: &String, change: &ItemChange) -> (r: Result<
        (),
        PatchError,
    >)
        ensures
            match skill_field_model(old(self)@, key@, change@) {
                Ok(s2) => r == Ok::<(), PatchError>(()) && final(self)@ == s2,
                Err(e) => r == Err::<(), PatchError>(e) && final(self)@ == old(self)@,
            },
    {
        if seg_is(key, "effects") {
            return Err(PatchError::BadPathShape);
        }
        match change {
            ItemChange::Put(Value::Text(v)) => {
                skill_other_put(&mut self.other, key, clone_string(v));
                Ok(())
            },
            ItemChange::Put(_) => Err(PatchError::BadValueKind),
            ItemChange::Removed => {
                skill_other_remove(&mut self.other, key);
                Ok(())
            },
        }
    }
}

/// The first underscore at or after `i`, or the length if none.
pub open spec fn first_underscore(s: Seq<char>, i: int) -> int
    decreases s.len() - i,
{
    if i < 0 || i >= s.len() {
        s.len() as int
    } else if s[i] == '_' {
        i
    } else {
        first_underscore(s, i + 1)
    }
}

pub proof fn lemma_first_underscore(s: Seq<char>, i: int)
    requires
        0 <= i <= s.len(),
    ensures
        i <= first_underscore(s, i) <= s.len(),
        first_underscore(s, i) < s.len() ==> s[first_underscore(s, i)] == '_',
        forall|j: int| i <= j < first_underscore(s, i) ==> s[j] != '_',
    decreases s.len() - i,
{
    if i < s.len() && s[i] != '_' {
        lemma_first_underscore(s, i + 1);
    }
}

/// The parse of a flattened skill key `name_level`: split at the first
/// underscore, the remainder read as a decimal level.
pub open spec fn parse_skill_key(s: Seq<char>) -> Option<(Seq<char>, i32)> {
    let i = first_underscore(s, 0);
    if i >= s.len() {
        None
    } else {
        match crate::strnum::parse_i32_model(s.skip(i + 1)) {
            Some(l) => Some((s.take(i), l)),
            None => None,
        }
    }
}

/// Parses a flattened skill key.
pub fn parse_skill_key_exec(s: &String) -> (r: Option<(String, i32)>)
    ensures
        match (r, parse_skill_key(s@)) {
            (Some((n1, l1)), Some((n2, l2))) => n1@ == n2 && l1 == l2,
            (None, None) => true,
            _ => false,
        },
{
    let len = vstd::string::StrSliceExecFns::unicode_len(s.as_str());
    proof {
        lemma_first_underscore(s@, 0);
    }
    match crate::strutil::find_char(s.as_str(), '_') {
        None => {
            proof {
                if first_underscore(s@, 0) < s@.len() {
                    assert(s@[first_underscore(s@, 0)] == '_');
                }
            }
            None
        },
        Some(i) => {
            proof {
                assert(first_underscore(s@, 0) == i) by {
                    if first_underscore(s@, 0) < i {
                        assert(s@[first_underscore(s@, 0)] != '_');
                        assert(s@[first_underscore(s@, 0)] == '_');
                    }
                    if i < first_underscore(s@, 0) {
                        assert(s@[i as int] != '_');
                    }
                }
            }
            let name = vstd::string::StrSliceExecFns::substring_char(s.as_str(), 0, i);
            let rest = vstd::string::StrSliceExecFns::substring_char(s.as_str(), i + 1, len);
            proof {
                assert(rest@ =~= s@.skip(i + 1));
                assert(name@ =~= s@.take(i as int));
            }
            match crate::strnum::parse_i32(rest) {
                Some(l) => Some((String::from_str(name), l)),
                None => None,
            }
        },
    }
}


/// What an edit of a named string collection does: the collection keyed `k`
/// (created empty if absent) is edited as a set with key `lk`.
pub open spec fn keyed_list_apply_model(
    s: Seq<(Seq<char>, Seq<Seq<char>>)>,
    k: Seq<char>,
    lk: Seq<char>,
    c: ChangeModel,
) -> Result<Seq<(Seq<char>, Seq<Seq<char>>)>, PatchError> {
    let cur = match crate::map::assoc_key_index(s, k) {
        Some(i) => s[i].1,
        None => Seq::empty(),
    };
    match patch_list_model(cur, lk, c) {
        Ok(l2) => Ok(
            match crate::map::assoc_key_index(s, k) {
                Some(i) => s.update(i, (k, l2)),
                None => s.push((k, l2)),
            },
        ),
        Err(e) => Err(e),
    }
}

/// Applies one set-valued edit to the collection keyed `k`, creating the
/// collection where absent. On a fatal condition nothing changes.
#[verifier::loop_isolation(false)]
pub fn keyed_list_apply(
    m: &mut Vec<(String, Vec<String>)>,
    k: &String,
    lk: &String,
    change: &ItemChange,
) -> (r: Result<(), PatchError>)
    ensures
        match keyed_list_apply_model(old(m).deep_view(), k@, lk@, change@) {
            Ok(m2) => r == Ok::<(), PatchError>(()) && final(m).deep_view() == m2,
            Err(e) => r == Err::<(), PatchError>(e) && final(m).deep_view() == old(
                m,
            ).deep_view(),
        },
{
    let ghost mm = m.deep_view();
    proof {
        crate::map::lemma_assoc_key_index(mm, k@);
    }
    let mut i: usize = 0;
    let n = m.len();
    while i < n
        invariant
            n == mm.len(),
            mm == m.deep_view(),
            i <= n,
            forall|j: int| 0 <= j < i ==> mm[j].0 != k@,
        decreases n - i,
    {
        proof {
            assert(mm[i as int] == m@[i as int].deep_view());
        }
        if str_eq(m[i].0.as_str(), k.as_str()) {
            proof {
                match crate::map::assoc_key_index(mm, k@) {
                    Some(fi) => {
                        assert(fi == i);
                    },
                    None => {
                        assert(mm[i as int].0 != k@);
                    },
                }
            }
            let mut cur = crate::strutil::clone_path(&m[i].1);
            match patch_list_key(&mut cur, lk, change) {
                Ok(_) => {
                    let kc = clone_string(&m[i].0);
                    m.set(i, (kc, cur));
                    proof {
                        assert(m.deep_view() =~= mm.update(
                            i as int,
                            (k@, patch_list_model(mm[i as int].1, lk@, change@).unwrap()),
                        ));
                    }
                    return Ok(());
                },
                Err(e) => {
                    return Err(e);
                },
            }
        }
        i += 1;
    }
    let mut cur: Vec<String> = Vec::new();
    proof {
        assert(cur.deep_view() =~= Seq::<Seq<char>>::empty());
    }
    match patch_list_key(&mut cur, lk, change) {
        Ok(_) => {
            m.push((clone_string(k), cur));
            proof {
                assert(m.deep_view() =~= mm.push(
                    (k@, patch_list_model(Seq::empty(), lk@, change@).unwrap()),
                ));
            }
            Ok(())
        },
        Err(e) => Err(e),
    }
}

/// What a skill-bank edit does: the key parses as `name_level` and must name
/// a loaded skill; the third segment is the scalar field edited.
pub open spec fn skills_apply_model(
    ss: crate::hero::SkillsModel,
    path: Seq<Seq<char>>,
    c: ChangeModel,
) -> Result<crate::hero::SkillsModel, PatchError> {
    if path.len() != 3 {
        Err(PatchError::BadPathShape)
    } else if path[0] != "skills"@ {
        Err(PatchError::UnknownField)
    } else {
        match parse_skill_key(path[1]) {
            None => Err(PatchError::BadPathShape),
            Some((nm, lv)) => match crate::map::assoc_key_index(ss, (nm, lv)) {
                None => Err(PatchError::MissingKey),
                Some(i) => match skill_field_model(ss[i].1, path[2], c) {
                    Ok(s2) => Ok(ss.update(i, (ss[i].0, s2))),
                    Err(e) => Err(e),
                },
            },
        }
    }
}

impl crate::hero::Skills {
    /// Applies one scalar edit to the bank, exactly as `skills_apply_model`
    /// says; patches may only touch skills the record holds.
    #[verifier::loop_isolation(false)]
    pub fn apply(&mut self, path: &Vec<String>, change: &ItemChange) -> (r: Result<
        (),
        PatchError,
    >)
        ensures
            match skills_apply_model(old(self)@, path.deep_view(), change@) {
                Ok(s2) => r == Ok::<(), PatchError>(()) && final(self)@ == s2,
                Err(e) => r == Err::<(), PatchError>(e) && final(self)@ == old(self)@,
            },
    {
        let ghost ss = self@;
        let ghost pm = path.deep_view();
        if path.len() != 3 {
            return Err(PatchError::BadPathShape);
        }
        proof {
            assert(pm[0] == path@[0]@);
            assert(pm[1] == path@[1]@);
            assert(pm[2] == path@[2]@);
        }
        if !seg_is(&path[0], "skills") {
            return Err(PatchError::UnknownField);
        }
        let (nm, lv) = match parse_skill_key_exec(&path[1]) {
            None => {
                return Err(PatchError::BadPathShape);
            },
            Some(k) => k,
        };
        let ghost key = (nm@, lv);
        proof {
            crate::map::lemma_assoc_key_index(ss, key);
        }
        let mut i: usize = 0;
        let n = self.0.len();
        while i < n
            invariant
                n == ss.len(),
                ss == self@,
                i <= n,
                forall|j: int| 0 <= j < i ==> ss[j].0 != key,
            decreases n - i,
        {
            proof {
                assert(ss[i as int] == self.0@[i as int].deep_view());
            }
            if str_eq(self.0[i].0.0.as_str(), nm.as_str()) && self.0[i].0.1 == lv {
                proof {
                    assert(ss[i as int].0 == key);
                    match crate::map::assoc_key_index(ss, key) {
                        Some(fi) => {
                            assert(fi == i);
                        },
                        None => {
                            assert(ss[i as int].0 != key);
                        },
                    }
                }
                let mut sk = self.0[i].1.dup();
                match sk.apply_field(&path[2], change) {
                    Ok(_) => {
                        let kc = (clone_string(&self.0[i].0.0), self.0[i].0.1);
                        proof {
                            assert(kc.deep_view() == ss[i as int].0);
                        }
                        self.0.set(i, (kc, sk));
                        proof {
                            assert(self@ =~= ss.update(
                                i as int,
                                (
                                    ss[i as int].0,
                                    skill_field_model(ss[i as int].1, pm[2], change@).unwrap(),
                                ),
                            ));
                        }
                        return Ok(());
                    },
                    Err(e) => {
                        return Err(e);
                    },
                }
            }
            i += 1;
        }
        Err(PatchError::MissingKey)
    }
}

/// What an edit of the death's door block does: the second segment names one
/// of the three buff lists, edited as a set keyed by the third segment.
pub open spec fn deaths_door_apply_model(
    d: crate::hero::DeathsDoorModel,
    path: Seq<Seq<char>>,
    c: ChangeModel,
) -> Result<crate::hero::DeathsDoorModel, PatchError> {
    if path.len() != 3 {
        Err(PatchError::BadPathShape)
    } else if path[0] != "deaths_door"@ {
        Err(PatchError::UnknownField)
    } else if path[1] == "buffs"@ {
        match patch_list_model(d.buffs, path[2], c) {
            Ok(l2) => Ok(crate::hero::DeathsDoorModel { buffs: l2, ..d }),
            Err(e) => Err(e),
        }
    } else if path[1] == "recovery_buffs"@ {
        match patch_list_model(d.recovery_buffs, path[2], c) {
            Ok(l2) => Ok(crate::hero::DeathsDoorModel { recovery_buffs: l2, ..d }),
            Err(e) => Err(e),
        }
    } else if path[1] == "recovery_heart_attack_buffs"@ {
        match patch_list_model(d.recovery_heart_attack_buffs, path[2], c) {
            Ok(l2) => Ok(crate::hero::DeathsDoorModel { recovery_heart_attack_buffs: l2, ..d }),
            Err(e) => Err(e),
        }
    } else {
        Err(PatchError::UnknownField)
    }
}

impl crate::hero::DeathsDoor {
    /// An explicit copy with a contract.
    pub fn dup(&self) -> (r: crate::hero::DeathsDoor)
        ensures
            r@ == self@,
    {
        crate::hero::DeathsDoor {
            buffs: crate::strutil::clone_path(&self.buffs),
            recovery_buffs: crate::strutil::clone_path(&self.recovery_buffs),
            recovery_heart_attack_buffs: crate::strutil::clone_path(
                &self.recovery_heart_attack_buffs,
            ),
        }
    }

    /// Applies one set-valued edit, exactly as `deaths_door_apply_model`
    /// says.
    pub fn apply(&mut self, path: &Vec<String>, change: &ItemChange) -> (r: Result<
        (),
        PatchError,
    >)
        ensures
            match deaths_door_apply_model(old(self)@, path.deep_view(), change@) {
                Ok(d2) => r == Ok::<(), PatchError>(()) && final(self)@ == d2,
                Err(e) => r == Err::<(), PatchError>(e) && final(self)@ == old(self)@,
            },
    {
        if path.len() != 3 {
            return Err(PatchError::BadPathShape);
        }
        proof {
            assert(path.deep_view()[0] == path@[0]@);
            assert(path.deep_view()[1] == path@[1]@);
            assert(path.deep_view()[2] == path@[2]@);
        }
        if !seg_is(&path[0], "deaths_door") {
            return Err(PatchError::UnknownField);
        }
        if seg_is(&path[1], "buffs") {
            patch_list_key(&mut self.buffs, &path[2], change)
        } else if seg_is(&path[1], "recovery_buffs") {
            patch_list_key(&mut self.recovery_buffs, &path[2], change)
        } else if seg_is(&path[1], "recovery_heart_attack_buffs") {
            patch_list_key(&mut self.recovery_heart_attack_buffs, &path[2], change)
        } else {
            Err(PatchError::UnknownField)
        }
    }
}

/// What an edit of one mode does: the third segment names the collection
/// (created where absent), the fourth the keyed string.
pub open spec fn mode_apply_model(
    m: crate::hero::ModeModel,
    path: Seq<Seq<char>>,
    c: ChangeModel,
) -> Result<crate::hero::ModeModel, PatchError> {
    if path.len() != 4 {
        Err(PatchError::BadPathShape)
    } else if path[0] != "modes"@ {
        Err(PatchError::UnknownField)
    } else {
        keyed_list_apply_model(m, path[2], path[3], c)
    }
}

impl crate::hero::Mode {
    /// An explicit copy with a contract.
    pub fn dup(&self) -> (r: crate::hero::Mode)
        ensures
            r@ == self@,
    {
        crate::hero::Mode(clone_keyed_lists(&self.0))
    }

    /// Applies one set-valued edit, exactly as `mode_apply_model` says.
    pub fn apply(&mut self, path: &Vec<String>, change: &ItemChange) -> (r: Result<
        (),
        PatchError,
    >)
        ensures
            match mode_apply_model(old(self)@, path.deep_view(), change@) {
                Ok(m2) => r == Ok::<(), PatchError>(()) && final(self)@ == m2,
                Err(e) => r == Err::<(), PatchError>(e) && final(self)@ == old(self)@,
            },
    {
        if path.len() != 4 {
            return Err(PatchError::BadPathShape);
        }
        proof {
            assert(path.deep_view()[0] == path@[0]@);
            assert(path.deep_view()[2] == path@[2]@);
            assert(path.deep_view()[3] == path@[3]@);
        }
        if !seg_is(&path[0], "modes") {
            return Err(PatchError::UnknownField);
        }
        keyed_list_apply(&mut self.0, &path[2], &path[3], change)
    }
}

/// What a mode-bank edit does: the second segment must name a loaded mode.
pub open spec fn modes_apply_model(
    ms: crate::hero::ModesModel,
    path: Seq<Seq<char>>,
    c: ChangeModel,
) -> Result<crate::hero::ModesModel, PatchError> {
    if path.len() != 4 {
        Err(PatchError::BadPathShape)
    } else if path[0] != "modes"@ {
        Err(PatchError::UnknownField)
    } else {
        match crate::map::assoc_key_index(ms, path[1]) {
            None => Err(PatchError::MissingKey),
            Some(i) => match mode_apply_model(ms[i].1, path, c) {
                Ok(m2) => Ok(ms.update(i, (ms[i].0, m2))),
                Err(e) => Err(e),
            },
        }
    }
}

impl crate::hero::Modes {
    /// Applies one edit to the bank, exactly as `modes_apply_model` says;
    /// patches may only touch modes the record holds.
    #[verifier::loop_isolation(false)]
    pub fn apply(&mut self, path: &Vec<String>, change: &ItemChange) -> (r: Result<
        (),
        PatchError,
    >)
        ensures
            match modes_apply_model(old(self)@, path.deep_view(), change@) {
                Ok(m2) => r == Ok::<(), PatchError>(()) && final(self)@ == m2,
                Err(e) => r == Err::<(), PatchError>(e) && final(self)@ == old(self)@,
            },
    {
        let ghost ms = self@;
        let ghost pm = path.deep_view();
        if path.len() != 4 {
            return Err(PatchError::BadPathShape);
        }
        proof {
            assert(pm[0] == path@[0]@);
            assert(pm[1] == path@[1]@);
        }
        if !seg_is(&path[0], "modes") {
            return Err(PatchError::UnknownField);
        }
        proof {
            crate::map::lemma_assoc_key_index(ms, pm[1]);
        }
        let mut i: usize = 0;
        let n = self.0.len();
        while i < n
            invariant
                n == ms.len(),
                ms == self@,
                i <= n,
                forall|j: int| 0 <= j < i ==> ms[j].0 != pm[1],
            decreases n - i,
        {
            proof {
                assert(ms[i as int] == self.0@[i as int].deep_view());
            }
            if str_eq(self.0[i].0.as_str(), path[1].as_str()) {
                proof {
                    match crate::map::assoc_key_index(ms, pm[1]) {
                        Some(fi) => {
                            assert(fi == i);
                        },
                        None => {
                            assert(ms[i as int].0 != pm[1]);
                        },
                    }
                }
                let mut md = self.0[i].1.dup();
                match md.apply(path, change) {
                    Ok(_) => {
                        let kc = clone_string(&self.0[i].0);
                        self.0.set(i, (kc, md));
                        proof {
                            assert(self@ =~= ms.update(
                                i as int,
                                (ms[i as int].0, mode_apply_model(ms[i as int].1, pm, change@).unwrap()),
                            ));
                        }
                        return Ok(());
                    },
                    Err(e) => {
                        return Err(e);
                    },
                }
            }
            i += 1;
        }
        Err(PatchError::MissingKey)
    }
}

/// What an incompatibility edit does: the second segment keys the list
/// (created where absent), the third the keyed string.
pub open spec fn incompat_apply_model(
    t: crate::hero::IncompatibilitiesModel,
    path: Seq<Seq<char>>,
    c: ChangeModel,
) -> Result<crate::hero::IncompatibilitiesModel, PatchError> {
    if path.len() != 3 {
        Err(PatchError::BadPathShape)
    } else if path[0] != "incompatible_party_member"@ {
        Err(PatchError::UnknownField)
    } else {
        keyed_list_apply_model(t, path[1], path[2], c)
    }
}

impl crate::hero::Incompatibilities {
    /// An explicit copy with a contract.
    pub fn dup(&self) -> (r: crate::hero::Incompatibilities)
        ensures
            r@ == self@,
    {
        crate::hero::Incompatibilities(clone_keyed_lists(&self.0))
    }

    /// Applies one set-valued edit, exactly as `incompat_apply_model` says.
    pub fn apply(&mut self, path: &Vec<String>, change: &ItemChange) -> (r: Result<
        (),
        PatchError,
    >)
        ensures
            match incompat_apply_model(old(self)@, path.deep_view(), change@) {
                Ok(t2) => r == Ok::<(), PatchError>(()) && final(self)@ == t2,
                Err(e) => r == Err::<(), PatchError>(e) && final(self)@ == old(self)@,
            },
    {
        if path.len() != 3 {
            return Err(PatchError::BadPathShape);
        }
        proof {
            assert(path.deep_view()[0] == path@[0]@);
            assert(path.deep_view()[1] == path@[1]@);
            assert(path.deep_view()[2] == path@[2]@);
        }
        if !seg_is(&path[0], "incompatible_party_member") {
            return Err(PatchError::UnknownField);
        }
        keyed_list_apply(&mut self.0, &path[1], &path[2], change)
    }
}

/// What a death-reaction edit does: the reactions form one set.
pub open spec fn death_reaction_apply_model(
    d: Seq<Seq<char>>,
    path: Seq<Seq<char>>,
    c: ChangeModel,
) -> Result<Seq<Seq<char>>, PatchError> {
    if path.len() != 2 {
        Err(PatchError::BadPathShape)
    } else if path[0] != "death_reaction"@ {
        Err(PatchError::UnknownField)
    } else {
        patch_list_model(d, path[1], c)
    }
}

impl crate::hero::DeathReaction {
    /// An explicit copy with a contract.
    pub fn dup(&self) -> (r: crate::hero::DeathReaction)
        ensures
            r@ == self@,
    {
        crate::hero::DeathReaction(crate::strutil::clone_path(&self.0))
    }

    /// Applies one set-valued edit, exactly as `death_reaction_apply_model`
    /// says.
    pub fn apply(&mut self, path: &Vec<String>, change: &ItemChange) -> (r: Result<
        (),
        PatchError,
    >)
        ensures
            match death_reaction_apply_model(old(self)@, path.deep_view(), change@) {
                Ok(d2) => r == Ok::<(), PatchError>(()) && final(self)@ == d2,
                Err(e) => r == Err::<(), PatchError>(e) && final(self)@ == old(self)@,
            },
    {
        if path.len() != 2 {
            return Err(PatchError::BadPathShape);
        }
        proof {
            assert(path.deep_view()[0] == path@[0]@);
            assert(path.deep_view()[1] == path@[1]@);
        }
        if !seg_is(&path[0], "death_reaction") {
            return Err(PatchError::UnknownField);
        }
        patch_list_key(&mut self.0, &path[1], change)
    }
}

/// What a catch-all extension edit does: the second and third segments form
/// the key pair (created where absent), the fourth the keyed string.
pub open spec fn other_apply_model(
    o: crate::hero::OtherModel,
    path: Seq<Seq<char>>,
    c: ChangeModel,
) -> Result<crate::hero::OtherModel, PatchError> {
    if path.len() != 4 {
        Err(PatchError::BadPathShape)
    } else {
        let k = (path[1], path[2]);
        let cur = match crate::map::assoc_key_index(o, k) {
            Some(i) => o[i].1,
            None => Seq::empty(),
        };
        match patch_list_model(cur, path[3], c) {
            Ok(l2) => Ok(
                match crate::map::assoc_key_index(o, k) {
                    Some(i) => o.update(i, (k, l2)),
                    None => o.push((k, l2)),
                },
            ),
            Err(e) => Err(e),
        }
    }
}

/// Applies one catch-all extension edit.
#[verifier::loop_isolation(false)]
pub fn other_apply(
    o: &mut Vec<((String, String), Vec<String>)>,
    path: &Vec<String>,
    change: &ItemChange,
) -> (r: Result<(), PatchError>)
    ensures
        match other_apply_model(old(o).deep_view(), path.deep_view(), change@) {
            Ok(o2) => r == Ok::<(), PatchError>(()) && final(o).deep_view() == o2,
            Err(e) => r == Err::<(), PatchError>(e) && final(o).deep_view() == old(
                o,
            ).deep_view(),
        },
{
    let ghost om = o.deep_view();
    let ghost pm = path.deep_view();
    if path.len() != 4 {
        return Err(PatchError::BadPathShape);
    }
    proof {
        assert(pm[1] == path@[1]@);
        assert(pm[2] == path@[2]@);
        assert(pm[3] == path@[3]@);
        crate::map::lemma_assoc_key_index(om, (pm[1], pm[2]));
    }
    let ghost key = (pm[1], pm[2]);
    let mut i: usize = 0;
    let n = o.len();
    while i < n
        invariant
            n == om.len(),
            om == o.deep_view(),
            i <= n,
            forall|j: int| 0 <= j < i ==> om[j].0 != key,
        decreases n - i,
    {
        proof {
            assert(om[i as int] == o@[i as int].deep_view());
        }
        if str_eq(o[i].0.0.as_str(), path[1].as_str()) && str_eq(
            o[i].0.1.as_str(),
            path[2].as_str(),
        ) {
            proof {
                assert(om[i as int].0 == key);
                match crate::map::assoc_key_index(om, key) {
                    Some(fi) => {
                        assert(fi == i);
                    },
                    None => {
                        assert(om[i as int].0 != key);
                    },
                }
            }
            let mut cur = crate::strutil::clone_path(&o[i].1);
            match patch_list_key(&mut cur, &path[3], change) {
                Ok(_) => {
                    let kc = (clone_string(&o[i].0.0), clone_string(&o[i].0.1));
                    o.set(i, (kc, cur));
                    proof {
                        assert(o.deep_view() =~= om.update(
                            i as int,
                            (key, patch_list_model(om[i as int].1, pm[3], change@).unwrap()),
                        ));
                    }
                    return Ok(());
                },
                Err(e) => {
                    return Err(e);
                },
            }
        }
        i += 1;
    }
    let mut cur: Vec<String> = Vec::new();
    proof {
        assert(cur.deep_view() =~= Seq::<Seq<char>>::empty());
    }
    match patch_list_key(&mut cur, &path[3], change) {
        Ok(_) => {
            o.push(((clone_string(&path[1]), clone_string(&path[2])), cur));
            proof {
                assert(o.deep_view() =~= om.push(
                    (key, patch_list_model(Seq::empty(), pm[3], change@).unwrap()),
                ));
            }
            Ok(())
        },
        Err(e) => Err(e),
    }
}


/// Whether a path addresses a chain field. Chain paths are handled before
/// generic dispatch, never pointwise: a chain's shape cannot be derived from
/// single-path edits processed independently.
pub open spec fn is_chain_path(p: Seq<Seq<char>>) -> bool {
    ||| (p.len() >= 3 && p[0] == "skills"@ && p[2] == "effects"@)
    ||| (p.len() >= 2 && p[0] == "riposte_skill"@ && p[1] == "effects"@)
}

pub fn is_chain_path_exec(p: &Vec<String>) -> (r: bool)
    ensures
        r == is_chain_path(p.deep_view()),
{
    proof {
        if p.deep_view().len() >= 1 {
            assert(p.deep_view()[0] == p@[0]@);
        }
        if p.deep_view().len() >= 2 {
            assert(p.deep_view()[1] == p@[1]@);
        }
        if p.deep_view().len() >= 3 {
            assert(p.deep_view()[2] == p@[2]@);
        }
    }
    (p.len() >= 3 && seg_is(&p[0], "skills") && seg_is(&p[2], "effects")) || (p.len() >= 2
        && seg_is(&p[0], "riposte_skill") && seg_is(&p[1], "effects"))
}

/// A chain edit is skipped by generic dispatch, but it must still name an
/// entity the record holds.
pub open spec fn chain_entry_check(
    ss: crate::hero::SkillsModel,
    p: Seq<Seq<char>>,
) -> Option<PatchError> {
    if p.len() >= 3 && p[0] == "skills"@ && p[2] == "effects"@ {
        match parse_skill_key(p[1]) {
            None => Some(PatchError::BadPathShape),
            Some(k) => match crate::map::assoc_key_index(ss, k) {
                Some(_) => None,
                None => Some(PatchError::MissingKey),
            },
        }
    } else {
        None
    }
}

/// What one non-chain edit does to a hero record: dispatch by the first path
/// segment to the field's own edit model; an unknown first segment is fatal,
/// the field set being closed.
pub open spec fn hero_entry_model(
    h: crate::hero::HeroModel,
    p: Seq<Seq<char>>,
    c: ChangeModel,
) -> Result<crate::hero::HeroModel, PatchError> {
    if p.len() == 0 {
        Err(PatchError::BadPathShape)
    } else if p[0] == "resistances"@ {
        match res_apply_model(h.resistances, p, c) {
            Ok(r2) => Ok(crate::hero::HeroModel { resistances: r2, ..h }),
            Err(e) => Err(e),
        }
    } else if p[0] == "weapons"@ {
        match weapons_apply_model(h.weapons, p, c) {
            Ok(w2) => Ok(crate::hero::HeroModel { weapons: w2, ..h }),
            Err(e) => Err(e),
        }
    } else if p[0] == "armours"@ {
        match armours_apply_model(h.armours, p, c) {
            Ok(a2) => Ok(crate::hero::HeroModel { armours: a2, ..h }),
            Err(e) => Err(e),
        }
    } else if p[0] == "skills"@ {
        match skills_apply_model(h.skills, p, c) {
            Ok(s2) => Ok(crate::hero::HeroModel { skills: s2, ..h }),
            Err(e) => Err(e),
        }
    } else if p[0] == "riposte_skill"@ {
        match skill_apply_model(h.riposte_skill, p, c) {
            Ok(s2) => Ok(crate::hero::HeroModel { riposte_skill: s2, ..h }),
            Err(e) => Err(e),
        }
    } else if p[0] == "move_skill"@ {
        match move_apply_model(h.move_skill, p, c) {
            Ok(m2) => Ok(crate::hero::HeroModel { move_skill: m2, ..h }),
            Err(e) => Err(e),
        }
    } else if p[0] == "tags"@ {
        if p.len() != 2 {
            Err(PatchError::BadPathShape)
        } else {
            match patch_list_model(h.tags, p[1], c) {
                Ok(l2) => Ok(crate::hero::HeroModel { tags: l2, ..h }),
                Err(e) => Err(e),
            }
        }
    } else if p[0] == "extra_stack_limit"@ {
        if p.len() != 2 {
            Err(PatchError::BadPathShape)
        } else {
            match patch_list_model(h.extra_stack_limit, p[1], c) {
                Ok(l2) => Ok(crate::hero::HeroModel { extra_stack_limit: l2, ..h }),
                Err(e) => Err(e),
            }
        }
    } else if p[0] == "deaths_door"@ {
        match deaths_door_apply_model(h.deaths_door, p, c) {
            Ok(d2) => Ok(crate::hero::HeroModel { deaths_door: d2, ..h }),
            Err(e) => Err(e),
        }
    } else if p[0] == "modes"@ {
        match modes_apply_model(h.modes, p, c) {
            Ok(m2) => Ok(crate::hero::HeroModel { modes: m2, ..h }),
            Err(e) => Err(e),
        }
    } else if p[0] == "incompatible_party_member"@ {
        match incompat_apply_model(h.incompatible_party_member, p, c) {
            Ok(t2) => Ok(crate::hero::HeroModel { incompatible_party_member: t2, ..h }),
            Err(e) => Err(e),
        }
    } else if p[0] == "death_reaction"@ {
        match death_reaction_apply_model(h.death_reaction, p, c) {
            Ok(d2) => Ok(crate::hero::HeroModel { death_reaction: d2, ..h }),
            Err(e) => Err(e),
        }
    } else if p[0] == "other"@ {
        match other_apply_model(h.other, p, c) {
            Ok(o2) => Ok(crate::hero::HeroModel { other: o2, ..h }),
            Err(e) => Err(e),
        }
    } else {
        Err(PatchError::UnknownField)
    }
}

/// Applies one non-chain edit to a hero record, exactly as
/// `hero_entry_model` says.
pub fn hero_apply_entry(
    h: &mut crate::hero::HeroInfo,
    path: &Vec<String>,
    change: &ItemChange,
) -> (r: Result<(), PatchError>)
    ensures
        match hero_entry_model(old(h)@, path.deep_view(), change@) {
            Ok(h2) => r == Ok::<(), PatchError>(()) && final(h)@ == h2,
            Err(e) => r == Err::<(), PatchError>(e) && final(h)@ == old(h)@,
        },
{
    if path.len() == 0 {
        return Err(PatchError::BadPathShape);
    }
    proof {
        assert(path.deep_view()[0] == path@[0]@);
        if path.deep_view().len() >= 2 {
            assert(path.deep_view()[1] == path@[1]@);
        }
    }
    if seg_is(&path[0], "resistances") {
        h.resistances.apply(path, change)
    } else if seg_is(&path[0], "weapons") {
        h.weapons.apply(path, change)
    } else if seg_is(&path[0], "armours") {
        h.armours.apply(path, change)
    } else if seg_is(&path[0], "skills") {
        h.skills.apply(path, change)
    } else if seg_is(&path[0], "riposte_skill") {
        h.riposte_skill.apply(path, change)
    } else if seg_is(&path[0], "move_skill") {
        h.move_skill.apply(path, change)
    } else if seg_is(&path[0], "tags") {
        if path.len() != 2 {
            return Err(PatchError::BadPathShape);
        }
        patch_list_key(&mut h.tags, &path[1], change)
    } else if seg_is(&path[0], "extra_stack_limit") {
        if path.len() != 2 {
            return Err(PatchError::BadPathShape);
        }
        patch_list_key(&mut h.extra_stack_limit, &path[1], change)
    } else if seg_is(&path[0], "deaths_door") {
        h.deaths_door.apply(path, change)
    } else if seg_is(&path[0], "modes") {
        h.modes.apply(path, change)
    } else if seg_is(&path[0], "incompatible_party_member") {
        h.incompatible_party_member.apply(path, change)
    } else if seg_is(&path[0], "death_reaction") {
        h.death_reaction.apply(path, change)
    } else if seg_is(&path[0], "other") {
        other_apply(&mut h.other, path, change)
    } else {
        Err(PatchError::UnknownField)
    }
}

/// Folds the patch's non-chain entries over the record in patch order; chain
/// entries are skipped after checking they name a loaded skill.
pub open spec fn hero_entries_fold(
    h: crate::hero::HeroModel,
    pm: Seq<crate::patch::PatchEntryModel>,
    i: int,
) -> Result<crate::hero::HeroModel, PatchError>
    decreases pm.len() - i,
{
    if i < 0 || i >= pm.len() {
        Ok(h)
    } else if is_chain_path(pm[i].0) {
        match chain_entry_check(h.skills, pm[i].0) {
            Some(e) => Err(e),
            None => hero_entries_fold(h, pm, i + 1),
        }
    } else {
        match hero_entry_model(h, pm[i].0, pm[i].1) {
            Ok(h2) => hero_entries_fold(h2, pm, i + 1),
            Err(e) => Err(e),
        }
    }
}

/// The skill bank after rebuilding the first `n` skills' effect chains.
pub open spec fn skills_chains(
    ss: crate::hero::SkillsModel,
    pm: Seq<crate::patch::PatchEntryModel>,
    n: int,
) -> Result<crate::hero::SkillsModel, PatchError>
    decreases n,
{
    if n <= 0 {
        Ok(Seq::empty())
    } else {
        match skills_chains(ss, pm, n - 1) {
            Err(e) => Err(e),
            Ok(acc) => {
                let prefix = seq![
                    "skills"@,
                    crate::hero_map::skill_key_str(ss[n - 1].0.0, ss[n - 1].0.1),
                    "effects"@,
                ];
                match crate::chain::chain_rebuild(ss[n - 1].1.effects, pm, prefix) {
                    Ok(es) => Ok(
                        acc.push(
                            (
                                ss[n - 1].0,
                                SkillModel { effects: es, other: ss[n - 1].1.other },
                            ),
                        ),
                    ),
                    Err(e) => Err(e),
                }
            },
        }
    }
}

/// What applying a whole patch does: chains are rebuilt first (each skill's
/// effect chain, then the riposte skill's), then every non-chain entry is
/// dispatched in patch order. Any fatal condition leaves the record as it
/// was: there is no partial application.
pub open spec fn hero_apply_model(
    h: crate::hero::HeroModel,
    pm: Seq<crate::patch::PatchEntryModel>,
) -> Result<crate::hero::HeroModel, PatchError> {
    match skills_chains(h.skills, pm, h.skills.len() as int) {
        Err(e) => Err(e),
        Ok(ss2) => match crate::chain::chain_rebuild(
            h.riposte_skill.effects,
            pm,
            seq!["riposte_skill"@, "effects"@],
        ) {
            Err(e) => Err(e),
            Ok(res) => hero_entries_fold(
                crate::hero::HeroModel {
                    skills: ss2,
                    riposte_skill: SkillModel { effects: res, other: h.riposte_skill.other },
                    ..h
                },
                pm,
                0,
            ),
        },
    }
}

/// A chain error on one skill persists through the rest of the bank.
pub proof fn lemma_skills_chains_err(
    ss: crate::hero::SkillsModel,
    pm: Seq<crate::patch::PatchEntryModel>,
    i: int,
    n: int,
    e: PatchError,
)
    requires
        0 <= i <= n,
        skills_chains(ss, pm, i) == Err::<crate::hero::SkillsModel, PatchError>(e),
    ensures
        skills_chains(ss, pm, n) == Err::<crate::hero::SkillsModel, PatchError>(e),
    decreases n - i,
{
    if i < n {
        lemma_skills_chains_err(ss, pm, i + 1, n, e);
    }
}

/// A copy of a weapon bank.
#[verifier::loop_isolation(false)]
pub fn copy_weapons(v: &Vec<Weapon>) -> (r: Vec<Weapon>)
    ensures
        r@ == v@,
{
    let mut r: Vec<Weapon> = Vec::new();
    let mut i: usize = 0;
    while i < v.len()
        invariant
            i <= v@.len(),
            r@ == v@.take(i as int),
        decreases v@.len() - i,
    {
        r.push(v[i]);
        i += 1;
        proof {
            assert(r@ =~= v@.take(i as int));
        }
    }
    proof {
        assert(v@.take(v@.len() as int) =~= v@);
    }
    r
}

/// A copy of an armour bank.
#[verifier::loop_isolation(false)]
pub fn copy_armours(v: &Vec<Armour>) -> (r: Vec<Armour>)
    ensures
        r@ == v@,
{
    let mut r: Vec<Armour> = Vec::new();
    let mut i: usize = 0;
    while i < v.len()
        invariant
            i <= v@.len(),
            r@ == v@.take(i as int),
        decreases v@.len() - i,
    {
        r.push(v[i]);
        i += 1;
        proof {
            assert(r@ =~= v@.take(i as int));
        }
    }
    proof {
        assert(v@.take(v@.len() as int) =~= v@);
    }
    r
}

/// A copy of the mode bank whose model is unchanged.
#[verifier::loop_isolation(false)]
pub fn clone_modes(v: &Vec<(String, crate::hero::Mode)>) -> (r: Vec<(String, crate::hero::Mode)>)
    ensures
        r.deep_view() == v.deep_view(),
{
    let mut r: Vec<(String, crate::hero::Mode)> = Vec::new();
    let mut i: usize = 0;
    while i < v.len()
        invariant
            i <= v@.len(),
            r@.len() == i,
            r.deep_view() == v.deep_view().take(i as int),
        decreases v@.len() - i,
    {
        proof {
            assert(v.deep_view()[i as int] == v@[i as int].deep_view());
        }
        r.push((clone_string(&v[i].0), v[i].1.dup()));
        i += 1;
        proof {
            assert(r.deep_view() =~= v.deep_view().take(i as int));
        }
    }
    proof {
        assert(v.deep_view().take(v@.len() as int) =~= v.deep_view());
    }
    r
}

/// A copy of the catch-all extension table whose model is unchanged.
#[verifier::loop_isolation(false)]
pub fn clone_other(v: &Vec<((String, String), Vec<String>)>) -> (r: Vec<
    ((String, String), Vec<String>),
>)
    ensures
        r.deep_view() == v.deep_view(),
{
    let mut r: Vec<((String, String), Vec<String>)> = Vec::new();
    let mut i: usize = 0;
    while i < v.len()
        invariant
            i <= v@.len(),
            r@.len() == i,
            r.deep_view() == v.deep_view().take(i as int),
        decreases v@.len() - i,
    {
        proof {
            assert(v.deep_view()[i as int] == v@[i as int].deep_view());
        }
        r.push(((clone_string(&v[i].0.0), clone_string(&v[i].0.1)), crate::strutil::clone_path(
            &v[i].1,
        )));
        i += 1;
        proof {
            assert(r.deep_view() =~= v.deep_view().take(i as int));
        }
    }
    proof {
        assert(v.deep_view().take(v@.len() as int) =~= v.deep_view());
    }
    r
}

impl crate::hero::HeroInfo {
    /// Applies a resolved patch to the record in place. Chains are rebuilt
    /// first, then every other entry dispatches by its first path segment.
    /// Either the whole patch applies, or the first fatal condition is
    /// reported and the record is left untouched.
    #[verifier::loop_isolation(false)]
    pub fn apply_patch(&mut self, patch: &crate::patch::Patch) -> (r: Result<(), PatchError>)
        ensures
            match hero_apply_model(old(self)@, patch@) {
                Ok(h2) => r == Ok::<(), PatchError>(()) && final(self)@ == h2,
                Err(e) => r == Err::<(), PatchError>(e) && final(self)@ == old(self)@,
            },
    {
        let ghost h0 = self@;
        let ghost pm = patch@;
        let ghost ss = self@.skills;
        proof {
            reveal_strlit("skills");
            reveal_strlit("effects");
            reveal_strlit("riposte_skill");
        }
        // rebuild each skill's effect chain into a fresh bank
        let mut new_skills: Vec<((String, i32), crate::hero::Skill)> = Vec::new();
        let mut i: usize = 0;
        let n = self.skills.0.len();
        proof {
            assert(new_skills.deep_view() =~= Seq::<
                ((Seq<char>, i32), SkillModel),
            >::empty());
        }
        while i < n
            invariant
                n == ss.len(),
                ss == self@.skills,
                pm == patch@,
                i <= n,
                skills_chains(ss, pm, i as int) == Ok::<crate::hero::SkillsModel, PatchError>(
                    new_skills.deep_view(),
                ),
            decreases n - i,
        {
            proof {
                assert(ss[i as int] == self.skills.0@[i as int].deep_view());
            }
            let key_str = crate::hero_map::skill_key_string(
                &self.skills.0[i].0.0,
                self.skills.0[i].0.1,
            );
            let mut prefix: Vec<String> = Vec::new();
            prefix.push(String::from_str("skills"));
            prefix.push(key_str);
            prefix.push(String::from_str("effects"));
            let ghost pfx = seq![
                "skills"@,
                crate::hero_map::skill_key_str(ss[i as int].0.0, ss[i as int].0.1),
                "effects"@,
            ];
            proof {
                assert(prefix.deep_view() =~= pfx);
            }
            match crate::chain::rebuild_chain(&self.skills.0[i].1.effects, patch, &prefix) {
                Ok(es) => {
                    let sk = crate::hero::Skill {
                        effects: es,
                        other: clone_string_pairs(&self.skills.0[i].1.other),
                    };
                    let kc = (clone_string(&self.skills.0[i].0.0), self.skills.0[i].0.1);
                    let ghost before = new_skills.deep_view();
                    new_skills.push((kc, sk));
                    i += 1;
                    proof {
                        assert(new_skills.deep_view() =~= before.push(
                            (
                                ss[i - 1].0,
                                SkillModel {
                                    effects: crate::chain::chain_rebuild(
                                        ss[i - 1].1.effects,
                                        pm,
                                        pfx,
                                    ).unwrap(),
                                    other: ss[i - 1].1.other,
                                },
                            ),
                        ));
                    }
                },
                Err(e) => {
                    proof {
                        lemma_skills_chains_err(ss, pm, i as int + 1, n as int, e);
                    }
                    return Err(e);
                },
            }
        }
        // rebuild the riposte skill's chain
        let mut rprefix: Vec<String> = Vec::new();
        rprefix.push(String::from_str("riposte_skill"));
        rprefix.push(String::from_str("effects"));
        proof {
            assert(rprefix.deep_view() =~= seq!["riposte_skill"@, "effects"@]);
        }
        let new_riposte = match crate::chain::rebuild_chain(
            &self.riposte_skill.effects,
            patch,
            &rprefix,
        ) {
            Ok(es) => crate::hero::Skill {
                effects: es,
                other: clone_string_pairs(&self.riposte_skill.other),
            },
            Err(e) => {
                return Err(e);
            },
        };
        // assemble the chained record and dispatch the remaining entries
        let mut work = crate::hero::HeroInfo {
            id: clone_string(&self.id),
            resistances: self.resistances,
            weapons: Weapons(copy_weapons(&self.weapons.0)),
            armours: Armours(copy_armours(&self.armours.0)),
            skills: crate::hero::Skills(new_skills),
            riposte_skill: new_riposte,
            move_skill: self.move_skill,
            tags: crate::strutil::clone_path(&self.tags),
            extra_stack_limit: crate::strutil::clone_path(&self.extra_stack_limit),
            deaths_door: self.deaths_door.dup(),
            modes: crate::hero::Modes(clone_modes(&self.modes.0)),
            incompatible_party_member: self.incompatible_party_member.dup(),
            death_reaction: self.death_reaction.dup(),
            other: clone_other(&self.other),
        };
        let ghost h1 = crate::hero::HeroModel {
            skills: skills_chains(h0.skills, pm, h0.skills.len() as int).unwrap(),
            riposte_skill: SkillModel {
                effects: crate::chain::chain_rebuild(
                    h0.riposte_skill.effects,
                    pm,
                    seq!["riposte_skill"@, "effects"@],
                ).unwrap(),
                other: h0.riposte_skill.other,
            },
            ..h0
        };
        proof {
            assert(work@ == h1);
        }
        let mut j: usize = 0;
        let pn = patch.len();
        while j < pn
            invariant
                pn == pm.len(),
                pm == patch@,
                j <= pn,
                hero_entries_fold(h1, pm, 0) == hero_entries_fold(work@, pm, j as int),
            decreases pn - j,
        {
            let entry = patch.entry_at(j);
            proof {
                assert(entry.deep_view() == pm[j as int]);
                assert(entry.0.deep_view() == pm[j as int].0);
                assert(entry.1.deep_view() == pm[j as int].1);
            }
            if is_chain_path_exec(&entry.0) {
                // a chain edit: already folded into the chain rebuild, but it
                // must name a loaded skill
                proof {
                    if entry.0.deep_view().len() >= 3 {
                        assert(entry.0.deep_view()[1] == entry.0@[1]@);
                    }
                    assert(entry.0.deep_view()[0] == entry.0@[0]@);
                }
                if seg_is(&entry.0[0], "skills") {
                    match parse_skill_key_exec(&entry.0[1]) {
                        None => {
                            return Err(PatchError::BadPathShape);
                        },
                        Some((nm, lv)) => {
                            proof {
                                crate::map::lemma_assoc_key_index(work@.skills, (nm@, lv));
                            }
                            let mut found = false;
                            let mut t: usize = 0;
                            let sn = work.skills.0.len();
                            while t < sn
                                invariant
                                    sn == work@.skills.len(),
                                    t <= sn,
                                    found ==> crate::map::assoc_key_index(
                                        work@.skills,
                                        (nm@, lv),
                                    ) is Some,
                                    !found ==> forall|u: int|
                                        0 <= u < t ==> work@.skills[u].0 != (nm@, lv),
                                decreases sn - t,
                            {
                                proof {
                                    assert(work@.skills[t as int] == work.skills.0@[
                                        t as int].deep_view());
                                }
                                if !found && str_eq(
                                    work.skills.0[t].0.0.as_str(),
                                    nm.as_str(),
                                ) && work.skills.0[t].0.1 == lv {
                                    proof {
                                        assert(work@.skills[t as int].0 == (nm@, lv));
                                        match crate::map::assoc_key_index(
                                            work@.skills,
                                            (nm@, lv),
                                        ) {
                                            Some(_) => {},
                                            None => {
                                                assert(work@.skills[t as int].0 != (nm@, lv));
                                            },
                                        }
                                    }
                                    found = true;
                                }
                                t += 1;
                            }
                            if !found {
                                proof {
                                    match crate::map::assoc_key_index(work@.skills, (nm@, lv)) {
                                        Some(fi) => {
                                            assert(work@.skills[fi].0 != (nm@, lv));
                                        },
                                        None => {},
                                    }
                                }
                                return Err(PatchError::MissingKey);
                            }
                        },
                    }
                }
                j += 1;
            } else {
                match hero_apply_entry(&mut work, &entry.0, &entry.1) {
                    Ok(_) => {
                        j += 1;
                    },
                    Err(e) => {
                        return Err(e);
                    },
                }
            }
        }
        proof {
            assert(hero_entries_fold(work@, pm, pn as int) == Ok::<
                crate::hero::HeroModel,
                PatchError,
            >(work@));
        }
        *self = work;
        Ok(())
    }
}

} // verus!
