use vstd::prelude::*;
use crate::map::{assoc_lookup, PathMap, PathModel};
use crate::patch::{Patch, PatchEntryModel, PatchError};
use crate::strutil::{clone_path, clone_string, str_eq};
use crate::value::{ChangeModel, ItemChange, Value, ValueModel};

verus! {

/// The first position of `x` in `l`, if any.
pub open spec fn first_index(l: Seq<Seq<char>>, x: Seq<char>) -> Option<int>
    decreases l.len(),
{
    if l.len() == 0 {
        None
    } else if l[0] == x {
        Some(0int)
    } else {
        match first_index(l.drop_first(), x) {
            Some(i) => Some(i + 1),
            None => None,
        }
    }
}

pub proof fn lemma_first_index(l: Seq<Seq<char>>, x: Seq<char>)
    ensures
        match first_index(l, x) {
            Some(i) => 0 <= i < l.len() && l[i] == x && forall|j: int| 0 <= j < i ==> l[j] != x,
            None => forall|j: int| 0 <= j < l.len() ==> l[j] != x,
        },
    decreases l.len(),
{
    if l.len() > 0 && l[0] != x {
        lemma_first_index(l.drop_first(), x);
        match first_index(l.drop_first(), x) {
            Some(i) => {
                assert(l.drop_first()[i] == l[i + 1]);
                assert forall|j: int| 0 <= j < i + 1 implies l[j] != x by {
                    if j > 0 {
                        assert(l.drop_first()[j - 1] != x);
                    }
                }
            },
            None => {
                assert forall|j: int| 0 <= j < l.len() implies l[j] != x by {
                    if j > 0 {
                        assert(l.drop_first()[j - 1] != x);
                    }
                }
            },
        }
    }
}

/// What follows `prev` in a patched chain: the patch entry keyed by `prev`
/// decides; absent one, the element after `prev` in the original sequence.
pub open spec fn next_effect_model(
    prev: Seq<char>,
    orig: Seq<Seq<char>>,
    pm: Seq<PatchEntryModel>,
    prefix: PathModel,
) -> Result<Option<Seq<char>>, PatchError> {
    match assoc_lookup(pm, prefix.push(prev)) {
        Some(ChangeModel::Removed) => Ok(None),
        Some(ChangeModel::Put(ValueModel::Text(e))) => Ok(Some(e)),
        Some(ChangeModel::Put(_)) => Err(PatchError::BadValueKind),
        None => match first_index(orig, prev) {
            Some(i) => if i + 1 < orig.len() {
                Ok(Some(orig[i + 1]))
            } else {
                Ok(None)
            },
            None => Ok(None),
        },
    }
}

/// The element that follows `prev` in the chain being rebuilt: a removal
/// keyed by `prev` ends the chain, a put names the successor, and without a
/// patch entry the original sequence decides. A put of a non-text value is
/// fatal: chain elements are strings.
#[verifier::loop_isolation(false)]
pub fn next_effect(
    prev: &String,
    orig_effects: &Vec<String>,
    patch: &Patch,
    prefix: &Vec<String>,
) -> (r: Result<Option<String>, PatchError>)
    ensures
        match (r, next_effect_model(
            prev@,
            orig_effects.deep_view(),
            patch@,
            prefix.deep_view(),
        )) {
            (Ok(Some(s)), Ok(Some(m))) => s@ == m,
            (Ok(None), Ok(None)) => true,
            (Err(e1), Err(e2)) => e1 == e2,
            _ => false,
        },
{
    let ghost om = orig_effects.deep_view();
    let mut key = clone_path(prefix);
    key.push(clone_string(prev));
    proof {
        assert(key.deep_view() =~= prefix.deep_view().push(prev@));
    }
    match patch.get(&key) {
        Some(c) => match c {
            ItemChange::Removed => Ok(None),
            ItemChange::Put(Value::Text(e)) => Ok(Some(clone_string(e))),
            ItemChange::Put(_) => Err(PatchError::BadValueKind),
        },
        None => {
            let mut i: usize = 0;
            let n = orig_effects.len();
            proof {
                lemma_first_index(om, prev@);
            }
            while i < n
                invariant
                    n == om.len(),
                    om == orig_effects.deep_view(),
                    i <= n,
                    forall|j: int| 0 <= j < i ==> om[j] != prev@,
                decreases n - i,
            {
                proof {
                    assert(om[i as int] == orig_effects@[i as int]@);
                }
                if str_eq(orig_effects[i].as_str(), prev.as_str()) {
                    proof {
                        match first_index(om, prev@) {
                            Some(fi) => {
                                assert(fi == i);
                            },
                            None => {
                                assert(om[i as int] != prev@);
                            },
                        }
                    }
                    if i + 1 < n {
                        proof {
                            assert(om[i as int + 1] == orig_effects@[i as int + 1]@);
                        }
                        return Ok(Some(clone_string(&orig_effects[i + 1])));
                    } else {
                        return Ok(None);
                    }
                }
                i += 1;
            }
            Ok(None)
        },
    }
}

/// Walking a chain from `cur` with limited fuel; running out of fuel means
/// the patch links the chain in a cycle.
pub open spec fn chain_walk(
    cur: Seq<char>,
    orig: Seq<Seq<char>>,
    pm: Seq<PatchEntryModel>,
    prefix: PathModel,
    fuel: nat,
) -> Result<Seq<Seq<char>>, PatchError>
    decreases fuel,
{
    if fuel == 0 {
        Err(PatchError::ChainCycle)
    } else {
        match next_effect_model(cur, orig, pm, prefix) {
            Err(e) => Err(e),
            Ok(None) => Ok(seq![cur]),
            Ok(Some(nxt)) => match chain_walk(nxt, orig, pm, prefix, (fuel - 1) as nat) {
                Err(e) => Err(e),
                Ok(rest) => Ok(seq![cur] + rest),
            },
        }
    }
}

/// What a chain looks like after a patch: an explicit removal of the start
/// marker empties the chain; a put there starts it; otherwise the original
/// first element starts it, and the chain is walked link by link.
pub open spec fn chain_rebuild(
    orig: Seq<Seq<char>>,
    pm: Seq<PatchEntryModel>,
    prefix: PathModel,
) -> Result<Seq<Seq<char>>, PatchError> {
    let fuel = (pm.len() + orig.len() + 1) as nat;
    match assoc_lookup(pm, prefix) {
        Some(ChangeModel::Removed) => Ok(Seq::empty()),
        Some(ChangeModel::Put(ValueModel::Text(e))) => chain_walk(e, orig, pm, prefix, fuel),
        Some(ChangeModel::Put(_)) => Err(PatchError::BadValueKind),
        None => if orig.len() == 0 {
            Ok(Seq::empty())
        } else {
            chain_walk(orig[0], orig, pm, prefix, fuel)
        },
    }
}

/// Rebuilds an ordered chain under the patch, without mutating anything; the
/// result either is the new sequence or names the fatal condition met.
#[verifier::loop_isolation(false)]
pub fn rebuild_chain(
    orig_effects: &Vec<String>,
    patch: &Patch,
    prefix: &Vec<String>,
) -> (r: Result<Vec<String>, PatchError>)
    ensures
        match (r, chain_rebuild(orig_effects.deep_view(), patch@, prefix.deep_view())) {
            (Ok(v), Ok(m)) => v.deep_view() == m,
            (Err(e1), Err(e2)) => e1 == e2,
            _ => false,
        },
{
    let ghost om = orig_effects.deep_view();
    let ghost pm = patch@;
    let ghost pfx = prefix.deep_view();
    let ghost fuel0 = (pm.len() + om.len() + 1) as nat;
    let start: String = match patch.get(prefix) {
        Some(c) => match c {
            ItemChange::Removed => {
                let empty: Vec<String> = Vec::new();
                proof {
                    assert(empty.deep_view() =~= Seq::<Seq<char>>::empty());
                }
                return Ok(empty);
            },
            ItemChange::Put(Value::Text(e)) => clone_string(e),
            ItemChange::Put(_) => {
                return Err(PatchError::BadValueKind);
            },
        },
        None => {
            if orig_effects.len() == 0 {
                let empty: Vec<String> = Vec::new();
                proof {
                    assert(empty.deep_view() =~= Seq::<Seq<char>>::empty());
                }
                return Ok(empty);
            }
            proof {
                assert(om[0] == orig_effects@[0]@);
            }
            clone_string(&orig_effects[0])
        },
    };
    let mut out: Vec<String> = Vec::new();
    let mut cur = start;
    let mut fuel: u128 = patch.len() as u128 + orig_effects.len() as u128 + 1;
    let ghost target = chain_walk(cur@, om, pm, pfx, fuel0);
    proof {
        assert(fuel as nat == fuel0);
        assert(out.deep_view() =~= Seq::<Seq<char>>::empty());
    }
    loop
        invariant
            om == orig_effects.deep_view(),
            pm == patch@,
            pfx == prefix.deep_view(),
            match chain_walk(cur@, om, pm, pfx, fuel as nat) {
                Ok(rest) => target == Ok::<Seq<Seq<char>>, PatchError>(out.deep_view() + rest),
                Err(e) => target == Err::<Seq<Seq<char>>, PatchError>(e),
            },
        decreases fuel,
    {
        if fuel == 0 {
            return Err(PatchError::ChainCycle);
        }
        let ghost out_before = out.deep_view();
        out.push(clone_string(&cur));
        proof {
            assert(out.deep_view() =~= out_before.push(cur@));
        }
        match next_effect(&cur, orig_effects, patch, prefix) {
            Err(e) => {
                return Err(e);
            },
            Ok(None) => {
                proof {
                    assert(chain_walk(cur@, om, pm, pfx, fuel as nat) == Ok::<
                        Seq<Seq<char>>,
                        PatchError,
                    >(seq![cur@]));
                    assert(out_before + seq![cur@] =~= out.deep_view());
                }
                return Ok(out);
            },
            Ok(Some(nxt)) => {
                proof {
                    let rest0 = chain_walk(nxt@, om, pm, pfx, (fuel - 1) as nat);
                    match rest0 {
                        Ok(rest) => {
                            assert(chain_walk(cur@, om, pm, pfx, fuel as nat) == Ok::<
                                Seq<Seq<char>>,
                                PatchError,
                            >(seq![cur@] + rest));
                            assert(out_before + (seq![cur@] + rest) =~= out.deep_view() + rest);
                        },
                        Err(e) => {
                            assert(chain_walk(cur@, om, pm, pfx, fuel as nat) == Err::<
                                Seq<Seq<char>>,
                                PatchError,
                            >(e));
                        },
                    }
                }
                cur = nxt;
                fuel = fuel - 1;
            },
        }
    }
}

/// Rebuilds a skill's effect chain in place. The scalar fields are
/// untouched; on a fatal condition nothing changes.
pub fn patch_skill_effects(
    skill: &mut crate::hero::Skill,
    patch: &Patch,
    prefix: &Vec<String>,
) -> (r: Result<(), PatchError>)
    ensures
        match chain_rebuild(old(skill)@.effects, patch@, prefix.deep_view()) {
            Ok(es) => r == Ok::<(), PatchError>(())
                && final(skill)@.effects == es
                && final(skill)@.other == old(skill)@.other,
            Err(e) => r == Err::<(), PatchError>(e) && final(skill)@ == old(skill)@,
        },
{
    match rebuild_chain(&skill.effects, patch, prefix) {
        Ok(es) => {
            skill.effects = es;
            Ok(())
        },
        Err(e) => Err(e),
    }
}

} // verus!
