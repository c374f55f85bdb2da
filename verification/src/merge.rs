use vstd::prelude::*;
use crate::map::{
    assoc_contains, assoc_distinct, assoc_lookup, lemma_lookup_at, lemma_lookup_push,
    lemma_lookup_some, PathMap, PathModel,
};
use crate::patch::{Conflicts, Contenders, Patch, SourceChange, SourceChangeModel};
use crate::strutil::{clone_path, clone_string};
use vstd::string::StringExecFns;
use crate::value::{ChangeModel, ItemChange};

verus! {

/// One (source, path, change) triple: one source's opinion about one path.
pub type TripleModel = (Seq<char>, PathModel, ChangeModel);

/// The triples of one source change-set, in submission order.
pub open spec fn triples_of(s: SourceChangeModel) -> Seq<TripleModel> {
    s.changes.map_values(|pc: (PathModel, ChangeModel)| (s.source, pc.0, pc.1))
}

/// All triples of the first `n` sources, sources in order.
pub open spec fn all_triples_upto(sm: Seq<SourceChangeModel>, n: int) -> Seq<TripleModel>
    decreases n,
{
    if n <= 0 {
        Seq::empty()
    } else {
        all_triples_upto(sm, n - 1) + triples_of(sm[n - 1])
    }
}

pub open spec fn all_triples(sm: Seq<SourceChangeModel>) -> Seq<TripleModel> {
    all_triples_upto(sm, sm.len() as int)
}

/// The contenders on one path: every (source, change) pair whose triple
/// names the path, in source-submission order.
pub open spec fn changes_at(ts: Seq<TripleModel>, p: PathModel) -> Seq<(Seq<char>, ChangeModel)> {
    ts.filter(|t: TripleModel| t.1 == p).map_values(|t: TripleModel| (t.0, t.2))
}

/// No two triples carry the same source name and path: what per-source path
/// uniqueness and distinct source names give.
pub open spec fn triples_unique(ts: Seq<TripleModel>) -> bool {
    forall|i: int, j: int|
        0 <= i < j < ts.len() ==> !((#[trigger] ts[i]).0 == (#[trigger] ts[j]).0 && ts[i].1
            == ts[j].1)
}

/// The well-formedness of a source list: distinct source names, and within
/// each source distinct paths (a patch holds each path at most once).
pub open spec fn sources_wf(sm: Seq<SourceChangeModel>) -> bool {
    &&& forall|i: int, j: int|
        0 <= i < j < sm.len() ==> (#[trigger] sm[i]).source != (#[trigger] sm[j]).source
    &&& forall|i: int| 0 <= i < sm.len() ==> assoc_distinct((#[trigger] sm[i]).changes)
}

/// Every triple of the first `n` sources carries one of their names.
proof fn lemma_all_triples_names(sm: Seq<SourceChangeModel>, n: int)
    requires
        0 <= n <= sm.len(),
    ensures
        forall|k: int| 0 <= k < all_triples_upto(sm, n).len() ==> exists|j: int|
            0 <= j < n && (#[trigger] all_triples_upto(sm, n)[k]).0 == sm[j].source,
    decreases n,
{
    if n > 0 {
        lemma_all_triples_names(sm, n - 1);
        let prev = all_triples_upto(sm, n - 1);
        let blk = triples_of(sm[n - 1]);
        assert forall|k: int| 0 <= k < all_triples_upto(sm, n).len() implies exists|j: int|
            0 <= j < n && (#[trigger] all_triples_upto(sm, n)[k]).0 == sm[j].source by {
            if k < prev.len() {
                assert(all_triples_upto(sm, n)[k] == prev[k]);
                let j = choose|j: int| 0 <= j < n - 1 && prev[k].0 == sm[j].source;
                assert(all_triples_upto(sm, n)[k].0 == sm[j].source);
            } else {
                assert(all_triples_upto(sm, n)[k] == blk[k - prev.len()]);
                assert(blk[k - prev.len()].0 == sm[n - 1].source);
            }
        }
    }
}

/// With well-formed sources, no (source, path) pair occurs twice.
pub proof fn lemma_all_triples_unique(sm: Seq<SourceChangeModel>, n: int)
    requires
        sources_wf(sm),
        0 <= n <= sm.len(),
    ensures
        triples_unique(all_triples_upto(sm, n)),
    decreases n,
{
    if n > 0 {
        lemma_all_triples_unique(sm, n - 1);
        lemma_all_triples_names(sm, n - 1);
        let prev = all_triples_upto(sm, n - 1);
        let blk = triples_of(sm[n - 1]);
        let cur = all_triples_upto(sm, n);
        assert forall|i: int, j: int| 0 <= i < j < cur.len() implies !((#[trigger] cur[i]).0 == (
        #[trigger] cur[j]).0 && cur[i].1 == cur[j].1) by {
            if j < prev.len() {
                assert(cur[i] == prev[i] && cur[j] == prev[j]);
            } else if i >= prev.len() {
                let bi = i - prev.len();
                let bj = j - prev.len();
                assert(cur[i] == blk[bi] && cur[j] == blk[bj]);
                assert(blk[bi].1 == sm[n - 1].changes[bi].0);
                assert(blk[bj].1 == sm[n - 1].changes[bj].0);
                assert(sm[n - 1].changes[bi].0 != sm[n - 1].changes[bj].0);
            } else {
                assert(cur[i] == prev[i]);
                assert(cur[j] == blk[j - prev.len()]);
                if cur[i].0 == cur[j].0 {
                    let t = choose|t: int| 0 <= t < n - 1 && prev[i].0 == sm[t].source;
                    assert(cur[j].0 == sm[n - 1].source);
                    assert(sm[t].source != sm[n - 1].source);
                    assert(false);
                }
            }
        }
    }
}

/// Appending one triple extends the contenders on its path alone.
pub proof fn lemma_changes_at_push(ts: Seq<TripleModel>, t: TripleModel, p: PathModel)
    ensures
        changes_at(ts.push(t), p) == if t.1 == p {
            changes_at(ts, p).push((t.0, t.2))
        } else {
            changes_at(ts, p)
        },
{
    reveal(Seq::filter);
    let pred = |x: TripleModel| x.1 == p;
    assert(ts.push(t).drop_last() =~= ts);
    assert(ts.push(t).last() == t);
    if t.1 == p {
        assert(ts.push(t).filter(pred) == ts.filter(pred).push(t));
        assert(changes_at(ts.push(t), p) =~= changes_at(ts, p).push((t.0, t.2)));
    } else {
        assert(ts.push(t).filter(pred) == ts.filter(pred));
        assert(changes_at(ts.push(t), p) =~= changes_at(ts, p));
    }
}

/// A copy of a contender list whose model is unchanged.
#[verifier::loop_isolation(false)]
pub fn clone_contenders(v: &Vec<(String, ItemChange)>) -> (r: Vec<(String, ItemChange)>)
    ensures
        r.deep_view() == v.deep_view(),
{
    let mut r: Vec<(String, ItemChange)> = Vec::new();
    let mut i: usize = 0;
    while i < v.len()
        invariant
            i <= v@.len(),
            r@.len() == i,
            r.deep_view() == v.deep_view().take(i as int),
        decreases v@.len() - i,
    {
        proof {
            assert(v.deep_view()[i as int] == v@[i as int].deep_view());
        }
        r.push((clone_string(&v[i].0), v[i].1.dup()));
        i += 1;
        proof {
            assert(r.deep_view() =~= v.deep_view().take(i as int));
        }
    }
    proof {
        assert(v.deep_view().take(v@.len() as int) =~= v.deep_view());
    }
    r
}

/// Merges a list of triples path by path: a path changed by exactly one
/// triple goes verbatim into the merged patch; a path with two or more
/// contending triples — even to identical values — becomes one conflict
/// entry listing every contender in source-submission order.
#[verifier::loop_isolation(false)]
pub fn merge_triples(triples: &Vec<(String, Vec<String>, ItemChange)>) -> (r: (Patch, Conflicts))
    ensures
        r.0.wf(),
        r.1.wf(),
        forall|p: PathModel|
            changes_at(triples.deep_view(), p).len() == 1 ==> assoc_lookup(r.0@, p) == Some(
                #[trigger] changes_at(triples.deep_view(), p)[0].1,
            ),
        forall|p: PathModel| #[trigger]
            changes_at(triples.deep_view(), p).len() >= 2 ==> assoc_lookup(r.1@, p) == Some(
                changes_at(triples.deep_view(), p),
            ),
        forall|p: PathModel| #[trigger]
            assoc_contains(r.0@, p) ==> changes_at(triples.deep_view(), p).len() == 1,
        forall|p: PathModel| #[trigger]
            assoc_contains(r.1@, p) ==> changes_at(triples.deep_view(), p).len() >= 2,
{
    let ghost tv = triples.deep_view();
    // regroup the triples by path, keeping submission order within a path
    let mut groups: Vec<(Vec<String>, Vec<(String, ItemChange)>)> = Vec::new();
    let mut k: usize = 0;
    let n = triples.len();
    while k < n
        invariant
            n == tv.len(),
            tv == triples.deep_view(),
            k <= n,
            assoc_distinct(groups.deep_view()),
            forall|g: int| 0 <= g < groups.deep_view().len() ==> (#[trigger] groups.deep_view()[
                g]).1 == changes_at(tv.take(k as int), groups.deep_view()[g].0),
            forall|g: int| 0 <= g < groups.deep_view().len() ==> (#[trigger] groups.deep_view()[
                g]).1.len() >= 1,
            forall|p: PathModel| #[trigger]
                changes_at(tv.take(k as int), p).len() > 0 ==> assoc_contains(
                    groups.deep_view(),
                    p,
                ),
        decreases n - k,
    {
        let ghost gv = groups.deep_view();
        proof {
            assert(triples@[k as int].deep_view() == tv[k as int]);
            assert(tv.take(k as int + 1) =~= tv.take(k as int).push(tv[k as int]));
        }
        let t = &triples[k];
        let ghost tm = tv[k as int];
        proof {
            assert(triples@[k as int].0@ == tm.0);
            assert(triples@[k as int].1.deep_view() == tm.1);
            assert(triples@[k as int].2@ == tm.2);
        }
        // find this path's group, if any
        let mut gi: usize = 0;
        let gn = groups.len();
        let mut found = false;
        while gi < gn
            invariant
                gn == gv.len(),
                gv == groups.deep_view(),
                gi <= gn,
                !found ==> forall|g: int| 0 <= g < gi ==> (#[trigger] gv[g]).0 != tm.1,
                found ==> gi < gn && gv[gi as int].0 == tm.1,
            decreases gn - gi + if found {
                0int
            } else {
                1int
            },
        {
            if found {
                break ;
            }
            proof {
                assert(gv[gi as int] == groups@[gi as int].deep_view());
            }
            if crate::map::path_eq(&groups[gi].0, &t.1) {
                found = true;
            } else {
                gi += 1;
            }
        }
        if found {
            let mut lst = clone_contenders(&groups[gi].1);
            lst.push((clone_string(&t.0), t.2.dup()));
            let pcopy = clone_path(&groups[gi].0);
            proof {
                assert(lst.deep_view() =~= gv[gi as int].1.push((tm.0, tm.2)));
                assert(pcopy.deep_view() == gv[gi as int].0);
            }
            groups.set(gi, (pcopy, lst));
            proof {
                assert(groups.deep_view() =~= gv.update(
                    gi as int,
                    (tm.1, gv[gi as int].1.push((tm.0, tm.2))),
                ));
            }
        } else {
            let mut lst: Vec<(String, ItemChange)> = Vec::new();
            lst.push((clone_string(&t.0), t.2.dup()));
            groups.push((clone_path(&t.1), lst));
            proof {
                assert(lst.deep_view() =~= seq![(tm.0, tm.2)]);
                assert(groups.deep_view() =~= gv.push((tm.1, seq![(tm.0, tm.2)])));
            }
        }
        k += 1;
        proof {
            let gv2 = groups.deep_view();
            assert forall|g: int| 0 <= g < gv2.len() implies (#[trigger] gv2[g]).1 == changes_at(
                tv.take(k as int),
                gv2[g].0,
            ) && gv2[g].1.len() >= 1 by {
                lemma_changes_at_push(tv.take(k as int - 1), tm, gv2[g].0);
                if g < gv.len() {
                    if found && g == gi {
                        assert(gv2[g] == (tm.1, gv[gi as int].1.push((tm.0, tm.2))));
                    } else {
                        assert(gv2[g] == gv[g]);
                        assert(gv[g].0 != tm.1);
                    }
                } else {
                    assert(gv2[g] == (tm.1, seq![(tm.0, tm.2)]));
                    assert(changes_at(tv.take(k as int - 1), tm.1).len() == 0) by {
                        if changes_at(tv.take(k as int - 1), tm.1).len() > 0 {
                            assert(assoc_contains(gv, tm.1));
                            let gg = choose|gg: int| 0 <= gg < gv.len() && gv[gg].0 == tm.1;
                            assert(false);
                        }
                    }
                }
            }
            assert forall|p: PathModel| #[trigger]
                changes_at(tv.take(k as int), p).len() > 0 implies assoc_contains(
                gv2,
                p,
            ) by {
                lemma_changes_at_push(tv.take(k as int - 1), tm, p);
                if p == tm.1 {
                    if found {
                        assert(gv2[gi as int].0 == p);
                    } else {
                        assert(gv2[gv.len() as int].0 == p);
                    }
                } else {
                    assert(changes_at(tv.take(k as int - 1), p).len() > 0);
                    let gg = choose|gg: int| 0 <= gg < gv.len() && gv[gg].0 == p;
                    assert(gv2[gg].0 == p);
                }
            }
        }
    }
    proof {
        assert(tv.take(n as int) =~= tv);
    }
    // classify each path: exactly one contender merges, two or more conflict
    let ghost gv = groups.deep_view();
    let mut merged = PathMap::<ItemChange>::new();
    let mut conflicts = PathMap::<Contenders>::new();
    let mut gi: usize = 0;
    let gn = groups.len();
    while gi < gn
        invariant
            gn == gv.len(),
            gv == groups.deep_view(),
            gi <= gn,
            merged.wf(),
            conflicts.wf(),
            assoc_distinct(gv),
            forall|g: int| 0 <= g < gv.len() ==> (#[trigger] gv[g]).1 == changes_at(tv, gv[g].0),
            forall|g: int| 0 <= g < gv.len() ==> (#[trigger] gv[g]).1.len() >= 1,
            forall|p: PathModel| #[trigger]
                changes_at(tv, p).len() > 0 ==> assoc_contains(gv, p),
            forall|g: int|
                0 <= g < gi ==> ((#[trigger] gv[g]).1.len() == 1 ==> assoc_lookup(
                    merged@,
                    gv[g].0,
                ) == Some(gv[g].1[0].1)),
            forall|g: int|
                0 <= g < gi ==> ((#[trigger] gv[g]).1.len() >= 2 ==> assoc_lookup(
                    conflicts@,
                    gv[g].0,
                ) == Some(gv[g].1)),
            forall|q: PathModel| #[trigger]
                assoc_contains(merged@, q) ==> exists|g: int|
                    0 <= g < gi && (#[trigger] gv[g]).0 == q && gv[g].1.len() == 1,
            forall|q: PathModel| #[trigger]
                assoc_contains(conflicts@, q) ==> exists|g: int|
                    0 <= g < gi && (#[trigger] gv[g]).0 == q && gv[g].1.len() >= 2,
        decreases gn - gi,
    {
        proof {
            assert(gv[gi as int] == groups@[gi as int].deep_view());
        }
        let ghost mv = merged@;
        let ghost cv = conflicts@;
        let glen = groups[gi].1.len();
        proof {
            assert(groups@[gi as int].1.deep_view().len() == glen);
        }
        if glen == 1 {
            let p = clone_path(&groups[gi].0);
            let c = groups[gi].1[0].1.dup();
            proof {
                assert(groups@[gi as int].1@[0].deep_view() == gv[gi as int].1[0]);
                if assoc_contains(mv, gv[gi as int].0) {
                    let g = choose|g: int|
                        0 <= g < gi && (#[trigger] gv[g]).0 == gv[gi as int].0 && gv[g].1.len()
                            == 1;
                    assert(false);
                }
            }
            merged.insert(p, c);
            proof {
                lemma_lookup_push(mv, (gv[gi as int].0, gv[gi as int].1[0].1), gv[gi as int].0);
                lemma_lookup_some(mv, gv[gi as int].0);
                assert forall|g: int|
                    0 <= g < gi + 1 implies ((#[trigger] gv[g]).1.len() == 1 ==> assoc_lookup(
                    merged@,
                    gv[g].0,
                ) == Some(gv[g].1[0].1)) by {
                    if g < gi && gv[g].1.len() == 1 {
                        lemma_lookup_push(mv, (gv[gi as int].0, gv[gi as int].1[0].1), gv[g].0);
                        lemma_lookup_some(mv, gv[g].0);
                    }
                }
                assert forall|q: PathModel| #[trigger]
                    assoc_contains(merged@, q) implies exists|g: int|
                    0 <= g < gi + 1 && (#[trigger] gv[g]).0 == q && gv[g].1.len() == 1 by {
                    let t = choose|t: int| 0 <= t < merged@.len() && merged@[t].0 == q;
                    if t < mv.len() {
                        assert(assoc_contains(mv, q));
                        let g = choose|g: int|
                            0 <= g < gi && (#[trigger] gv[g]).0 == q && gv[g].1.len() == 1;
                        assert(gv[g].0 == q && gv[g].1.len() == 1);
                    } else {
                        assert(gv[gi as int].0 == q && gv[gi as int].1.len() == 1);
                    }
                }
            }
        } else {
            let p = clone_path(&groups[gi].0);
            let c = clone_contenders(&groups[gi].1);
            proof {
                if assoc_contains(cv, gv[gi as int].0) {
                    let g = choose|g: int|
                        0 <= g < gi && (#[trigger] gv[g]).0 == gv[gi as int].0 && gv[g].1.len()
                            >= 2;
                    assert(false);
                }
            }
            conflicts.insert(p, c);
            proof {
                lemma_lookup_push(cv, (gv[gi as int].0, gv[gi as int].1), gv[gi as int].0);
                lemma_lookup_some(cv, gv[gi as int].0);
                assert forall|g: int|
                    0 <= g < gi + 1 implies ((#[trigger] gv[g]).1.len() >= 2 ==> assoc_lookup(
                    conflicts@,
                    gv[g].0,
                ) == Some(gv[g].1)) by {
                    if g < gi && gv[g].1.len() >= 2 {
                        lemma_lookup_push(cv, (gv[gi as int].0, gv[gi as int].1), gv[g].0);
                        lemma_lookup_some(cv, gv[g].0);
                    }
                }
                assert forall|q: PathModel| #[trigger]
                    assoc_contains(conflicts@, q) implies exists|g: int|
                    0 <= g < gi + 1 && (#[trigger] gv[g]).0 == q && gv[g].1.len() >= 2 by {
                    let t = choose|t: int| 0 <= t < conflicts@.len() && conflicts@[t].0 == q;
                    if t < cv.len() {
                        assert(assoc_contains(cv, q));
                        let g = choose|g: int|
                            0 <= g < gi && (#[trigger] gv[g]).0 == q && gv[g].1.len() >= 2;
                        assert(gv[g].0 == q && gv[g].1.len() >= 2);
                    } else {
                        assert(gv[gi as int].0 == q && gv[gi as int].1.len() >= 2);
                    }
                }
            }
        }
        gi += 1;
    }
    proof {
        assert forall|p: PathModel|
            changes_at(tv, p).len() == 1 implies assoc_lookup(merged@, p) == Some(
            #[trigger] changes_at(tv, p)[0].1,
        ) by {
            assert(assoc_contains(gv, p));
            let g = choose|g: int| 0 <= g < gv.len() && gv[g].0 == p;
            assert(gv[g].1 == changes_at(tv, p));
        }
        assert forall|p: PathModel| #[trigger]
            changes_at(tv, p).len() >= 2 implies assoc_lookup(conflicts@, p) == Some(
            changes_at(tv, p),
        ) by {
            assert(assoc_contains(gv, p));
            let g = choose|g: int| 0 <= g < gv.len() && gv[g].0 == p;
            assert(gv[g].1 == changes_at(tv, p));
        }
        assert forall|p: PathModel| #[trigger]
            assoc_contains(merged@, p) implies changes_at(tv, p).len() == 1 by {
            let g = choose|g: int|
                0 <= g < gv.len() && (#[trigger] gv[g]).0 == p && gv[g].1.len() == 1;
            assert(gv[g].1 == changes_at(tv, p));
        }
        assert forall|p: PathModel| #[trigger]
            assoc_contains(conflicts@, p) implies changes_at(tv, p).len() >= 2 by {
            let g = choose|g: int|
                0 <= g < gv.len() && (#[trigger] gv[g]).0 == p && gv[g].1.len() >= 2;
            assert(gv[g].1 == changes_at(tv, p));
        }
    }
    (merged, conflicts)
}


/// The representative path of the chain a chain path touches: all edits on
/// one chain merge as a whole field.
pub open spec fn chain_rep(p: PathModel) -> PathModel {
    if p.len() >= 1 && p[0] == "skills"@ {
        seq!["skills"@, p[1], "effects"@]
    } else {
        seq!["riposte_skill"@, "effects"@]
    }
}

/// The chain-path predicate, shared with patch application.
pub open spec fn chainp(t: TripleModel) -> bool {
    crate::hero_apply::is_chain_path(t.1)
}

/// All triples that touch the chain named by `rep`, in submission order.
pub open spec fn chain_triples(ts: Seq<TripleModel>, rep: PathModel) -> Seq<TripleModel> {
    ts.filter(|t: TripleModel| chainp(t) && chain_rep(t.1) == rep)
}

/// The non-chain triples, in submission order.
pub open spec fn nonchain_triples(ts: Seq<TripleModel>) -> Seq<TripleModel> {
    ts.filter(|t: TripleModel| !chainp(t))
}

/// Whether all triples come from one source.
pub open spec fn single_source(ts: Seq<TripleModel>) -> bool {
    forall|i: int| 0 <= i < ts.len() ==> (#[trigger] ts[i]).0 == ts[0].0
}

/// Appending one element to a filtered sequence.
pub proof fn lemma_filter_push<A>(s: Seq<A>, t: A, pred: spec_fn(A) -> bool)
    ensures
        s.push(t).filter(pred) == if pred(t) {
            s.filter(pred).push(t)
        } else {
            s.filter(pred)
        },
{
    reveal(Seq::filter);
    assert(s.push(t).drop_last() =~= s);
    assert(s.push(t).last() == t);
}

/// For a non-chain path, the contenders among all triples are the contenders
/// among the non-chain triples.
pub proof fn lemma_changes_nonchain(ts: Seq<TripleModel>, p: PathModel)
    requires
        !crate::hero_apply::is_chain_path(p),
    ensures
        changes_at(nonchain_triples(ts), p) == changes_at(ts, p),
    decreases ts.len(),
{
    if ts.len() == 0 {
        reveal(Seq::filter);
    } else {
        let pre = ts.drop_last();
        let t = ts.last();
        lemma_changes_nonchain(pre, p);
        assert(ts =~= pre.push(t));
        lemma_filter_push(pre, t, |x: TripleModel| !chainp(x));
        lemma_changes_at_push(pre, t, p);
        if !chainp(t) {
            lemma_changes_at_push(nonchain_triples(pre), t, p);
        } else {
            assert(t.1 != p);
        }
    }
}

/// The what-goes-where statement of the chain-aware merge, per chain: if
/// exactly one source touched the chain, its edits merge in directly at
/// their own paths; if more than one did, the whole chain's edit set becomes
/// one conflict entry under the chain's representative path.
pub open spec fn chain_clause(
    ts: Seq<TripleModel>,
    m: Seq<(PathModel, ChangeModel)>,
    c: Seq<(PathModel, Seq<(Seq<char>, ChangeModel)>)>,
    rep: PathModel,
) -> bool {
    let ct = chain_triples(ts, rep);
    &&& (ct.len() >= 1 && single_source(ct) ==> (forall|k: int|
        0 <= k < ct.len() ==> assoc_lookup(m, (#[trigger] ct[k]).1) == Some(ct[k].2))
        && !assoc_contains(c, rep))
    &&& (ct.len() >= 1 && !single_source(ct) ==> assoc_lookup(c, rep) == Some(
        ct.map_values(|t: TripleModel| (t.0, t.2)),
    ) && (forall|k: int| 0 <= k < ct.len() ==> !assoc_contains(m, (#[trigger] ct[k]).1)))
}

/// Flattens the sources into (source, path, change) triples, sources in
/// order, each source's changes in submission order.
#[verifier::loop_isolation(false)]
pub fn flatten_sources(sources: &Vec<SourceChange>) -> (r: Vec<(String, Vec<String>, ItemChange)>)
    ensures
        r.deep_view() == all_triples(sources.deep_view()),
{
    let ghost sm = sources.deep_view();
    let mut r: Vec<(String, Vec<String>, ItemChange)> = Vec::new();
    let mut i: usize = 0;
    let n = sources.len();
    proof {
        assert(r.deep_view() =~= all_triples_upto(sm, 0));
    }
    while i < n
        invariant
            n == sm.len(),
            sm == sources.deep_view(),
            i <= n,
            r.deep_view() == all_triples_upto(sm, i as int),
        decreases n - i,
    {
        proof {
            assert(sources@[i as int].deep_view() == sm[i as int]);
        }
        let src = &sources[i];
        let cn = src.changes.len();
        let mut j: usize = 0;
        proof {
            assert(all_triples_upto(sm, i as int) + triples_of(sm[i as int]).take(0) =~= r.deep_view());
        }
        while j < cn
            invariant
                n == sm.len(),
                sm == sources.deep_view(),
                i < n,
                cn == sm[i as int].changes.len(),
                j <= cn,
                sources@[i as int].deep_view() == sm[i as int],
                r.deep_view() == all_triples_upto(sm, i as int) + triples_of(sm[i as int]).take(
                    j as int,
                ),
            decreases cn - j,
        {
            proof {
                assert(src.source@ == sm[i as int].source);
                assert(src.changes@[j as int].deep_view() == sm[i as int].changes[j as int]);
                assert(src.changes@[j as int].0.deep_view() == sm[i as int].changes[j as int].0);
                assert(src.changes@[j as int].1.deep_view() == sm[i as int].changes[j as int].1);
            }
            let ghost before = r.deep_view();
            let ghost trip = (
                sm[i as int].source,
                sm[i as int].changes[j as int].0,
                sm[i as int].changes[j as int].1,
            );
            let name = clone_string(&src.source);
            let pathc = clone_path(&src.changes[j].0);
            let ch = src.changes[j].1.dup();
            proof {
                assert(name@ == trip.0);
                assert(pathc.deep_view() == trip.1);
                assert(ch@ == trip.2);
            }
            r.push((name, pathc, ch));
            j += 1;
            proof {
                assert(r@[before.len() as int].deep_view() == trip);
                assert(r.deep_view() =~= before.push(trip));
                assert(triples_of(sm[i as int]).take(j as int) =~= triples_of(
                    sm[i as int],
                ).take(j as int - 1).push(trip));
                assert(r.deep_view() =~= all_triples_upto(sm, i as int) + triples_of(
                    sm[i as int],
                ).take(j as int));
            }
        }
        i += 1;
        proof {
            assert(triples_of(sm[i as int - 1]).take(cn as int) =~= triples_of(
                sm[i as int - 1],
            ));
            assert(r.deep_view() =~= all_triples_upto(sm, i as int));
        }
    }
    r
}


/// A copy of a triple list whose model is unchanged.
#[verifier::loop_isolation(false)]
pub fn clone_triples(v: &Vec<(String, Vec<String>, ItemChange)>) -> (r: Vec<
    (String, Vec<String>, ItemChange),
>)
    ensures
        r.deep_view() == v.deep_view(),
{
    let mut r: Vec<(String, Vec<String>, ItemChange)> = Vec::new();
    let mut i: usize = 0;
    while i < v.len()
        invariant
            i <= v@.len(),
            r@.len() == i,
            r.deep_view() == v.deep_view().take(i as int),
        decreases v@.len() - i,
    {
        proof {
            assert(v.deep_view()[i as int] == v@[i as int].deep_view());
        }
        r.push((clone_string(&v[i].0), clone_path(&v[i].1), v[i].2.dup()));
        i += 1;
        proof {
            assert(r.deep_view() =~= v.deep_view().take(i as int));
        }
    }
    proof {
        assert(v.deep_view().take(v@.len() as int) =~= v.deep_view());
    }
    r
}

/// Whether every triple names the same source.
#[verifier::loop_isolation(false)]
pub fn all_same_source(v: &Vec<(String, Vec<String>, ItemChange)>) -> (r: bool)
    ensures
        r == single_source(v.deep_view()),
{
    let ghost tv = v.deep_view();
    if v.len() == 0 {
        return true;
    }
    let mut i: usize = 1;
    while i < v.len()
        invariant
            tv == v.deep_view(),
            1 <= i <= tv.len(),
            tv.len() >= 1,
            forall|j: int| 0 <= j < i ==> (#[trigger] tv[j]).0 == tv[0].0,
        decreases tv.len() - i,
    {
        proof {
            assert(tv[i as int] == v@[i as int].deep_view());
            assert(tv[0] == v@[0].deep_view());
        }
        if !crate::strutil::str_eq(v[i].0.as_str(), v[0].0.as_str()) {
            return false;
        }
        i += 1;
    }
    true
}

/// A contender nonempty among the non-chain triples names a non-chain path.
proof fn lemma_nonchain_changes_path(ts: Seq<TripleModel>, p: PathModel)
    requires
        changes_at(nonchain_triples(ts), p).len() > 0,
    ensures
        !crate::hero_apply::is_chain_path(p),
    decreases ts.len(),
{
    if ts.len() == 0 {
        reveal(Seq::filter);
        assert(changes_at(nonchain_triples(ts), p).len() == 0);
    } else {
        let pre = ts.drop_last();
        let t = ts.last();
        assert(ts =~= pre.push(t));
        lemma_filter_push(pre, t, |x: TripleModel| !chainp(x));
        if !chainp(t) {
            lemma_changes_at_push(nonchain_triples(pre), t, p);
            if t.1 == p {
                assert(!crate::hero_apply::is_chain_path(p));
            } else {
                lemma_nonchain_changes_path(pre, p);
            }
        } else {
            lemma_nonchain_changes_path(pre, p);
        }
    }
}

/// Every triple of a chain group satisfies the chain predicate and maps to
/// the group's representative.
proof fn lemma_chain_group_pred(ts: Seq<TripleModel>, rep: PathModel, k: int)
    requires
        0 <= k < chain_triples(ts, rep).len(),
    ensures
        chainp(chain_triples(ts, rep)[k]),
        chain_rep(chain_triples(ts, rep)[k].1) == rep,
        ts.contains(chain_triples(ts, rep)[k]),
{
    let pred = |t: TripleModel| chainp(t) && chain_rep(t.1) == rep;
    ts.lemma_filter_pred(pred, k);
    let e = chain_triples(ts, rep)[k];
    assert(chain_triples(ts, rep).contains(e));
    ts.lemma_filter_contains_rev(pred, e);
}

/// Merges all sources' change-sets against one hero baseline. Chain-field
/// edits are pulled out and merged as a whole field per chain; every other
/// path is accepted verbatim when exactly one source changed it and becomes
/// a conflict entry otherwise, even when the contending values agree.
#[verifier::loop_isolation(false)]
#[verifier::rlimit(100)]
pub fn merge_hero_changes(sources: &Vec<SourceChange>) -> (r: (Patch, Conflicts))
    requires
        sources_wf(sources.deep_view()),
    ensures
        r.0.wf(),
        r.1.wf(),
        // the merged patch and the conflict set touch disjoint path sets
        forall|p: PathModel| assoc_contains(r.0@, p) ==> !assoc_contains(#[trigger] r.1@, p),
        // a non-chain path changed by exactly one source merges verbatim; by
        // two or more, it conflicts with every contender in submission order
        forall|p: PathModel|
            !crate::hero_apply::is_chain_path(p) ==> {
                let cs = #[trigger] changes_at(all_triples(sources.deep_view()), p);
                &&& (cs.len() == 1 ==> assoc_lookup(r.0@, p) == Some(cs[0].1)
                    && !assoc_contains(r.1@, p))
                &&& (cs.len() >= 2 ==> assoc_lookup(r.1@, p) == Some(cs) && !assoc_contains(
                    r.0@,
                    p,
                ))
                &&& (cs.len() == 0 ==> !assoc_contains(r.0@, p) && !assoc_contains(r.1@, p))
            },
        // chain edits merge whole-field per chain
        forall|rep: PathModel| #[trigger]
            chain_clause(all_triples(sources.deep_view()), r.0@, r.1@, rep),
{
    let ghost sm = sources.deep_view();
    let ghost tv = all_triples(sm);
    proof {
        lemma_all_triples_unique(sm, sm.len() as int);
    }
    let triples = flatten_sources(sources);
    // split the triples: chain edits group per chain, the rest stay in order
    let mut nc: Vec<(String, Vec<String>, ItemChange)> = Vec::new();
    let mut cg: Vec<(Vec<String>, Vec<(String, Vec<String>, ItemChange)>)> = Vec::new();
    let mut k: usize = 0;
    let n = triples.len();
    proof {
        reveal(Seq::filter);
        assert(tv.take(0) =~= Seq::<TripleModel>::empty());
        assert(nc.deep_view() =~= nonchain_triples(tv.take(0)));
    }
    while k < n
        invariant
            n == tv.len(),
            tv == triples.deep_view(),
            triples_unique(tv),
            k <= n,
            nc.deep_view() == nonchain_triples(tv.take(k as int)),
            assoc_distinct(cg.deep_view()),
            forall|g: int| 0 <= g < cg.deep_view().len() ==> (#[trigger] cg.deep_view()[g]).1
                == chain_triples(tv.take(k as int), cg.deep_view()[g].0),
            forall|g: int| 0 <= g < cg.deep_view().len() ==> (#[trigger] cg.deep_view()[
                g]).1.len() >= 1,
            forall|g: int| 0 <= g < cg.deep_view().len() ==> crate::hero_apply::is_chain_path(
                (#[trigger] cg.deep_view()[g]).0,
            ) && chain_rep(cg.deep_view()[g].0) == cg.deep_view()[g].0,
            forall|rep: PathModel| #[trigger]
                chain_triples(tv.take(k as int), rep).len() > 0 ==> assoc_contains(
                    cg.deep_view(),
                    rep,
                ),
        decreases n - k,
    {
        let ghost gv = cg.deep_view();
        proof {
            assert(triples@[k as int].deep_view() == tv[k as int]);
            assert(triples@[k as int].0@ == tv[k as int].0);
            assert(triples@[k as int].1.deep_view() == tv[k as int].1);
            assert(triples@[k as int].2@ == tv[k as int].2);
            assert(tv.take(k as int + 1) =~= tv.take(k as int).push(tv[k as int]));
        }
        let t = &triples[k];
        let ghost tm = tv[k as int];
        if crate::hero_apply::is_chain_path_exec(&t.1) {
            // build the chain's representative path
            proof {
                assert(t.1.deep_view() == tm.1);
                if tm.1.len() >= 1 {
                    assert(t.1.deep_view()[0] == t.1@[0]@);
                }
            }
            let mut rep: Vec<String> = Vec::new();
            let ghost repm = chain_rep(tm.1);
            if crate::strutil::seg_is(&t.1[0], "skills") {
                proof {
                    assert(t.1.deep_view()[1] == t.1@[1]@);
                }
                rep.push(String::from_str("skills"));
                rep.push(clone_string(&t.1[1]));
                rep.push(String::from_str("effects"));
                proof {
                    assert(rep.deep_view() =~= repm);
                }
            } else {
                rep.push(String::from_str("riposte_skill"));
                rep.push(String::from_str("effects"));
                proof {
                    assert(rep.deep_view() =~= repm);
                }
            }
            proof {
                assert(crate::hero_apply::is_chain_path(repm));
                assert(chain_rep(repm) =~= repm);
            }
            // find or start the chain's group
            let mut gi: usize = 0;
            let gn = cg.len();
            let mut found = false;
            while gi < gn
                invariant
                    gn == gv.len(),
                    gv == cg.deep_view(),
                    gi <= gn,
                    rep.deep_view() == repm,
                    !found ==> forall|g: int| 0 <= g < gi ==> (#[trigger] gv[g]).0 != repm,
                    found ==> gi < gn && gv[gi as int].0 == repm,
                decreases gn - gi + if found {
                    0int
                } else {
                    1int
                },
            {
                if found {
                    break ;
                }
                proof {
                    assert(gv[gi as int] == cg@[gi as int].deep_view());
                }
                if crate::map::path_eq(&cg[gi].0, &rep) {
                    found = true;
                } else {
                    gi += 1;
                }
            }
            if found {
                let mut lst = clone_triples(&cg[gi].1);
                lst.push((clone_string(&t.0), clone_path(&t.1), t.2.dup()));
                let pcopy = clone_path(&cg[gi].0);
                proof {
                    assert(lst.deep_view() =~= gv[gi as int].1.push(tm));
                    assert(pcopy.deep_view() == gv[gi as int].0);
                }
                cg.set(gi, (pcopy, lst));
                proof {
                    assert(cg.deep_view() =~= gv.update(
                        gi as int,
                        (repm, gv[gi as int].1.push(tm)),
                    ));
                }
            } else {
                let mut lst: Vec<(String, Vec<String>, ItemChange)> = Vec::new();
                lst.push((clone_string(&t.0), clone_path(&t.1), t.2.dup()));
                proof {
                    assert(lst.deep_view() =~= seq![tm]);
                }
                cg.push((rep, lst));
                proof {
                    assert(cg.deep_view() =~= gv.push((repm, seq![tm])));
                }
            }
            k += 1;
            proof {
                let gv2 = cg.deep_view();
                assert(nonchain_triples(tv.take(k as int)) =~= nc.deep_view()) by {
                    lemma_filter_push(
                        tv.take(k as int - 1),
                        tm,
                        |x: TripleModel| !chainp(x),
                    );
                }
                assert forall|g: int| 0 <= g < gv2.len() implies (#[trigger] gv2[g]).1
                    == chain_triples(tv.take(k as int), gv2[g].0) && gv2[g].1.len() >= 1 by {
                    lemma_filter_push(
                        tv.take(k as int - 1),
                        tm,
                        |x: TripleModel| chainp(x) && chain_rep(x.1) == gv2[g].0,
                    );
                    if g < gv.len() {
                        if found && g == gi {
                            assert(gv2[g] == (repm, gv[gi as int].1.push(tm)));
                        } else {
                            assert(gv2[g] == gv[g]);
                            assert(gv[g].0 != repm);
                        }
                    } else {
                        assert(gv2[g] == (repm, seq![tm]));
                        assert(chain_triples(tv.take(k as int - 1), repm).len() == 0) by {
                            if chain_triples(tv.take(k as int - 1), repm).len() > 0 {
                                assert(assoc_contains(gv, repm));
                                let gg = choose|gg: int|
                                    0 <= gg < gv.len() && gv[gg].0 == repm;
                                assert(false);
                            }
                        }
                        assert(seq![tm] =~= chain_triples(tv.take(k as int - 1), repm).push(
                            tm,
                        ));
                    }
                }
                assert forall|rep2: PathModel| #[trigger]
                    chain_triples(tv.take(k as int), rep2).len() > 0 implies assoc_contains(
                    gv2,
                    rep2,
                ) by {
                    lemma_filter_push(
                        tv.take(k as int - 1),
                        tm,
                        |x: TripleModel| chainp(x) && chain_rep(x.1) == rep2,
                    );
                    if rep2 == repm {
                        if found {
                            assert(gv2[gi as int].0 == rep2);
                        } else {
                            assert(gv2[gv.len() as int].0 == rep2);
                        }
                    } else {
                        assert(chain_triples(tv.take(k as int - 1), rep2).len() > 0);
                        let gg = choose|gg: int| 0 <= gg < gv.len() && gv[gg].0 == rep2;
                        assert(gv2[gg].0 == rep2);
                    }
                }
            }
        } else {
            nc.push((clone_string(&t.0), clone_path(&t.1), t.2.dup()));
            k += 1;
            proof {
                let gv2 = cg.deep_view();
                assert(nc.deep_view() =~= nonchain_triples(tv.take(k as int))) by {
                    lemma_filter_push(
                        tv.take(k as int - 1),
                        tm,
                        |x: TripleModel| !chainp(x),
                    );
                    assert(nc.deep_view() =~= nonchain_triples(tv.take(k as int - 1)).push(tm));
                }
                assert forall|g: int| 0 <= g < gv2.len() implies (#[trigger] gv2[g]).1
                    == chain_triples(tv.take(k as int), gv2[g].0) by {
                    lemma_filter_push(
                        tv.take(k as int - 1),
                        tm,
                        |x: TripleModel| chainp(x) && chain_rep(x.1) == gv2[g].0,
                    );
                }
                assert forall|rep2: PathModel| #[trigger]
                    chain_triples(tv.take(k as int), rep2).len() > 0 implies assoc_contains(
                    gv2,
                    rep2,
                ) by {
                    lemma_filter_push(
                        tv.take(k as int - 1),
                        tm,
                        |x: TripleModel| chainp(x) && chain_rep(x.1) == rep2,
                    );
                    assert(chain_triples(tv.take(k as int - 1), rep2).len() > 0);
                }
            }
        }
    }
    proof {
        assert(tv.take(n as int) =~= tv);
    }
    let ghost ncv = nonchain_triples(tv);
    let ghost gv = cg.deep_view();
    // merge the non-chain triples path by path
    let (mut merged, mut conflicts) = merge_triples(&nc);
    let ghost m0v = merged@;
    let ghost c0v = conflicts@;
    proof {
        assert forall|q: PathModel|
            #[trigger] crate::hero_apply::is_chain_path(q) implies !assoc_contains(m0v, q) by {
            if assoc_contains(m0v, q) {
                assert(changes_at(ncv, q).len() == 1);
                lemma_nonchain_changes_path(tv, q);
            }
        }
        assert forall|q: PathModel|
            #[trigger] crate::hero_apply::is_chain_path(q) implies !assoc_contains(c0v, q) by {
            if assoc_contains(c0v, q) {
                assert(changes_at(ncv, q).len() >= 2);
                lemma_nonchain_changes_path(tv, q);
            }
        }
    }
    // fold each chain group in: one source merges, several conflict
    let mut gi: usize = 0;
    let gn = cg.len();
    while gi < gn
        invariant
            gn == gv.len(),
            gv == cg.deep_view(),
            tv == triples.deep_view(),
            ncv == nonchain_triples(tv),
            triples_unique(tv),
            gi <= gn,
            merged.wf(),
            conflicts.wf(),
            assoc_distinct(gv),
            forall|g: int| 0 <= g < gv.len() ==> (#[trigger] gv[g]).1 == chain_triples(
                tv,
                gv[g].0,
            ),
            forall|g: int| 0 <= g < gv.len() ==> (#[trigger] gv[g]).1.len() >= 1,
            forall|g: int| 0 <= g < gv.len() ==> crate::hero_apply::is_chain_path(
                (#[trigger] gv[g]).0,
            ) && chain_rep(gv[g].0) == gv[g].0,
            forall|rep: PathModel| #[trigger]
                chain_triples(tv, rep).len() > 0 ==> assoc_contains(gv, rep),
            // non-chain lookups are untouched by the chain phase
            forall|q: PathModel|
                !crate::hero_apply::is_chain_path(q) ==> assoc_lookup(#[trigger] merged@, q)
                    == assoc_lookup(m0v, q) && assoc_lookup(conflicts@, q) == assoc_lookup(
                    c0v,
                    q,
                ),
            // what the processed groups put in
            forall|g: int|
                0 <= g < gi && single_source((#[trigger] gv[g]).1) ==> forall|t: int|
                    0 <= t < gv[g].1.len() ==> assoc_lookup(merged@, (#[trigger] gv[g].1[t]).1)
                        == Some(gv[g].1[t].2),
            forall|g: int|
                0 <= g < gi && !single_source((#[trigger] gv[g]).1) ==> assoc_lookup(
                    conflicts@,
                    gv[g].0,
                ) == Some(gv[g].1.map_values(|t: TripleModel| (t.0, t.2))),
            // and nothing else
            forall|q: PathModel|
                crate::hero_apply::is_chain_path(q) && #[trigger] assoc_contains(merged@, q)
                    ==> exists|g: int, t: int|
                    0 <= g < gi && single_source(gv[g].1) && 0 <= t < gv[g].1.len() && (
                    #[trigger] gv[g].1[t]).1 == q,
            forall|q: PathModel|
                crate::hero_apply::is_chain_path(q) && #[trigger] assoc_contains(conflicts@, q)
                    ==> exists|g: int|
                    0 <= g < gi && !single_source((#[trigger] gv[g]).1) && (#[trigger] gv[
                        g]).0 == q,
        decreases gn - gi,
    {
        proof {
            assert(gv[gi as int] == cg@[gi as int].deep_view());
        }
        let ghost mv = merged@;
        let ghost cv = conflicts@;
        let ghost grp = gv[gi as int].1;
        if all_same_source(&cg[gi].1) {
            // one source touched this chain: its edits merge in directly
            let mut t: usize = 0;
            let tn = cg[gi].1.len();
            while t < tn
                invariant
                    gn == gv.len(),
                    gv == cg.deep_view(),
                    gi < gn,
                    tv == triples.deep_view(),
                    ncv == nonchain_triples(tv),
                    triples_unique(tv),
                    tn == grp.len(),
                    grp == gv[gi as int].1,
                    single_source(grp),
                    t <= tn,
                    merged.wf(),
                    conflicts@ == cv,
                    conflicts.wf(),
                    assoc_distinct(gv),
                    forall|g: int| 0 <= g < gv.len() ==> (#[trigger] gv[g]).1 == chain_triples(
                        tv,
                        gv[g].0,
                    ),
                    forall|g: int| 0 <= g < gv.len() ==> crate::hero_apply::is_chain_path(
                        (#[trigger] gv[g]).0,
                    ) && chain_rep(gv[g].0) == gv[g].0,
                    forall|q: PathModel|
                        !crate::hero_apply::is_chain_path(q) ==> assoc_lookup(
                            #[trigger] merged@,
                            q,
                        ) == assoc_lookup(m0v, q),
                    forall|g: int|
                        0 <= g < gi && single_source((#[trigger] gv[g]).1) ==> forall|u: int|
                            0 <= u < gv[g].1.len() ==> assoc_lookup(
                                merged@,
                                (#[trigger] gv[g].1[u]).1,
                            ) == Some(gv[g].1[u].2),
                    forall|u: int|
                        0 <= u < t ==> assoc_lookup(merged@, (#[trigger] grp[u]).1) == Some(
                            grp[u].2,
                        ),
                    forall|q: PathModel|
                        crate::hero_apply::is_chain_path(q) && #[trigger] assoc_contains(
                            merged@,
                            q,
                        ) ==> (exists|g: int, u: int|
                            0 <= g < gi && single_source(gv[g].1) && 0 <= u < gv[g].1.len()
                                && (#[trigger] gv[g].1[u]).1 == q) || (exists|u: int|
                            0 <= u < t && (#[trigger] grp[u]).1 == q),
                decreases tn - t,
            {
                proof {
                    assert(grp[t as int] == cg@[gi as int].1@[t as int].deep_view());
                    assert(cg@[gi as int].1@[t as int].1.deep_view() == grp[t as int].1);
                    assert(cg@[gi as int].1@[t as int].2@ == grp[t as int].2);
                    lemma_chain_group_pred(tv, gv[gi as int].0, t as int);
                    // the path is fresh in the merged patch
                    if assoc_contains(merged@, grp[t as int].1) {
                        let q = grp[t as int].1;
                        assert(crate::hero_apply::is_chain_path(q));
                        if exists|g: int, u: int|
                            0 <= g < gi && single_source(gv[g].1) && 0 <= u < gv[g].1.len()
                                && (#[trigger] gv[g].1[u]).1 == q {
                            let (g, u) = choose|g: int, u: int|
                                0 <= g < gi && single_source(gv[g].1) && 0 <= u < gv[
                                    g].1.len() && (#[trigger] gv[g].1[u]).1 == q;
                            lemma_chain_group_pred(tv, gv[g].0, u);
                            assert(chain_rep(q) == gv[g].0);
                            assert(chain_rep(q) == gv[gi as int].0);
                            assert(false);
                        } else {
                            let u = choose|u: int| 0 <= u < t && (#[trigger] grp[u]).1 == q;
                            lemma_chain_group_pred(tv, gv[gi as int].0, u);
                            assert(tv.contains(grp[u]));
                            assert(tv.contains(grp[t as int]));
                            let iu = choose|iu: int|
                                0 <= iu < tv.len() && tv[iu] == grp[u];
                            let it = choose|it: int|
                                0 <= it < tv.len() && tv[it] == grp[t as int];
                            assert(grp[u].0 == grp[t as int].0);
                            assert(grp[u].1 == grp[t as int].1);
                            assert(iu != it || grp[u] == grp[t as int]);
                            if grp[u] == grp[t as int] {
                                // two equal triples cannot both be in a list
                                // with unique (source, path) pairs
                                lemma_chain_group_dup(tv, gv[gi as int].0, u, t as int);
                                let (di, dj) = choose|di: int, dj: int|
                                    0 <= di < dj < tv.len() && tv[di] == tv[dj];
                                assert(!(tv[di].0 == tv[dj].0 && tv[di].1 == tv[dj].1));
                            }
                            assert(false);
                        }
                    }
                }
                let p = clone_path(&cg[gi].1[t].1);
                let c = cg[gi].1[t].2.dup();
                let ghost prevm = merged@;
                proof {
                    assert(p.deep_view() == grp[t as int].1);
                    assert(c@ == grp[t as int].2);
                }
                merged.insert(p, c);
                t += 1;
                proof {
                    assert(merged@ == prevm.push((grp[t - 1].1, grp[t - 1].2)));
                    assert forall|u: int|
                        0 <= u < t implies assoc_lookup(merged@, (#[trigger] grp[u]).1) == Some(
                        grp[u].2,
                    ) by {
                        lemma_lookup_push(prevm, (grp[t - 1].1, grp[t - 1].2), grp[u].1);
                        lemma_lookup_some(prevm, grp[u].1);
                    }
                    assert forall|q: PathModel|
                        !crate::hero_apply::is_chain_path(q) implies assoc_lookup(
                        #[trigger] merged@,
                        q,
                    ) == assoc_lookup(m0v, q) by {
                        lemma_lookup_push(prevm, (grp[t - 1].1, grp[t - 1].2), q);
                        lemma_chain_group_pred(tv, gv[gi as int].0, t - 1);
                        assert(grp[t - 1].1 != q);
                        lemma_lookup_some(prevm, q);
                    }
                    assert forall|g: int|
                        0 <= g < gi && single_source((#[trigger] gv[g]).1) implies forall|
                        u: int,
                    |
                        0 <= u < gv[g].1.len() ==> assoc_lookup(
                            merged@,
                            (#[trigger] gv[g].1[u]).1,
                        ) == Some(gv[g].1[u].2) by {
                        assert forall|u: int| 0 <= u < gv[g].1.len() implies assoc_lookup(
                            merged@,
                            (#[trigger] gv[g].1[u]).1,
                        ) == Some(gv[g].1[u].2) by {
                            lemma_lookup_push(prevm, (grp[t - 1].1, grp[t - 1].2), gv[g].1[u].1);
                            lemma_lookup_some(prevm, gv[g].1[u].1);
                        }
                    }
                    assert forall|q: PathModel|
                        crate::hero_apply::is_chain_path(q) && #[trigger] assoc_contains(
                            merged@,
                            q,
                        ) implies (exists|g: int, u: int|
                        0 <= g < gi && single_source(gv[g].1) && 0 <= u < gv[g].1.len() && (
                        #[trigger] gv[g].1[u]).1 == q) || (exists|u: int|
                        0 <= u < t && (#[trigger] grp[u]).1 == q) by {
                        let w = choose|w: int| 0 <= w < merged@.len() && merged@[w].0 == q;
                        if w < prevm.len() {
                            assert(prevm[w].0 == q);
                            assert(assoc_contains(prevm, q));
                        } else {
                            assert(merged@[w] == (grp[t - 1].1, grp[t - 1].2));
                            assert(grp[t - 1].1 == q);
                        }
                    }
                }
            }
            gi += 1;
            proof {
                assert forall|q: PathModel|
                    crate::hero_apply::is_chain_path(q) && #[trigger] assoc_contains(
                        merged@,
                        q,
                    ) implies exists|g: int, u: int|
                    0 <= g < gi && single_source(gv[g].1) && 0 <= u < gv[g].1.len() && (
                    #[trigger] gv[g].1[u]).1 == q by {
                    if exists|u: int| 0 <= u < tn && (#[trigger] grp[u]).1 == q {
                        let u = choose|u: int| 0 <= u < tn && (#[trigger] grp[u]).1 == q;
                        assert(0 <= gi - 1 < gi && single_source(gv[gi - 1].1) && 0 <= u < gv[
                            gi - 1].1.len() && gv[gi - 1].1[u].1 == q);
                    }
                }
            }
        } else {
            // several sources touched this chain: one conflict entry under
            // the chain's representative path, listing every contender
            let mut lst: Vec<(String, ItemChange)> = Vec::new();
            let mut t: usize = 0;
            let tn = cg[gi].1.len();
            while t < tn
                invariant
                    gv == cg.deep_view(),
                    gi < gv.len(),
                    tn == grp.len(),
                    grp == gv[gi as int].1,
                    t <= tn,
                    lst.deep_view() == grp.map_values(|x: TripleModel| (x.0, x.2)).take(
                        t as int,
                    ),
                decreases tn - t,
            {
                proof {
                    assert(grp[t as int] == cg@[gi as int].1@[t as int].deep_view());
                }
                lst.push((clone_string(&cg[gi].1[t].0), cg[gi].1[t].2.dup()));
                t += 1;
                proof {
                    assert(lst.deep_view() =~= grp.map_values(
                        |x: TripleModel| (x.0, x.2),
                    ).take(t as int));
                }
            }
            proof {
                assert(grp.map_values(|x: TripleModel| (x.0, x.2)).take(tn as int) =~= grp.map_values(
                    |x: TripleModel| (x.0, x.2),
                ));
                // the representative path is fresh among the conflicts
                if assoc_contains(conflicts@, gv[gi as int].0) {
                    let q = gv[gi as int].0;
                    assert(crate::hero_apply::is_chain_path(q));
                    if exists|g: int|
                        0 <= g < gi && !single_source((#[trigger] gv[g]).1) && (#[trigger] gv[
                            g]).0 == q {
                        let g = choose|g: int|
                            0 <= g < gi && !single_source((#[trigger] gv[g]).1) && (
                            #[trigger] gv[g]).0 == q;
                        assert(false);
                    } else {
                        assert(assoc_lookup(conflicts@, q) == assoc_lookup(c0v, q));
                        lemma_lookup_some(conflicts@, q);
                        lemma_lookup_some(c0v, q);
                        assert(assoc_contains(c0v, q));
                        assert(changes_at(ncv, q).len() >= 2);
                        lemma_nonchain_changes_path(tv, q);
                        assert(false);
                    }
                }
            }
            let p = clone_path(&cg[gi].0);
            let ghost prevc = conflicts@;
            proof {
                assert(p.deep_view() == gv[gi as int].0);
                assert(lst.deep_view() == grp.map_values(|x: TripleModel| (x.0, x.2)));
            }
            conflicts.insert(p, lst);
            gi += 1;
            proof {
                let ghost prev = prevc;
                assert(conflicts@ == prev.push(
                    (gv[gi - 1].0, grp.map_values(|x: TripleModel| (x.0, x.2))),
                ));
                assert forall|q: PathModel|
                    !crate::hero_apply::is_chain_path(q) implies assoc_lookup(
                    #[trigger] conflicts@,
                    q,
                ) == assoc_lookup(c0v, q) by {
                    lemma_lookup_push(
                        prev,
                        (gv[gi - 1].0, grp.map_values(|x: TripleModel| (x.0, x.2))),
                        q,
                    );
                    assert(gv[gi - 1].0 != q);
                    lemma_lookup_some(prev, q);
                }
                assert forall|g: int|
                    0 <= g < gi && !single_source((#[trigger] gv[g]).1) implies assoc_lookup(
                    conflicts@,
                    gv[g].0,
                ) == Some(gv[g].1.map_values(|t2: TripleModel| (t2.0, t2.2))) by {
                    lemma_lookup_push(
                        prev,
                        (gv[gi - 1].0, grp.map_values(|x: TripleModel| (x.0, x.2))),
                        gv[g].0,
                    );
                    lemma_lookup_some(prev, gv[g].0);
                    if g < gi - 1 {
                        assert(gv[g].0 != gv[gi - 1].0);
                    }
                }
                assert forall|q: PathModel|
                    crate::hero_apply::is_chain_path(q) && #[trigger] assoc_contains(
                        conflicts@,
                        q,
                    ) implies exists|g: int|
                    0 <= g < gi && !single_source((#[trigger] gv[g]).1) && (#[trigger] gv[
                        g]).0 == q by {
                    let w = choose|w: int| 0 <= w < conflicts@.len() && conflicts@[w].0 == q;
                    if w < conflicts@.len() - 1 {
                        assert(prev[w].0 == q);
                        assert(assoc_contains(prev, q));
                    } else {
                        assert(0 <= gi - 1 < gi && !single_source(gv[gi - 1].1) && gv[gi
                            - 1].0 == q);
                    }
                }
            }
        }
    }
    // every clause of the contract now follows from the group bookkeeping
    proof {
        assert forall|p: PathModel|
            !crate::hero_apply::is_chain_path(p) implies {
            let cs = #[trigger] changes_at(tv, p);
            &&& (cs.len() == 1 ==> assoc_lookup(merged@, p) == Some(cs[0].1)
                && !assoc_contains(conflicts@, p))
            &&& (cs.len() >= 2 ==> assoc_lookup(conflicts@, p) == Some(cs) && !assoc_contains(
                merged@,
                p,
            ))
            &&& (cs.len() == 0 ==> !assoc_contains(merged@, p) && !assoc_contains(
                conflicts@,
                p,
            ))
        } by {
            lemma_changes_nonchain(tv, p);
            lemma_lookup_some(merged@, p);
            lemma_lookup_some(conflicts@, p);
            lemma_lookup_some(m0v, p);
            lemma_lookup_some(c0v, p);
            let cs = changes_at(tv, p);
            if cs.len() == 1 {
                if assoc_contains(conflicts@, p) {
                    assert(assoc_contains(c0v, p));
                    assert(changes_at(ncv, p).len() >= 2);
                }
            } else if cs.len() >= 2 {
                if assoc_contains(merged@, p) {
                    assert(assoc_contains(m0v, p));
                    assert(changes_at(ncv, p).len() == 1);
                }
            } else {
                if assoc_contains(merged@, p) {
                    assert(assoc_contains(m0v, p));
                }
                if assoc_contains(conflicts@, p) {
                    assert(assoc_contains(c0v, p));
                }
            }
        }
        assert forall|rep: PathModel| #[trigger]
            chain_clause(tv, merged@, conflicts@, rep) by {
            let ct = chain_triples(tv, rep);
            if ct.len() >= 1 {
                assert(assoc_contains(gv, rep));
                let g = choose|g: int| 0 <= g < gv.len() && gv[g].0 == rep;
                assert(gv[g].1 == ct);
                if single_source(ct) {
                    if assoc_contains(conflicts@, rep) {
                        let g2 = choose|g2: int|
                            0 <= g2 < gn && !single_source((#[trigger] gv[g2]).1) && (
                            #[trigger] gv[g2]).0 == rep;
                        assert(g2 == g);
                        assert(false);
                    }
                } else {
                    assert forall|k2: int| 0 <= k2 < ct.len() implies !assoc_contains(
                        merged@,
                        (#[trigger] ct[k2]).1,
                    ) by {
                        if assoc_contains(merged@, ct[k2].1) {
                            lemma_chain_group_pred(tv, rep, k2);
                            let (g2, u) = choose|g2: int, u: int|
                                0 <= g2 < gn && single_source(gv[g2].1) && 0 <= u < gv[
                                    g2].1.len() && (#[trigger] gv[g2].1[u]).1 == ct[k2].1;
                            lemma_chain_group_pred(tv, gv[g2].0, u);
                            assert(chain_rep(ct[k2].1) == rep);
                            assert(chain_rep(ct[k2].1) == gv[g2].0);
                            assert(g2 == g);
                            assert(false);
                        }
                    }
                }
            }
        }
        assert forall|p: PathModel| assoc_contains(merged@, p) implies !assoc_contains(
            #[trigger] conflicts@,
            p,
        ) by {
            if crate::hero_apply::is_chain_path(p) {
                if assoc_contains(conflicts@, p) {
                    let (g2, u) = choose|g2: int, u: int|
                        0 <= g2 < gn && single_source(gv[g2].1) && 0 <= u < gv[g2].1.len()
                            && (#[trigger] gv[g2].1[u]).1 == p;
                    let g3 = choose|g3: int|
                        0 <= g3 < gn && !single_source((#[trigger] gv[g3]).1) && (
                        #[trigger] gv[g3]).0 == p;
                    lemma_chain_group_pred(tv, gv[g2].0, u);
                    assert(chain_rep(p) == gv[g2].0);
                    assert(chain_rep(gv[g3].0) == gv[g3].0);
                    assert(gv[g3].0 == p);
                    assert(gv[g2].0 == gv[g3].0);
                    assert(g2 == g3);
                    assert(false);
                }
            } else {
                lemma_lookup_some(merged@, p);
                lemma_lookup_some(m0v, p);
                assert(assoc_contains(m0v, p));
                assert(changes_at(ncv, p).len() == 1);
                if assoc_contains(conflicts@, p) {
                    lemma_lookup_some(conflicts@, p);
                    lemma_lookup_some(c0v, p);
                    assert(assoc_contains(c0v, p));
                    assert(changes_at(ncv, p).len() >= 2);
                    assert(false);
                }
            }
        }
    }
    (merged, conflicts)
}

/// A chain group repeating a triple means the whole triple list repeats one.
proof fn lemma_chain_group_dup(ts: Seq<TripleModel>, rep: PathModel, u: int, t: int)
    requires
        0 <= u < t < chain_triples(ts, rep).len(),
        chain_triples(ts, rep)[u] == chain_triples(ts, rep)[t],
    ensures
        exists|i: int, j: int| 0 <= i < j < ts.len() && ts[i] == ts[j],
{
    let pred = |x: TripleModel| chainp(x) && chain_rep(x.1) == rep;
    lemma_filter_dup(ts, pred, u, t);
}

/// A filtered sequence repeats a value only where the original does.
proof fn lemma_filter_dup<A>(s: Seq<A>, pred: spec_fn(A) -> bool, u: int, t: int)
    requires
        0 <= u < t < s.filter(pred).len(),
        s.filter(pred)[u] == s.filter(pred)[t],
    ensures
        exists|i: int, j: int| 0 <= i < j < s.len() && s[i] == s[j],
    decreases s.len(),
{
    reveal(Seq::filter);
    let f = s.filter(pred);
    let fd = s.drop_last().filter(pred);
    if pred(s.last()) {
        assert(f =~= fd.push(s.last()));
        if t < fd.len() {
            lemma_filter_dup(s.drop_last(), pred, u, t);
            let (i, j) = choose|i: int, j: int|
                0 <= i < j < s.drop_last().len() && s.drop_last()[i] == s.drop_last()[j];
            assert(s[i] == s[j]);
        } else {
            // f[t] is the last element; f[u] equals it and lies in fd, so the
            // value also occurs earlier in s
            assert(fd[u] == s.last());
            assert(fd.contains(s.last()));
            s.drop_last().lemma_filter_contains_rev(pred, s.last());
            let i = choose|i: int|
                0 <= i < s.drop_last().len() && s.drop_last()[i] == s.last();
            assert(s[i] == s[s.len() - 1]);
        }
    } else {
        assert(f =~= fd);
        lemma_filter_dup(s.drop_last(), pred, u, t);
        let (i, j) = choose|i: int, j: int|
            0 <= i < j < s.drop_last().len() && s.drop_last()[i] == s.drop_last()[j];
        assert(s[i] == s[j]);
    }
}



impl crate::hero::HeroInfo {
    /// Merges all sources' change-sets against this baseline record: the
    /// merged patch of every unambiguous path, and the conflict set of every
    /// ambiguous one. Chain-field edits merge as a whole field per chain.
    pub fn try_merge_patches(&self, patches: &Vec<SourceChange>) -> (r: (Patch, Conflicts))
        requires
            sources_wf(patches.deep_view()),
        ensures
            r.0.wf(),
            r.1.wf(),
            forall|p: PathModel| assoc_contains(r.0@, p) ==> !assoc_contains(#[trigger] r.1@, p),
            forall|p: PathModel|
                !crate::hero_apply::is_chain_path(p) ==> {
                    let cs = #[trigger] changes_at(all_triples(patches.deep_view()), p);
                    &&& (cs.len() == 1 ==> assoc_lookup(r.0@, p) == Some(cs[0].1)
                        && !assoc_contains(r.1@, p))
                    &&& (cs.len() >= 2 ==> assoc_lookup(r.1@, p) == Some(cs) && !assoc_contains(
                        r.0@,
                        p,
                    ))
                    &&& (cs.len() == 0 ==> !assoc_contains(r.0@, p) && !assoc_contains(
                        r.1@,
                        p,
                    ))
                },
            forall|rep: PathModel| #[trigger]
                chain_clause(all_triples(patches.deep_view()), r.0@, r.1@, rep),
    {
        merge_hero_changes(patches)
    }
}

impl crate::hero::HeroOverride {
    /// Merges all sources' change-sets against this override baseline: the
    /// same algorithm as for full records, over the paths the override's
    /// flattened form can carry.
    pub fn try_merge_patches(&self, patches: &Vec<SourceChange>) -> (r: (Patch, Conflicts))
        requires
            sources_wf(patches.deep_view()),
        ensures
            r.0.wf(),
            r.1.wf(),
            forall|p: PathModel| assoc_contains(r.0@, p) ==> !assoc_contains(#[trigger] r.1@, p),
            forall|p: PathModel|
                !crate::hero_apply::is_chain_path(p) ==> {
                    let cs = #[trigger] changes_at(all_triples(patches.deep_view()), p);
                    &&& (cs.len() == 1 ==> assoc_lookup(r.0@, p) == Some(cs[0].1)
                        && !assoc_contains(r.1@, p))
                    &&& (cs.len() >= 2 ==> assoc_lookup(r.1@, p) == Some(cs) && !assoc_contains(
                        r.0@,
                        p,
                    ))
                    &&& (cs.len() == 0 ==> !assoc_contains(r.0@, p) && !assoc_contains(
                        r.1@,
                        p,
                    ))
                },
            forall|rep: PathModel| #[trigger]
                chain_clause(all_triples(patches.deep_view()), r.0@, r.1@, rep),
    {
        merge_hero_changes(patches)
    }
}

} // verus!
