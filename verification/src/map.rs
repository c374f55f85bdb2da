use vstd::prelude::*;
use vstd::string::StringExecFns;
use crate::strutil::clone_string;
use crate::value::{Value, ValueModel};

verus! {

/// The model of a structural path: its segments as character sequences.
pub type PathModel = Seq<Seq<char>>;

/// The model of one map entry.
pub type EntryModel<V> = (PathModel, V);

/// Whether an association sequence holds an entry for `p`.
pub open spec fn assoc_contains<K, V>(s: Seq<(K, V)>, p: K) -> bool {
    exists|i: int| 0 <= i < s.len() && s[i].0 == p
}

/// The value of the first entry for `p`, if any.
pub open spec fn assoc_lookup<K, V>(s: Seq<(K, V)>, p: K) -> Option<V>
    decreases s.len(),
{
    if s.len() == 0 {
        None
    } else if s[0].0 == p {
        Some(s[0].1)
    } else {
        assoc_lookup(s.drop_first(), p)
    }
}

/// Whether all entry keys are distinct: the map invariant.
pub open spec fn assoc_distinct<K, V>(s: Seq<(K, V)>) -> bool {
    forall|i: int, j: int| 0 <= i < j < s.len() ==> s[i].0 != s[j].0
}

pub proof fn lemma_lookup_some<K, V>(s: Seq<(K, V)>, p: K)
    ensures
        assoc_lookup(s, p) is Some <==> assoc_contains(s, p),
    decreases s.len(),
{
    if s.len() > 0 {
        if s[0].0 == p {
        } else {
            lemma_lookup_some(s.drop_first(), p);
            if assoc_contains(s.drop_first(), p) {
                let i = choose|i: int|
                    0 <= i < s.drop_first().len() && s.drop_first()[i].0 == p;
                assert(s[i + 1].0 == p);
            } else if assoc_contains(s, p) {
                let i = choose|i: int| 0 <= i < s.len() && s[i].0 == p;
                assert(s.drop_first()[i - 1].0 == p);
            }
        }
    }
}

/// The lookup of `p` finds the entry at index `i` when no earlier entry has
/// path `p`.
pub proof fn lemma_lookup_at<K, V>(s: Seq<(K, V)>, p: K, i: int)
    requires
        0 <= i < s.len(),
        s[i].0 == p,
        forall|j: int| 0 <= j < i ==> s[j].0 != p,
    ensures
        assoc_lookup(s, p) == Some(s[i].1),
    decreases s.len(),
{
    if i == 0 {
    } else {
        assert(forall|j: int| 0 <= j < i - 1 ==> s.drop_first()[j].0 != p);
        lemma_lookup_at(s.drop_first(), p, i - 1);
    }
}

/// Looking a path up after appending one entry.
pub proof fn lemma_lookup_push<K, V>(s: Seq<(K, V)>, e: (K, V), p: K)
    ensures
        assoc_lookup(s.push(e), p) == if assoc_contains(s, p) {
            assoc_lookup(s, p)
        } else if e.0 == p {
            Some(e.1)
        } else {
            None::<V>
        },
    decreases s.len(),
{
    lemma_lookup_some(s, p);
    if s.len() == 0 {
        assert(s.push(e)[0] == e);
        assert(s.push(e).len() == 1);
        if e.0 != p {
            lemma_lookup_some(s.push(e), p);
            if assoc_contains(s.push(e), p) {
                let i = choose|i: int| 0 <= i < s.push(e).len() && s.push(e)[i].0 == p;
                assert(i == 0);
            }
        }
    } else {
        assert(s.push(e)[0] == s[0]);
        if s[0].0 == p {
        } else {
            assert(s.push(e).drop_first() =~= s.drop_first().push(e));
            lemma_lookup_push(s.drop_first(), e, p);
            lemma_lookup_some(s.drop_first(), p);
            if assoc_contains(s, p) {
                let i = choose|i: int| 0 <= i < s.len() && s[i].0 == p;
                assert(i > 0);
                assert(s.drop_first()[i - 1].0 == p);
            } else {
                if assoc_contains(s.drop_first(), p) {
                    let i = choose|i: int|
                        0 <= i < s.drop_first().len() && s.drop_first()[i].0 == p;
                    assert(s[i + 1].0 == p);
                }
            }
        }
    }
}

/// Looking a path up in a concatenation: the left side wins where it has the
/// path.
pub proof fn lemma_lookup_add<K, V>(a: Seq<(K, V)>, b: Seq<(K, V)>, p: K)
    ensures
        assoc_lookup(a + b, p) == if assoc_contains(a, p) {
            assoc_lookup(a, p)
        } else {
            assoc_lookup(b, p)
        },
    decreases b.len(),
{
    if b.len() == 0 {
        assert(a + b =~= a);
        lemma_lookup_some(a, p);
    } else {
        let bdl = b.drop_last();
        assert(a + b =~= (a + bdl).push(b.last()));
        assert(b =~= bdl.push(b.last()));
        lemma_lookup_add(a, bdl, p);
        lemma_lookup_push(a + bdl, b.last(), p);
        lemma_lookup_push(bdl, b.last(), p);
        lemma_lookup_some(a, p);
        lemma_lookup_some(bdl, p);
        lemma_lookup_some(b, p);
        if assoc_contains(a, p) {
            let i = choose|i: int| 0 <= i < a.len() && a[i].0 == p;
            assert((a + bdl)[i] == a[i]);
            assert(assoc_contains(a + bdl, p));
        } else if assoc_contains(bdl, p) {
            let i = choose|i: int| 0 <= i < bdl.len() && bdl[i].0 == p;
            assert((a + bdl)[a.len() + i] == bdl[i]);
            assert(assoc_contains(a + bdl, p));
        } else {
            if assoc_contains(a + bdl, p) {
                let i = choose|i: int| 0 <= i < (a + bdl).len() && (a + bdl)[i].0 == p;
                if i < a.len() {
                    assert(a[i].0 == p);
                } else {
                    assert(bdl[i - a.len()].0 == p);
                }
                assert(false);
            }
        }
    }
}

/// The first position of the entry keyed `k`, if any.
pub open spec fn assoc_key_index<K, V>(s: Seq<(K, V)>, k: K) -> Option<int>
    decreases s.len(),
{
    if s.len() == 0 {
        None
    } else if s[0].0 == k {
        Some(0int)
    } else {
        match assoc_key_index(s.drop_first(), k) {
            Some(i) => Some(i + 1),
            None => None,
        }
    }
}

pub proof fn lemma_assoc_key_index<K, V>(s: Seq<(K, V)>, k: K)
    ensures
        match assoc_key_index(s, k) {
            Some(i) => 0 <= i < s.len() && s[i].0 == k && forall|j: int|
                0 <= j < i ==> s[j].0 != k,
            None => forall|j: int| 0 <= j < s.len() ==> s[j].0 != k,
        },
    decreases s.len(),
{
    if s.len() > 0 && s[0].0 != k {
        lemma_assoc_key_index(s.drop_first(), k);
        match assoc_key_index(s.drop_first(), k) {
            Some(i) => {
                assert(s.drop_first()[i] == s[i + 1]);
                assert forall|j: int| 0 <= j < i + 1 implies s[j].0 != k by {
                    if j > 0 {
                        assert(s.drop_first()[j - 1].0 != k);
                    }
                }
            },
            None => {
                assert forall|j: int| 0 <= j < s.len() implies s[j].0 != k by {
                    if j > 0 {
                        assert(s.drop_first()[j - 1].0 != k);
                    }
                }
            },
        }
    }
}

/// Replaces the value of the first entry keyed `k`, or appends one.
pub open spec fn assoc_put<K, V>(s: Seq<(K, V)>, k: K, v: V) -> Seq<(K, V)> {
    match assoc_key_index(s, k) {
        Some(i) => s.update(i, (k, v)),
        None => s.push((k, v)),
    }
}

/// A put keeps distinct keys distinct.
pub proof fn lemma_assoc_put_distinct<K, V>(s: Seq<(K, V)>, k: K, v: V)
    requires
        assoc_distinct(s),
    ensures
        assoc_distinct(assoc_put(s, k, v)),
{
    lemma_assoc_key_index(s, k);
    match assoc_key_index(s, k) {
        Some(i) => {
            let s2 = s.update(i, (k, v));
            assert forall|a: int, b: int| 0 <= a < b < s2.len() implies s2[a].0 != s2[b].0 by {
                if a != i && b != i {
                    assert(s2[a] == s[a] && s2[b] == s[b]);
                } else if a == i {
                    assert(s2[b] == s[b]);
                    assert(s[i].0 == k);
                } else {
                    assert(s2[a] == s[a]);
                    assert(s[i].0 == k);
                }
            }
        },
        None => {
            let s2 = s.push((k, v));
            assert forall|a: int, b: int| 0 <= a < b < s2.len() implies s2[a].0 != s2[b].0 by {
                if b < s.len() {
                } else {
                    assert(s2[b].0 == k);
                    assert(s[a].0 != k);
                }
            }
        },
    }
}

/// Removes the first entry keyed `k`, if any.
pub open spec fn assoc_remove_entry<K, V>(s: Seq<(K, V)>, k: K) -> Seq<(K, V)> {
    match assoc_key_index(s, k) {
        Some(i) => s.remove(i),
        None => s,
    }
}

/// An ordered mapping from structural paths to values, with each path
/// occurring at most once (`wf`). Entries keep their insertion order, which
/// makes flattening deterministic.
#[derive(Debug)]
pub struct PathMap<T> {
    entries: Vec<(Vec<String>, T)>,
}

impl<T: DeepView> View for PathMap<T> {
    type V = Seq<EntryModel<<T as DeepView>::V>>;

    closed spec fn view(&self) -> Seq<EntryModel<<T as DeepView>::V>> {
        self.entries.deep_view()
    }
}

impl<T: DeepView> PathMap<T> {
    /// The map invariant: no path occurs twice.
    pub open spec fn wf(&self) -> bool {
        assoc_distinct(self@)
    }

    pub fn new() -> (r: PathMap<T>)
        ensures
            r@ == Seq::<EntryModel<<T as DeepView>::V>>::empty(),
            r.wf(),
    {
        let r = PathMap { entries: Vec::new() };
        proof {
            assert(r@ =~= Seq::<EntryModel<<T as DeepView>::V>>::empty());
        }
        r
    }

    pub fn len(&self) -> (r: usize)
        ensures
            r == self@.len(),
    {
        self.entries.len()
    }

    /// The entry at position `i`, in insertion order.
    pub fn entry_at(&self, i: usize) -> (r: &(Vec<String>, T))
        requires
            i < self@.len(),
        ensures
            r.deep_view() == self@[i as int],
    {
        &self.entries[i]
    }

    /// Appends an entry for a path not yet present.
    pub fn insert(&mut self, path: Vec<String>, value: T)
        requires
            old(self).wf(),
            !assoc_contains(old(self)@, path.deep_view()),
        ensures
            final(self)@ == old(self)@.push((path.deep_view(), value.deep_view())),
            final(self).wf(),
    {
        let ghost oldv = self@;
        let ghost e = (path.deep_view(), value.deep_view());
        self.entries.push((path, value));
        proof {
            assert(self@ =~= oldv.push(e));
            assert forall|i: int, j: int| 0 <= i < j < self@.len() implies self@[i].0
                != self@[j].0 by {
                if j < oldv.len() {
                } else {
                    assert(self@[j] == e);
                    assert(!assoc_contains(oldv, e.0));
                    assert(self@[i].0 != e.0);
                }
            }
        }
    }

    /// Moves every entry of `other` onto the end of `self`; no path of
    /// `other` may already be present.
    pub fn append_all(&mut self, other: PathMap<T>)
        requires
            old(self).wf(),
            other.wf(),
            forall|i: int| 0 <= i < other@.len() ==> !assoc_contains(old(self)@, other@[i].0),
        ensures
            final(self)@ == old(self)@ + other@,
            final(self).wf(),
    {
        let ghost oldv = self@;
        let mut o = other;
        self.entries.append(&mut o.entries);
        proof {
            assert forall|k: int| 0 <= k < self@.len() implies self@[k] == (oldv + other@)[k] by {
                if k < oldv.len() {
                    assert(self.entries@[k].deep_view() == oldv[k]);
                } else {
                    assert(self.entries@[k].deep_view() == other@[k - oldv.len()]);
                }
            }
            assert(self@ =~= oldv + other@);
            assert forall|i: int, j: int| 0 <= i < j < self@.len() implies self@[i].0
                != self@[j].0 by {
                if i < oldv.len() && j >= oldv.len() {
                    assert(!assoc_contains(oldv, other@[j - oldv.len()].0));
                    assert(self@[i].0 == oldv[i].0);
                    if self@[i].0 == self@[j].0 {
                        assert(oldv[i].0 == other@[j - oldv.len()].0);
                        assert(false);
                    }
                }
            }
        }
    }

    /// The first entry for the path, if any.
    pub fn get(&self, path: &Vec<String>) -> (r: Option<&T>)
        ensures
            match r {
                Some(v) => assoc_lookup(self@, path.deep_view()) == Some(v.deep_view()),
                None => assoc_lookup(self@, path.deep_view()) is None,
            },
    {
        let mut i: usize = 0;
        let n = self.entries.len();
        while i < n
            invariant
                n == self@.len(),
                i <= n,
                forall|j: int| 0 <= j < i ==> self@[j].0 != path.deep_view(),
            decreases n - i,
        {
            if path_eq(&self.entries[i].0, path) {
                proof {
                    assert(self@[i as int] == self.entries@[i as int].deep_view());
                    lemma_lookup_at(self@, path.deep_view(), i as int);
                }
                return Some(&self.entries[i].1);
            }
            proof {
                assert(self@[i as int] == self.entries@[i as int].deep_view());
            }
            i += 1;
        }
        proof {
            lemma_lookup_some(self@, path.deep_view());
        }
        None
    }

    /// Whether the map has an entry for the path.
    pub fn contains(&self, path: &Vec<String>) -> (r: bool)
        ensures
            r == assoc_contains(self@, path.deep_view()),
    {
        proof {
            lemma_lookup_some(self@, path.deep_view());
        }
        match self.get(path) {
            Some(_) => true,
            None => false,
        }
    }
}

/// Path equality, stated over the models.
pub fn path_eq(a: &Vec<String>, b: &Vec<String>) -> (r: bool)
    ensures
        r == (a.deep_view() == b.deep_view()),
{
    let n = a.len();
    if n != b.len() {
        proof {
            assert(a.deep_view().len() == a@.len());
            assert(b.deep_view().len() == b@.len());
        }
        return false;
    }
    let mut i: usize = 0;
    while i < n
        invariant
            n == a@.len(),
            n == b@.len(),
            i <= n,
            forall|j: int| 0 <= j < i ==> a@[j]@ == b@[j]@,
        decreases n - i,
    {
        if !crate::strutil::str_eq(a[i].as_str(), b[i].as_str()) {
            proof {
                assert(a.deep_view()[i as int] == a@[i as int]@);
                assert(b.deep_view()[i as int] == b@[i as int]@);
            }
            return false;
        }
        i += 1;
    }
    proof {
        assert(a.deep_view() =~= b.deep_view());
    }
    true
}

/// The entries of `s`, each path re-prefixed with one extra leading segment.
pub open spec fn prefixed_entries<V>(pre: Seq<char>, s: Seq<EntryModel<V>>) -> Seq<EntryModel<V>> {
    s.map_values(|e: EntryModel<V>| (seq![pre] + e.0, e.1))
}

impl PathMap<Value> {
    /// Moves every entry of `other` into `self`, re-prefixing each path with
    /// the field name `prefix`. Prefix injection must preserve uniqueness,
    /// which the precondition states.
    pub fn extend_prefixed(&mut self, prefix: &str, other: PathMap<Value>)
        requires
            old(self).wf(),
            other.wf(),
            forall|i: int| 0 <= i < other@.len() ==> !assoc_contains(
                old(self)@,
                seq![prefix@] + other@[i].0,
            ),
        ensures
            final(self)@ == old(self)@ + prefixed_entries(prefix@, other@),
            final(self).wf(),
    {
        let ghost orig = other@;
        let n = other.entries.len();
        let mut k: usize = 0;
        proof {
            assert(old(self)@ + prefixed_entries(prefix@, orig.take(0)) =~= old(self)@);
            assert(n == orig.len());
        }
        while k < n
            invariant
                self.wf(),
                other.wf(),
                orig == other@,
                n == orig.len(),
                n == other.entries@.len(),
                k <= n,
                self@ == old(self)@ + prefixed_entries(prefix@, orig.take(k as int)),
                forall|i: int| 0 <= i < orig.len() ==> !assoc_contains(
                    old(self)@,
                    seq![prefix@] + orig[i].0,
                ),
            decreases n - k,
        {
            let e = &other.entries[k];
            proof {
                assert(e.deep_view() == orig[k as int]);
                assert(e.0.deep_view() == orig[k as int].0);
                assert(e.1.deep_view() == orig[k as int].1);
                assert(forall|i: int, j: int|
                    0 <= i < j < orig.len() ==> orig[i].0 != orig[j].0);
            }
            let v = e.1.dup();
            let mut np: Vec<String> = Vec::new();
            np.push(String::from_str(prefix));
            let mut ptail = crate::strutil::clone_path(&e.0);
            np.append(&mut ptail);
            proof {
                assert(np.deep_view() =~= seq![prefix@] + orig[k as int].0);
                // The new path is fresh: not among the old entries by the
                // precondition, and not among the entries added so far since
                // prefixing keeps distinct paths distinct.
                let npm = seq![prefix@] + orig[k as int].0;
                assert forall|i: int| 0 <= i < self@.len() implies self@[i].0 != npm by {
                    if i < old(self)@.len() {
                        assert(!assoc_contains(old(self)@, npm));
                    } else {
                        let j = i - old(self)@.len();
                        let ej = prefixed_entries(prefix@, orig.take(k as int))[j];
                        assert(ej.0 == seq![prefix@] + orig.take(k as int)[j].0);
                        assert(orig[j].0 != orig[k as int].0);
                        if ej.0 == npm {
                            assert((seq![prefix@] + orig[j].0).skip(1) =~= orig[j].0);
                            assert((seq![prefix@] + orig[k as int].0).skip(1) =~= orig[
                                k as int].0);
                            assert(false);
                        }
                    }
                }
                if assoc_contains(self@, npm) {
                    let i = choose|i: int| 0 <= i < self@.len() && self@[i].0 == npm;
                    assert(false);
                }
            }
            self.insert(np, v);
            k += 1;
            proof {
                assert(prefixed_entries(prefix@, orig.take(k as int)) =~= prefixed_entries(
                    prefix@,
                    orig.take(k as int - 1),
                ).push((seq![prefix@] + orig[k as int - 1].0, orig[k as int - 1].1)));
                assert(self@ =~= old(self)@ + prefixed_entries(prefix@, orig.take(k as int)));
            }
        }
        proof {
            assert(orig.take(n as int) =~= orig);
        }
    }
}

/// The list-as-set encoding of a string collection: each element becomes a
/// present/absent unit-valued leaf keyed by the element's own text.
pub open spec fn set_entries(l: Seq<Seq<char>>) -> Seq<EntryModel<ValueModel>> {
    l.map_values(|x: Seq<char>| (seq![x], ValueModel::Unit))
}

/// Whether all strings in the sequence are distinct.
pub open spec fn strings_distinct(l: Seq<Seq<char>>) -> bool {
    forall|i: int, j: int| 0 <= i < j < l.len() ==> l[i] != l[j]
}

/// Flattens a string collection as a set of unit-valued leaves.
pub fn string_set(l: &Vec<String>) -> (r: PathMap<Value>)
    requires
        strings_distinct(l.deep_view()),
    ensures
        r@ == set_entries(l.deep_view()),
        r.wf(),
{
    let ghost lm = l.deep_view();
    let mut r = PathMap::<Value>::new();
    let mut i: usize = 0;
    proof {
        assert(r@ =~= set_entries(lm.take(0)));
    }
    while i < l.len()
        invariant
            i <= l@.len(),
            lm == l.deep_view(),
            strings_distinct(lm),
            r.wf(),
            r@ == set_entries(lm.take(i as int)),
        decreases l@.len() - i,
    {
        proof {
            assert(lm[i as int] == l@[i as int]@);
            let np = seq![lm[i as int]];
            assert forall|j: int| 0 <= j < r@.len() implies r@[j].0 != np by {
                assert(r@[j].0 == seq![lm.take(i as int)[j]]);
                assert(lm[j] != lm[i as int]);
                if r@[j].0 == np {
                    assert(r@[j].0[0] == lm[j]);
                    assert(np[0] == lm[i as int]);
                }
            }
            if assoc_contains(r@, np) {
                let j = choose|j: int| 0 <= j < r@.len() && r@[j].0 == np;
                assert(false);
            }
        }
        let seg = clone_string(&l[i]);
        let mut path: Vec<String> = Vec::new();
        path.push(seg);
        proof {
            assert(path.deep_view() =~= seq![lm[i as int]]);
        }
        r.insert(path, Value::Unit);
        i += 1;
        proof {
            assert(set_entries(lm.take(i as int)) =~= set_entries(
                lm.take(i as int - 1),
            ).push((seq![lm[i as int - 1]], ValueModel::Unit)));
        }
    }
    proof {
        assert(lm.take(l@.len() as int) =~= lm);
    }
    r
}


/// The chain encoding of an ordered string sequence: the marker path holds
/// the first element, and for each element but the last, the path
/// `[marker, element]` holds the element that follows it. The last element
/// has no successor entry; an empty sequence produces no entries.
pub open spec fn chain_entries(marker: Seq<char>, l: Seq<Seq<char>>) -> Seq<
    EntryModel<ValueModel>,
> {
    if l.len() == 0 {
        Seq::empty()
    } else {
        seq![(seq![marker], ValueModel::Text(l[0]))] + Seq::new(
            (l.len() - 1) as nat,
            |i: int| (seq![marker, l[i]], ValueModel::Text(l[i + 1])),
        )
    }
}

/// Flattens an ordered string sequence in chain encoding.
pub fn chain_map(marker: &str, l: &Vec<String>) -> (r: PathMap<Value>)
    requires
        strings_distinct(l.deep_view()),
    ensures
        r@ == chain_entries(marker@, l.deep_view()),
        r.wf(),
{
    let ghost lm = l.deep_view();
    let ghost ce = chain_entries(marker@, lm);
    let mut r = PathMap::<Value>::new();
    if l.len() == 0 {
        proof {
            assert(r@ =~= ce);
        }
        return r;
    }
    let mut p0: Vec<String> = Vec::new();
    p0.push(String::from_str(marker));
    proof {
        assert(p0.deep_view() =~= seq![marker@]);
        assert(lm[0] == l@[0]@);
        if assoc_contains(r@, p0.deep_view()) {
            let k = choose|k: int| 0 <= k < r@.len() && r@[k].0 == p0.deep_view();
            assert(false);
        }
    }
    r.insert(p0, Value::Text(clone_string(&l[0])));
    proof {
        assert(ce[0] == (seq![marker@], ValueModel::Text(lm[0])));
        assert(r@ =~= ce.take(1));
    }
    let mut i: usize = 0;
    let n = l.len();
    while i + 1 < n
        invariant
            n == lm.len(),
            n >= 1,
            n == l@.len(),
            lm == l.deep_view(),
            strings_distinct(lm),
            ce == chain_entries(marker@, lm),
            i + 1 <= n,
            r.wf(),
            r@ == ce.take(i as int + 1),
        decreases n - i,
    {
        let mut p: Vec<String> = Vec::new();
        p.push(String::from_str(marker));
        p.push(clone_string(&l[i]));
        let ghost pm = seq![marker@, lm[i as int]];
        proof {
            assert(lm[i as int] == l@[i as int]@);
            assert(p.deep_view() =~= pm);
            assert forall|k: int| 0 <= k < r@.len() implies r@[k].0 != pm by {
                assert(r@[k] == ce[k]);
                if k == 0 {
                    assert(ce[0].0 == seq![marker@]);
                    assert(ce[0].0.len() == 1);
                    assert(pm.len() == 2);
                } else {
                    assert(ce[k] == (seq![marker@, lm[k - 1]], ValueModel::Text(lm[k])));
                    assert(lm[k - 1] != lm[i as int]);
                    if ce[k].0 == pm {
                        assert(ce[k].0[1] == lm[k - 1]);
                        assert(pm[1] == lm[i as int]);
                        assert(false);
                    }
                }
            }
            if assoc_contains(r@, pm) {
                let k = choose|k: int| 0 <= k < r@.len() && r@[k].0 == pm;
                assert(false);
            }
        }
        r.insert(p, Value::Text(clone_string(&l[i + 1])));
        i += 1;
        proof {
            assert(ce[i as int] == (seq![marker@, lm[i as int - 1]], ValueModel::Text(
                lm[i as int],
            )));
            assert(r@ =~= ce.take(i as int + 1));
        }
    }
    proof {
        assert(ce.take(i as int + 1) =~= ce);
    }
    r
}

} // verus!
