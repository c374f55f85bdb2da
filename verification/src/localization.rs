use vstd::prelude::*;
use vstd::string::{StrSliceExecFns, StringExecFns};
use crate::map::{
    assoc_contains, assoc_distinct, assoc_key_index, assoc_lookup, assoc_put, lemma_assoc_key_index,
    lemma_assoc_put_distinct, prefixed_entries, EntryModel, PathMap,
};
use crate::merge::{all_triples, changes_at, flatten_sources, merge_triples, sources_wf};
use crate::patch::{Conflicts, Patch, PatchError, SourceChange};
use crate::strutil::{clone_string, str_eq};
use crate::value::{ChangeModel, ItemChange, Value, ValueModel};

verus! {

/// One language's translation table: string keys with their translations.
#[derive(Clone, Debug, PartialEq)]
pub struct LanguageTable(pub Vec<(String, String)>);

/// The model of a language table.
pub type LanguageTableModel = Seq<(Seq<char>, Seq<char>)>;

impl View for LanguageTable {
    type V = LanguageTableModel;

    open spec fn view(&self) -> LanguageTableModel {
        self.0.deep_view()
    }
}

impl DeepView for LanguageTable {
    type V = LanguageTableModel;

    open spec fn deep_view(&self) -> LanguageTableModel {
        self.view()
    }
}

/// The localization tables: one translation table per language id.
#[derive(Clone, Debug, PartialEq)]
pub struct StringsTable(pub Vec<(String, LanguageTable)>);

/// The model of the localization tables.
pub type StringsTableModel = Seq<(Seq<char>, LanguageTableModel)>;

impl View for StringsTable {
    type V = StringsTableModel;

    open spec fn view(&self) -> StringsTableModel {
        self.0.deep_view()
    }
}

/// The tables' invariant: language ids distinct, keys distinct per language.
pub open spec fn strings_table_wf(st: StringsTableModel) -> bool {
    &&& assoc_distinct(st)
    &&& forall|i: int| 0 <= i < st.len() ==> assoc_distinct((#[trigger] st[i]).1)
}

/// The flat entries of one language table: each key one text leaf.
pub open spec fn lang_entries(t: LanguageTableModel) -> Seq<EntryModel<ValueModel>> {
    t.map_values(|kv: (Seq<char>, Seq<char>)| (seq![kv.0], ValueModel::Text(kv.1)))
}

/// The flat form of the tables up to language `n`: each language's entries
/// under the language id.
pub open spec fn table_entries_upto(st: StringsTableModel, n: int) -> Seq<EntryModel<ValueModel>>
    decreases n,
{
    if n <= 0 {
        Seq::empty()
    } else {
        table_entries_upto(st, n - 1) + prefixed_entries(st[n - 1].0, lang_entries(st[n - 1].1))
    }
}

pub open spec fn table_entries(st: StringsTableModel) -> Seq<EntryModel<ValueModel>> {
    table_entries_upto(st, st.len() as int)
}

impl LanguageTable {
    /// Flattens one language table.
    #[verifier::loop_isolation(false)]
    pub fn to_map(&self) -> (r: PathMap<Value>)
        requires
            assoc_distinct(self@),
        ensures
            r@ == lang_entries(self@),
            r.wf(),
    {
        let ghost tm = self@;
        let mut m = PathMap::<Value>::new();
        let mut i: usize = 0;
        let n = self.0.len();
        proof {
            assert(m@ =~= lang_entries(tm).take(0));
        }
        while i < n
            invariant
                n == tm.len(),
                tm == self@,
                assoc_distinct(tm),
                i <= n,
                m.wf(),
                m@ == lang_entries(tm).take(i as int),
            decreases n - i,
        {
            proof {
                assert(tm[i as int] == self.0@[i as int].deep_view());
            }
            let mut path: Vec<String> = Vec::new();
            path.push(clone_string(&self.0[i].0));
            proof {
                assert(path.deep_view() =~= seq![tm[i as int].0]);
                assert forall|t: int| 0 <= t < m@.len() implies m@[t].0 != path.deep_view() by {
                    assert(m@[t] == lang_entries(tm)[t]);
                    assert(m@[t].0 == seq![tm[t].0]);
                    assert(tm[t].0 != tm[i as int].0);
                    if m@[t].0 == path.deep_view() {
                        assert(m@[t].0[0] == tm[t].0);
                        assert(path.deep_view()[0] == tm[i as int].0);
                        assert(false);
                    }
                }
                if assoc_contains(m@, path.deep_view()) {
                    let t = choose|t: int| 0 <= t < m@.len() && m@[t].0 == path.deep_view();
                    assert(false);
                }
            }
            m.insert(path, Value::Text(clone_string(&self.0[i].1)));
            i += 1;
            proof {
                assert(m@ =~= lang_entries(tm).take(i as int));
            }
        }
        proof {
            assert(lang_entries(tm).take(n as int) =~= lang_entries(tm));
        }
        m
    }
}

impl StringsTable {
    /// Flattens the whole table set: deterministic given the tables, with no
    /// side effects and no failure cases.
    #[verifier::loop_isolation(false)]
    pub fn to_map(&self) -> (r: PathMap<Value>)
        requires
            strings_table_wf(self@),
        ensures
            r@ == table_entries(self@),
            r.wf(),
    {
        let ghost st = self@;
        let mut m = PathMap::<Value>::new();
        let mut i: usize = 0;
        let n = self.0.len();
        proof {
            assert(m@ =~= table_entries_upto(st, 0));
        }
        while i < n
            invariant
                n == st.len(),
                st == self@,
                strings_table_wf(st),
                i <= n,
                m.wf(),
                m@ == table_entries_upto(st, i as int),
                forall|k: int| 0 <= k < m@.len() ==> (#[trigger] m@[k]).0.len() >= 1 && exists|
                    j: int,
                |
                    0 <= j < i && m@[k].0[0] == (#[trigger] st[j]).0,
            decreases n - i,
        {
            proof {
                assert(st[i as int] == self.0@[i as int].deep_view());
                assert(assoc_distinct(st[i as int].1));
            }
            let g = self.0[i].1.to_map();
            let ghost oldm = m@;
            proof {
                assert forall|k: int| 0 <= k < g@.len() implies !assoc_contains(
                    m@,
                    seq![st[i as int].0] + g@[k].0,
                ) by {
                    if assoc_contains(m@, seq![st[i as int].0] + g@[k].0) {
                        let t = choose|t: int|
                            0 <= t < m@.len() && m@[t].0 == seq![st[i as int].0] + g@[k].0;
                        assert(m@[t].0[0] == st[i as int].0);
                        let j = choose|j: int|
                            0 <= j < i && m@[t].0[0] == (#[trigger] st[j]).0;
                        assert(st[j].0 != st[i as int].0);
                        assert(false);
                    }
                }
            }
            m.extend_prefixed(self.0[i].0.as_str(), g);
            i += 1;
            proof {
                assert(m@ =~= table_entries_upto(st, i as int));
                assert forall|k: int| 0 <= k < m@.len() implies (#[trigger] m@[k]).0.len() >= 1
                    && exists|j: int| 0 <= j < i && m@[k].0[0] == (#[trigger] st[j]).0 by {
                    if k < oldm.len() {
                        assert(m@[k] == oldm[k]);
                    } else {
                        let e = prefixed_entries(st[i - 1].0, lang_entries(st[i - 1].1))[k
                            - oldm.len()];
                        assert(m@[k] == e);
                        assert(m@[k].0[0] == st[i - 1].0);
                    }
                }
            }
        }
        proof {
            assert(table_entries_upto(st, n as int) == table_entries(st));
        }
        m
    }

    /// Builds the tables from per-language key/value pairs, as the external
    /// XML loader hands them over: a repeated language id replaces the
    /// earlier table, a repeated key within a language replaces the earlier
    /// translation.
    #[verifier::loop_isolation(false)]
    pub fn from_languages(input: &Vec<(String, Vec<(String, String)>)>) -> (r: StringsTable)
        ensures
            r@ == languages_model(input.deep_view(), input.deep_view().len() as int),
            strings_table_wf(r@),
    {
        let ghost lm = input.deep_view();
        let mut st: Vec<(String, LanguageTable)> = Vec::new();
        let mut i: usize = 0;
        let n = input.len();
        proof {
            assert(st.deep_view() =~= languages_model(lm, 0));
        }
        while i < n
            invariant
                n == lm.len(),
                lm == input.deep_view(),
                i <= n,
                st.deep_view() == languages_model(lm, i as int),
                strings_table_wf(st.deep_view()),
            decreases n - i,
        {
            proof {
                assert(lm[i as int] == input@[i as int].deep_view());
            }
            let tbl = LanguageTable::from_pairs(&input[i].1);
            let ghost before = st.deep_view();
            let ghost id = lm[i as int].0;
            let ghost newt = tbl@;
            proof {
                lemma_assoc_key_index(before, id);
                lemma_assoc_put_distinct(before, id, newt);
            }
            let mut t: usize = 0;
            let tn = st.len();
            let mut found = false;
            while t < tn
                invariant
                    tn == before.len(),
                    before == st.deep_view(),
                    t <= tn,
                    !found ==> forall|u: int| 0 <= u < t ==> (#[trigger] before[u]).0 != id,
                    found ==> t < tn && before[t as int].0 == id,
                decreases tn - t + if found {
                    0int
                } else {
                    1int
                },
            {
                if found {
                    break ;
                }
                proof {
                    assert(before[t as int] == st@[t as int].deep_view());
                }
                if str_eq(st[t].0.as_str(), input[i].0.as_str()) {
                    found = true;
                } else {
                    t += 1;
                }
            }
            if found {
                let kc = clone_string(&st[t].0);
                st.set(t, (kc, tbl));
                proof {
                    match assoc_key_index(before, id) {
                        Some(fi) => {
                            assert(fi == t);
                        },
                        None => {
                            assert(before[t as int].0 != id);
                        },
                    }
                    assert(st.deep_view() =~= before.update(t as int, (id, newt)));
                }
            } else {
                st.push((clone_string(&input[i].0), tbl));
                proof {
                    match assoc_key_index(before, id) {
                        Some(fi) => {
                            assert(before[fi].0 != id);
                        },
                        None => {},
                    }
                    assert(st.deep_view() =~= before.push((id, newt)));
                }
            }
            i += 1;
            proof {
                assert forall|g: int| 0 <= g < st.deep_view().len() implies assoc_distinct(
                    (#[trigger] st.deep_view()[g]).1,
                ) by {
                    if found && g == t {
                    } else if !found && g == before.len() {
                    } else {
                        assert(st.deep_view()[g] == before[g]);
                    }
                }
            }
        }
        StringsTable(st)
    }
}

/// The tables folded from the first `n` languages, later languages
/// replacing earlier ones of the same id.
pub open spec fn languages_model(
    lm: Seq<(Seq<char>, Seq<(Seq<char>, Seq<char>)>)>,
    n: int,
) -> StringsTableModel
    decreases n,
{
    if n <= 0 {
        Seq::empty()
    } else {
        assoc_put(languages_model(lm, n - 1), lm[n - 1].0, pairs_model(lm[n - 1].1, lm[n
            - 1].1.len() as int))
    }
}

/// One language's table folded from its pairs, later pairs replacing
/// earlier ones of the same key.
pub open spec fn pairs_model(ps: Seq<(Seq<char>, Seq<char>)>, n: int) -> LanguageTableModel
    decreases n,
{
    if n <= 0 {
        Seq::empty()
    } else {
        assoc_put(pairs_model(ps, n - 1), ps[n - 1].0, ps[n - 1].1)
    }
}

impl LanguageTable {
    /// Builds one language's table from key/value pairs, later pairs
    /// replacing earlier ones of the same key.
    #[verifier::loop_isolation(false)]
    pub fn from_pairs(input: &Vec<(String, String)>) -> (r: LanguageTable)
        ensures
            r@ == pairs_model(input.deep_view(), input.deep_view().len() as int),
            assoc_distinct(r@),
    {
        let ghost pm = input.deep_view();
        let mut tbl: Vec<(String, String)> = Vec::new();
        let mut i: usize = 0;
        let n = input.len();
        proof {
            assert(tbl.deep_view() =~= pairs_model(pm, 0));
        }
        while i < n
            invariant
                n == pm.len(),
                pm == input.deep_view(),
                i <= n,
                tbl.deep_view() == pairs_model(pm, i as int),
                assoc_distinct(tbl.deep_view()),
            decreases n - i,
        {
            proof {
                assert(pm[i as int] == input@[i as int].deep_view());
                lemma_assoc_put_distinct(tbl.deep_view(), pm[i as int].0, pm[i as int].1);
            }
            crate::hero_apply::skill_other_put(
                &mut tbl,
                &input[i].0,
                clone_string(&input[i].1),
            );
            i += 1;
        }
        LanguageTable(tbl)
    }
}

/// A copy of the tables whose model is unchanged.
#[verifier::loop_isolation(false)]
pub fn clone_tables(v: &Vec<(String, LanguageTable)>) -> (r: Vec<(String, LanguageTable)>)
    ensures
        r.deep_view() == v.deep_view(),
{
    let mut r: Vec<(String, LanguageTable)> = Vec::new();
    let mut i: usize = 0;
    while i < v.len()
        invariant
            i <= v@.len(),
            r@.len() == i,
            r.deep_view() == v.deep_view().take(i as int),
        decreases v@.len() - i,
    {
        proof {
            assert(v.deep_view()[i as int] == v@[i as int].deep_view());
        }
        r.push(
            (
                clone_string(&v[i].0),
                LanguageTable(crate::hero_apply::clone_string_pairs(&v[i].1.0)),
            ),
        );
        i += 1;
        proof {
            assert(r.deep_view() =~= v.deep_view().take(i as int));
        }
    }
    proof {
        assert(v.deep_view().take(v@.len() as int) =~= v.deep_view());
    }
    r
}

/// What one edit does to the tables: the path names a language and a string
/// key; a text put sets (or adds) the translation, a removal deletes it, and
/// removing from an absent language or key is fatal.
pub open spec fn strings_entry_model(
    st: StringsTableModel,
    p: Seq<Seq<char>>,
    c: ChangeModel,
) -> Result<StringsTableModel, PatchError> {
    if p.len() != 2 {
        Err(PatchError::BadPathShape)
    } else {
        match c {
            ChangeModel::Put(ValueModel::Text(v)) => Ok(
                match assoc_key_index(st, p[0]) {
                    Some(i) => st.update(i, (p[0], assoc_put(st[i].1, p[1], v))),
                    None => st.push((p[0], seq![(p[1], v)])),
                },
            ),
            ChangeModel::Put(_) => Err(PatchError::BadValueKind),
            ChangeModel::Removed => match assoc_key_index(st, p[0]) {
                None => Err(PatchError::MissingKey),
                Some(i) => match assoc_key_index(st[i].1, p[1]) {
                    None => Err(PatchError::MissingKey),
                    Some(j) => Ok(st.update(i, (st[i].0, st[i].1.remove(j)))),
                },
            },
        }
    }
}

/// The patch folded over the tables entry by entry.
pub open spec fn strings_apply_model(
    st: StringsTableModel,
    pm: Seq<(crate::map::PathModel, ChangeModel)>,
    i: int,
) -> Result<StringsTableModel, PatchError>
    decreases pm.len() - i,
{
    if i < 0 || i >= pm.len() {
        Ok(st)
    } else {
        match strings_entry_model(st, pm[i].0, pm[i].1) {
            Ok(st2) => strings_apply_model(st2, pm, i + 1),
            Err(e) => Err(e),
        }
    }
}

impl StringsTable {
    /// Applies one edit in place, exactly as `strings_entry_model` says.
    #[verifier::loop_isolation(false)]
    pub fn apply_one(&mut self, path: &Vec<String>, change: &ItemChange) -> (r: Result<
        (),
        PatchError,
    >)
        requires
            strings_table_wf(old(self)@),
        ensures
            match strings_entry_model(old(self)@, path.deep_view(), change@) {
                Ok(st2) => r == Ok::<(), PatchError>(()) && final(self)@ == st2
                    && strings_table_wf(final(self)@),
                Err(e) => r == Err::<(), PatchError>(e) && final(self)@ == old(self)@,
            },
    {
        let ghost st = self@;
        let ghost pmv = path.deep_view();
        if path.len() != 2 {
            return Err(PatchError::BadPathShape);
        }
        proof {
            assert(pmv[0] == path@[0]@);
            assert(pmv[1] == path@[1]@);
            lemma_assoc_key_index(st, pmv[0]);
        }
        let mut t: usize = 0;
        let tn = self.0.len();
        let mut found = false;
        while t < tn
            invariant
                tn == st.len(),
                st == self@,
                t <= tn,
                !found ==> forall|u: int| 0 <= u < t ==> (#[trigger] st[u]).0 != pmv[0],
                found ==> t < tn && st[t as int].0 == pmv[0],
            decreases tn - t + if found {
                0int
            } else {
                1int
            },
        {
            if found {
                break ;
            }
            proof {
                assert(st[t as int] == self.0@[t as int].deep_view());
            }
            if str_eq(self.0[t].0.as_str(), path[0].as_str()) {
                found = true;
            } else {
                t += 1;
            }
        }
        proof {
            if found {
                match assoc_key_index(st, pmv[0]) {
                    Some(fi) => {
                        assert(fi == t);
                    },
                    None => {
                        assert(st[t as int].0 != pmv[0]);
                    },
                }
            } else {
                match assoc_key_index(st, pmv[0]) {
                    Some(fi) => {
                        assert(st[fi].0 != pmv[0]);
                    },
                    None => {},
                }
            }
        }
        match change {
            ItemChange::Put(Value::Text(v)) => {
                if found {
                    proof {
                        assert(assoc_distinct(st[t as int].1));
                        lemma_assoc_put_distinct(st[t as int].1, pmv[1], v@);
                    }
                    let mut tblv = crate::hero_apply::clone_string_pairs(&self.0[t].1.0);
                    crate::hero_apply::skill_other_put(&mut tblv, &path[1], clone_string(v));
                    let kc = clone_string(&self.0[t].0);
                    self.0.set(t, (kc, LanguageTable(tblv)));
                    proof {
                        assert(self@ =~= st.update(
                            t as int,
                            (pmv[0], assoc_put(st[t as int].1, pmv[1], v@)),
                        ));
                        assert forall|g: int| 0 <= g < self@.len() implies assoc_distinct(
                            (#[trigger] self@[g]).1,
                        ) by {
                            if g != t {
                                assert(self@[g] == st[g]);
                            }
                        }
                    }
                    Ok(())
                } else {
                    let mut tblv: Vec<(String, String)> = Vec::new();
                    tblv.push((clone_string(&path[1]), clone_string(v)));
                    proof {
                        assert(tblv.deep_view() =~= seq![(pmv[1], v@)]);
                    }
                    self.0.push((clone_string(&path[0]), LanguageTable(tblv)));
                    proof {
                        assert(self@ =~= st.push((pmv[0], seq![(pmv[1], v@)])));
                        assert forall|a: int, b: int|
                            0 <= a < b < self@.len() implies self@[a].0 != self@[b].0 by {
                            if b < st.len() {
                            } else {
                                assert(self@[b].0 == pmv[0]);
                                assert(st[a].0 != pmv[0]);
                            }
                        }
                        assert forall|g: int| 0 <= g < self@.len() implies assoc_distinct(
                            (#[trigger] self@[g]).1,
                        ) by {
                            if g < st.len() {
                                assert(self@[g] == st[g]);
                            }
                        }
                    }
                    Ok(())
                }
            },
            ItemChange::Put(_) => Err(PatchError::BadValueKind),
            ItemChange::Removed => {
                if !found {
                    return Err(PatchError::MissingKey);
                }
                proof {
                    assert(assoc_distinct(st[t as int].1));
                    lemma_assoc_key_index(st[t as int].1, pmv[1]);
                }
                proof {
                    assert(t < st.len());
                    assert(st[t as int] == self.0@[t as int].deep_view());
                }
                let mut tblv = crate::hero_apply::clone_string_pairs(&self.0[t].1.0);
                let ghost tm = st[t as int].1;
                let kc0 = clone_string(&self.0[t].0);
                let mut u: usize = 0;
                let un = tblv.len();
                while u < un
                    invariant
                        t < st.len(),
                        st == self@,
                        st[t as int].0 == pmv[0],
                        kc0@ == st[t as int].0,
                        un == tm.len(),
                        tblv.deep_view() == tm,
                        u <= un,
                        forall|w: int| 0 <= w < u ==> (#[trigger] tm[w]).0 != pmv[1],
                    decreases un - u,
                {
                    proof {
                        assert(tm[u as int] == tblv@[u as int].deep_view());
                    }
                    if str_eq(tblv[u].0.as_str(), path[1].as_str()) {
                        proof {
                            match assoc_key_index(tm, pmv[1]) {
                                Some(fi) => {
                                    assert(fi == u);
                                },
                                None => {
                                    assert(tm[u as int].0 != pmv[1]);
                                },
                            }
                        }
                        tblv.remove(u);
                        proof {
                            assert(tblv.deep_view() =~= tm.remove(u as int));
                        }
                        self.0.set(t, (kc0, LanguageTable(tblv)));
                        proof {
                            assert(self@ =~= st.update(
                                t as int,
                                (st[t as int].0, tm.remove(u as int)),
                            ));
                            assert forall|a: int, b: int|
                                0 <= a < b < tm.remove(u as int).len() implies tm.remove(
                                u as int,
                            )[a].0 != tm.remove(u as int)[b].0 by {
                                assert(tm.remove(u as int)[a] == if a < u {
                                    tm[a]
                                } else {
                                    tm[a + 1]
                                });
                                assert(tm.remove(u as int)[b] == if b < u {
                                    tm[b]
                                } else {
                                    tm[b + 1]
                                });
                            }
                            assert forall|g: int| 0 <= g < self@.len() implies assoc_distinct(
                                (#[trigger] self@[g]).1,
                            ) by {
                                if g != t {
                                    assert(self@[g] == st[g]);
                                }
                            }
                        }
                        return Ok(());
                    }
                    u += 1;
                }
                proof {
                    match assoc_key_index(tm, pmv[1]) {
                        Some(fi) => {
                            assert(tm[fi].0 != pmv[1]);
                        },
                        None => {},
                    }
                }
                Err(PatchError::MissingKey)
            },
        }
    }

    /// Applies a resolved patch in place, entry by entry in patch order.
    /// Either the whole patch applies, or the first fatal condition is
    /// reported and the tables are left untouched.
    #[verifier::loop_isolation(false)]
    pub fn apply_patch(&mut self, patch: &Patch) -> (r: Result<(), PatchError>)
        requires
            strings_table_wf(old(self)@),
        ensures
            match strings_apply_model(old(self)@, patch@, 0) {
                Ok(st2) => r == Ok::<(), PatchError>(()) && final(self)@ == st2
                    && strings_table_wf(final(self)@),
                Err(e) => r == Err::<(), PatchError>(e) && final(self)@ == old(self)@,
            },
    {
        let ghost st0 = self@;
        let ghost pmv = patch@;
        let mut work = StringsTable(clone_tables(&self.0));
        proof {
            assert(work@ == st0);
        }
        let mut i: usize = 0;
        let n = patch.len();
        while i < n
            invariant
                n == pmv.len(),
                pmv == patch@,
                i <= n,
                strings_table_wf(work@),
                strings_apply_model(st0, pmv, 0) == strings_apply_model(work@, pmv, i as int),
            decreases n - i,
        {
            let entry = patch.entry_at(i);
            proof {
                assert(entry.deep_view() == pmv[i as int]);
                assert(entry.0.deep_view() == pmv[i as int].0);
                assert(entry.1.deep_view() == pmv[i as int].1);
            }
            match work.apply_one(&entry.0, &entry.1) {
                Ok(_) => {
                    i += 1;
                },
                Err(e) => {
                    return Err(e);
                },
            }
        }
        *self = work;
        Ok(())
    }

    /// Merges all sources' change-sets against one baseline table set: a
    /// path changed by exactly one source merges verbatim; one changed by
    /// two or more conflicts with every contender in submission order, even
    /// when the contending values agree. The merged patch and the conflict
    /// set are disjoint.
    pub fn merge_patches(&self, patches: &Vec<SourceChange>) -> (r: (Patch, Conflicts))
        requires
            sources_wf(patches.deep_view()),
        ensures
            r.0.wf(),
            r.1.wf(),
            forall|p: crate::map::PathModel|
                changes_at(all_triples(patches.deep_view()), p).len() == 1 ==> assoc_lookup(
                    r.0@,
                    p,
                ) == Some(#[trigger] changes_at(all_triples(patches.deep_view()), p)[0].1),
            forall|p: crate::map::PathModel| #[trigger]
                changes_at(all_triples(patches.deep_view()), p).len() >= 2 ==> assoc_lookup(
                    r.1@,
                    p,
                ) == Some(changes_at(all_triples(patches.deep_view()), p)),
            forall|p: crate::map::PathModel| #[trigger]
                assoc_contains(r.0@, p) ==> changes_at(
                    all_triples(patches.deep_view()),
                    p,
                ).len() == 1,
            forall|p: crate::map::PathModel| #[trigger]
                assoc_contains(r.1@, p) ==> changes_at(
                    all_triples(patches.deep_view()),
                    p,
                ).len() >= 2,
            forall|p: crate::map::PathModel|
                assoc_contains(r.0@, p) ==> !assoc_contains(#[trigger] r.1@, p),
    {
        let triples = flatten_sources(patches);
        let r = merge_triples(&triples);
        proof {
            assert forall|p: crate::map::PathModel|
                assoc_contains(r.0@, p) implies !assoc_contains(#[trigger] r.1@, p) by {
                if assoc_contains(r.0@, p) && assoc_contains(r.1@, p) {
                    assert(changes_at(triples.deep_view(), p).len() == 1);
                    assert(changes_at(triples.deep_view(), p).len() >= 2);
                }
            }
        }
        r
    }
}


/// Whether `pat` occurs in `s` at position `i`.
pub open spec fn match_at(s: Seq<char>, pat: Seq<char>, i: int) -> bool {
    0 <= i && i + pat.len() <= s.len() && s.subrange(i, i + pat.len()) == pat
}

/// The first position at or after `from` where the nonempty pattern `pat`
/// occurs, if any.
pub open spec fn first_sub(s: Seq<char>, pat: Seq<char>, from: int) -> Option<int>
    decreases s.len() - from,
{
    if from < 0 || pat.len() <= 0 || from + pat.len() > s.len() {
        None
    } else if match_at(s, pat, from) {
        Some(from)
    } else {
        first_sub(s, pat, from + 1)
    }
}

pub proof fn lemma_first_sub(s: Seq<char>, pat: Seq<char>, from: int)
    requires
        from >= 0,
        pat.len() >= 1,
    ensures
        match first_sub(s, pat, from) {
            Some(i) => from <= i && match_at(s, pat, i) && forall|k: int|
                from <= k < i ==> !match_at(s, pat, k),
            None => forall|k: int| k >= from ==> !match_at(s, pat, k),
        },
    decreases s.len() - from,
{
    if from + pat.len() > s.len() {
        assert forall|k: int| k >= from implies !match_at(s, pat, k) by {}
    } else if match_at(s, pat, from) {
    } else {
        lemma_first_sub(s, pat, from + 1);
        match first_sub(s, pat, from + 1) {
            Some(i) => {
                assert forall|k: int| from <= k < i implies !match_at(s, pat, k) by {
                    if k > from {
                        assert(!match_at(s, pat, k));
                    }
                }
            },
            None => {},
        }
    }
}

/// Finds the first occurrence of the nonempty pattern `pat` in `s` at or
/// after `from`.
#[verifier::loop_isolation(false)]
pub fn find_sub(s: &str, pat: &str, from: usize) -> (r: Option<usize>)
    ensures
        match r {
            Some(i) => first_sub(s@, pat@, from as int) == Some(i as int),
            None => first_sub(s@, pat@, from as int) is None,
        },
{
    let slen = s.unicode_len();
    let plen = pat.unicode_len();
    proof {
        lemma_first_sub_total(s@, pat@, from as int);
    }
    if plen == 0 || from > slen || plen > slen - from {
        return None;
    }
    let mut i: usize = from;
    while i <= slen - plen
        invariant
            slen == s@.len(),
            plen == pat@.len(),
            1 <= plen <= slen,
            from <= i,
            i <= slen - plen + 1,
            forall|k: int| from <= k < i ==> !match_at(s@, pat@, k),
        decreases slen - i,
    {
        let mut j: usize = 0;
        let mut hit = true;
        while j < plen
            invariant
                i + plen <= slen,
                j <= plen,
                hit ==> forall|w: int| 0 <= w < j ==> s@[i + w] == pat@[w],
                !hit ==> !match_at(s@, pat@, i as int),
            decreases plen - j,
        {
            if s.get_char(i + j) != pat.get_char(j) {
                hit = false;
                proof {
                    if match_at(s@, pat@, i as int) {
                        assert(s@.subrange(i as int, i + pat@.len())[j as int] == pat@[
                            j as int]);
                        assert(s@.subrange(i as int, i + pat@.len())[j as int] == s@[i + j]);
                    }
                }
                break ;
            }
            j += 1;
        }
        if hit {
            proof {
                assert(s@.subrange(i as int, i + pat@.len()) =~= pat@);
                assert(match_at(s@, pat@, i as int));
                lemma_first_sub_at(s@, pat@, from as int, i as int);
            }
            return Some(i);
        }
        i += 1;
    }
    proof {
        assert forall|k: int| k >= from implies !match_at(s@, pat@, k) by {
            if k < i {
            } else {
                assert(k + pat@.len() > s@.len());
            }
        }
        match first_sub(s@, pat@, from as int) {
            Some(fi) => {
                assert(!match_at(s@, pat@, fi));
            },
            None => {},
        }
    }
    None
}

/// A found match at `i`, with none earlier, is the first occurrence.
proof fn lemma_first_sub_at(s: Seq<char>, pat: Seq<char>, from: int, i: int)
    requires
        0 <= from <= i,
        pat.len() >= 1,
        match_at(s, pat, i),
        forall|k: int| from <= k < i ==> !match_at(s, pat, k),
    ensures
        first_sub(s, pat, from) == Some(i),
{
    lemma_first_sub(s, pat, from);
    match first_sub(s, pat, from) {
        Some(fi) => {
            if fi < i {
                assert(!match_at(s, pat, fi));
            }
            if fi > i {
                assert(!match_at(s, pat, i));
            }
        },
        None => {
            assert(!match_at(s, pat, i));
        },
    }
}

/// The lemma above restated without the pattern-length bound, for callers
/// that have not yet checked it.
proof fn lemma_first_sub_total(s: Seq<char>, pat: Seq<char>, from: int)
    ensures
        pat.len() >= 1 && from >= 0 ==> match first_sub(s, pat, from) {
            Some(i) => from <= i && match_at(s, pat, i) && forall|k: int|
                from <= k < i ==> !match_at(s, pat, k),
            None => forall|k: int| k >= from ==> !match_at(s, pat, k),
        },
{
    if pat.len() >= 1 && from >= 0 {
        lemma_first_sub(s, pat, from);
    }
}

/// The text from `pos` on with every malformed triple-dash comment removed:
/// each segment from a `<!---` delimiter to the earliest following `--->`
/// (line breaks included) is dropped; an unclosed delimiter keeps the rest
/// as it stands.
pub open spec fn strip_from(s: Seq<char>, pos: int) -> Seq<char>
    decreases s.len() - pos,
{
    match first_sub(s, "<!---"@, pos) {
        None => s.skip(pos),
        Some(i) => match first_sub(s, "--->"@, i + 5) {
            None => s.skip(pos),
            Some(j) => if pos <= i && i + 5 <= j && j + 4 <= s.len() {
                s.subrange(pos, i) + strip_from(s, j + 4)
            } else {
                s.skip(pos)
            },
        },
    }
}

/// Strips malformed triple-dash comments, one of the two documented
/// tolerances the localization loader applies before parsing.
#[verifier::loop_isolation(false)]
pub fn strip_bad_comments(s: &str) -> (r: String)
    ensures
        r@ == strip_from(s@, 0),
{
    let mut out = String::new();
    let mut pos: usize = 0;
    let slen = s.unicode_len();
    proof {
        assert(out@ + strip_from(s@, 0) =~= strip_from(s@, 0));
    }
    loop
        invariant
            slen == s@.len(),
            pos <= slen,
            strip_from(s@, 0) == out@ + strip_from(s@, pos as int),
        decreases slen - pos,
    {
        match find_sub(s, "<!---", pos) {
            None => {
                let rest = s.substring_char(pos, slen);
                out.append(rest);
                proof {
                    assert(rest@ =~= s@.skip(pos as int));
                    assert(strip_from(s@, pos as int) == s@.skip(pos as int));
                }
                return out;
            },
            Some(i) => {
                proof {
                    lemma_first_sub(s@, "<!---"@, pos as int);
                    reveal_strlit("<!---");
                    assert(i + 5 <= slen);
                }
                match find_sub(s, "--->", i + 5) {
                    None => {
                        let rest = s.substring_char(pos, slen);
                        out.append(rest);
                        proof {
                            assert(rest@ =~= s@.skip(pos as int));
                            assert(strip_from(s@, pos as int) == s@.skip(pos as int));
                        }
                        return out;
                    },
                    Some(j) => {
                        proof {
                            lemma_first_sub(s@, "--->"@, i + 5);
                            reveal_strlit("--->");
                            assert(j + 4 <= slen);
                        }
                        let ghost before = out@;
                        let piece = s.substring_char(pos, i);
                        out.append(piece);
                        proof {
                            assert(piece@ =~= s@.subrange(pos as int, i as int));
                            assert(strip_from(s@, pos as int) == s@.subrange(
                                pos as int,
                                i as int,
                            ) + strip_from(s@, j + 4));
                            assert(strip_from(s@, 0) =~= out@ + strip_from(s@, j as int + 4));
                        }
                        pos = j + 4;
                    },
                }
            },
        }
    }
}

/// The standard declaration written over a too-high XML version.
pub open spec fn fixed_decl() -> Seq<char> {
    "<?xml version=\"1.0\" encoding=\"UTF-8\"?>"@
}

/// The text with a too-high declared XML version rewritten: when the first
/// line declares `version="..."` with a major version other than 1, the
/// whole first line becomes the standard declaration. The other documented
/// tolerance the localization loader applies before parsing.
pub open spec fn fix_declaration(s: Seq<char>) -> Seq<char> {
    let eol = match first_sub(s, "\n"@, 0) {
        Some(e) => e,
        None => s.len() as int,
    };
    match first_sub(s, "version=\""@, 0) {
        Some(i) => if i + 9 < eol && i + 9 < s.len() && s[i + 9] != '1' {
            fixed_decl() + s.skip(eol)
        } else {
            s
        },
        None => s,
    }
}

/// Rewrites a too-high declared XML version in the prolog.
pub fn fix_xml_declaration(s: &str) -> (r: String)
    ensures
        r@ == fix_declaration(s@),
{
    let slen = s.unicode_len();
    let eol = match find_sub(s, "\n", 0) {
        Some(e) => e,
        None => slen,
    };
    proof {
        reveal_strlit("\n");
        lemma_first_sub(s@, "\n"@, 0);
    }
    match find_sub(s, "version=\"", 0) {
        Some(i) => {
            proof {
                lemma_first_sub(s@, "version=\""@, 0);
                reveal_strlit("version=\"");
                assert(i + 9 <= slen);
            }
            if i + 9 < eol && i + 9 < slen && s.get_char(i + 9) != '1' {
                let mut out = String::from_str("<?xml version=\"1.0\" encoding=\"UTF-8\"?>");
                let rest = s.substring_char(eol, slen);
                out.append(rest);
                proof {
                    assert(rest@ =~= s@.skip(eol as int));
                    assert(out@ =~= fixed_decl() + s@.skip(eol as int));
                }
                out
            } else {
                String::from_str(s)
            }
        },
        None => String::from_str(s),
    }
}

/// Applies both documented tolerances to raw localization text, in order:
/// the version rewrite, then the comment strip.
pub fn preprocess_localization(s: &str) -> (r: String)
    ensures
        r@ == strip_from(fix_declaration(s@), 0),
{
    let fixed = fix_xml_declaration(s);
    strip_bad_comments(fixed.as_str())
}

} // verus!
