use vstd::prelude::*;
use crate::map::{assoc_contains, assoc_distinct, assoc_lookup, lemma_lookup_at, lemma_lookup_some};
use crate::strutil::{clone_string, str_eq};

verus! {

/// One token of a raw entry field, as the external text parser hands it
/// over. Where the token reads as a number with an optional trailing percent
/// sign, the parser also records the value as the bit pattern of a 32-bit
/// float (a bare number taken as is, a percent form divided by one hundred);
/// the loaders here only check for and move that bit pattern, they never
/// compute with it.
#[derive(Clone, Debug, PartialEq)]
pub struct Token {
    pub text: String,
    pub percent_bits: Option<u32>,
}

/// Mathematical model of a `Token`.
pub struct TokenModel {
    pub text: Seq<char>,
    pub percent_bits: Option<u32>,
}

impl View for Token {
    type V = TokenModel;

    open spec fn view(&self) -> TokenModel {
        TokenModel { text: self.text@, percent_bits: self.percent_bits }
    }
}

impl DeepView for Token {
    type V = TokenModel;

    open spec fn deep_view(&self) -> TokenModel {
        self.view()
    }
}

impl Token {
    /// A plain word token, with no numeric reading.
    pub fn word(text: String) -> (r: Token)
        ensures
            r@.text == text@,
            r@.percent_bits is None,
    {
        Token { text, percent_bits: None }
    }

    /// A token together with its numeric reading.
    pub fn number(text: String, bits: u32) -> (r: Token)
        ensures
            r@.text == text@,
            r@.percent_bits == Some(bits),
    {
        Token { text, percent_bits: Some(bits) }
    }

    /// An explicit copy with a contract (the derived `Clone` says nothing).
    pub fn dup(&self) -> (r: Token)
        ensures
            r@ == self@,
    {
        Token { text: clone_string(&self.text), percent_bits: self.percent_bits }
    }
}

/// The texts of a token sequence.
pub open spec fn texts_of(ts: Seq<TokenModel>) -> Seq<Seq<char>> {
    ts.map_values(|t: TokenModel| t.text)
}

/// Copies the texts out of a token list.
pub fn token_texts(ts: &Vec<Token>) -> (r: Vec<String>)
    ensures
        r.deep_view() == texts_of(ts.deep_view()),
{
    let mut r: Vec<String> = Vec::new();
    let mut i: usize = 0;
    while i < ts.len()
        invariant
            i <= ts@.len(),
            r@.len() == i,
            r.deep_view() == texts_of(ts.deep_view()).take(i as int),
        decreases ts@.len() - i,
    {
        let ghost prev = r.deep_view();
        let ghost prevv = r@;
        r.push(clone_string(&ts[i].text));
        i += 1;
        proof {
            assert(r@.len() == i);
            assert forall|k: int| 0 <= k < i implies r.deep_view()[k] == texts_of(
                ts.deep_view(),
            )[k] by {
                if k < i - 1 {
                    assert(r@[k] == prevv[k]);
                    assert(r.deep_view()[k] == prev[k]);
                } else {
                    assert(r.deep_view()[k] == r@[k]@);
                    assert(ts.deep_view()[k] == ts@[k]@);
                    assert(texts_of(ts.deep_view())[k] == ts@[k]@.text);
                }
            }
            assert(r.deep_view() =~= texts_of(ts.deep_view()).take(i as int));
        }
    }
    proof {
        assert(texts_of(ts.deep_view()).take(ts@.len() as int) =~= texts_of(ts.deep_view()));
    }
    r
}

/// One raw entry: the parse of one top-level block of a source file, a
/// mapping from field name to the ordered tokens given for that field.
#[derive(Clone, Debug, PartialEq)]
pub struct RawEntry {
    pub fields: Vec<(String, Vec<Token>)>,
}

/// The model of a raw entry: field names with their token sequences.
pub type RawEntryModel = Seq<(Seq<char>, Seq<TokenModel>)>;

impl View for RawEntry {
    type V = RawEntryModel;

    open spec fn view(&self) -> RawEntryModel {
        self.fields.deep_view()
    }
}

impl DeepView for RawEntry {
    type V = RawEntryModel;

    open spec fn deep_view(&self) -> RawEntryModel {
        self.view()
    }
}

impl RawEntry {
    pub fn new() -> (r: RawEntry)
        ensures
            r@ == Seq::<(Seq<char>, Seq<TokenModel>)>::empty(),
    {
        let r = RawEntry { fields: Vec::new() };
        proof {
            assert(r@ =~= Seq::<(Seq<char>, Seq<TokenModel>)>::empty());
        }
        r
    }

    pub fn push_field(&mut self, name: String, tokens: Vec<Token>)
        ensures
            final(self)@ == old(self)@.push((name@, tokens.deep_view())),
    {
        self.fields.push((name, tokens));
        proof {
            assert(self@ =~= old(self)@.push((name@, tokens.deep_view())));
        }
    }

    pub fn len(&self) -> (r: usize)
        ensures
            r == self@.len(),
    {
        self.fields.len()
    }

    pub fn field_at(&self, i: usize) -> (r: &(String, Vec<Token>))
        requires
            i < self@.len(),
        ensures
            r.deep_view() == self@[i as int],
    {
        &self.fields[i]
    }

    /// The tokens of the first field named `key`, if any.
    pub fn get(&self, key: &str) -> (r: Option<&Vec<Token>>)
        ensures
            match r {
                Some(v) => assoc_lookup(self@, key@) == Some(v.deep_view()),
                None => assoc_lookup(self@, key@) is None,
            },
    {
        let mut i: usize = 0;
        let n = self.fields.len();
        while i < n
            invariant
                n == self@.len(),
                i <= n,
                forall|j: int| 0 <= j < i ==> self@[j].0 != key@,
            decreases n - i,
        {
            proof {
                assert(self@[i as int] == self.fields@[i as int].deep_view());
            }
            if str_eq(self.fields[i].0.as_str(), key) {
                proof {
                    lemma_lookup_at(self@, key@, i as int);
                }
                return Some(&self.fields[i].1);
            }
            i += 1;
        }
        proof {
            lemma_lookup_some(self@, key@);
        }
        None
    }

    /// Whether the entry has a field named `key`.
    pub fn has(&self, key: &str) -> (r: bool)
        ensures
            r == assoc_contains(self@, key@),
    {
        proof {
            lemma_lookup_some(self@, key@);
        }
        match self.get(key) {
            Some(_) => true,
            None => false,
        }
    }

    /// Whether all field names are distinct, as the loaders assume.
    pub fn keys_distinct(&self) -> (r: bool)
        ensures
            r == assoc_distinct(self@),
    {
        let n = self.fields.len();
        let mut i: usize = 0;
        while i < n
            invariant
                n == self@.len(),
                i <= n,
                forall|a: int, b: int| 0 <= a < b < n && b < i ==> self@[a].0 != self@[b].0,
            decreases n - i,
        {
            let mut j: usize = 0;
            while j < i
                invariant
                    n == self@.len(),
                    j <= i <= n,
                    i < n,
                    forall|a: int| 0 <= a < j ==> self@[a].0 != self@[i as int].0,
                decreases i - j,
            {
                proof {
                    assert(self@[j as int] == self.fields@[j as int].deep_view());
                    assert(self@[i as int] == self.fields@[i as int].deep_view());
                }
                if str_eq(self.fields[j].0.as_str(), self.fields[i].0.as_str()) {
                    return false;
                }
                j += 1;
            }
            i += 1;
        }
        true
    }
}

} // verus!
