//! The result cache: a bounded list of (key, result) snapshots, keyed by
//! the joined evaluation context, never evicting and frozen once full.
use vstd::prelude::*;
use crate::digits::dec_digits;
use crate::text::eq_chars;

verus! {

/// One evaluation's outcome: the computed text or an error code, with
/// timing and classification metadata.
#[derive(Debug)]
pub struct FormulaResult {
    pub value: String,
    pub error: Option<String>,
    pub execution_time_ms: u32,
    pub cell_address: String,
    pub formula_type: String,
}

/// What a result holds, at the level contracts speak of.
pub open spec fn fr_view(r: FormulaResult) -> (Seq<char>, Option<Seq<char>>, u32, Seq<char>, Seq<char>) {
    (r.value@, match r.error {
        Some(e) => Some(e@),
        None => None,
    }, r.execution_time_ms, r.cell_address@, r.formula_type@)
}

impl FormulaResult {
    /// A deep copy; the snapshot the cache stores.
    pub fn duplicate(&self) -> (r: FormulaResult)
        ensures
            fr_view(r) == fr_view(*self),
    {
        FormulaResult {
            value: String::from_str(self.value.as_str()),
            error: match &self.error {
                Some(e) => Some(String::from_str(e.as_str())),
                None => None,
            },
            execution_time_ms: self.execution_time_ms,
            cell_address: String::from_str(self.cell_address.as_str()),
            formula_type: String::from_str(self.formula_type.as_str()),
        }
    }
}

pub struct CacheEntry {
    pub key: Vec<char>,
    pub result: FormulaResult,
}

/// The composite cache key: sheet, row, column and the raw formula text,
/// joined with colons.
pub open spec fn cache_key_spec(sheet: Seq<char>, row: u32, col: u32, formula: Seq<char>) -> Seq<
    char,
> {
    sheet + seq![':'] + dec_digits(row as nat) + seq![':'] + dec_digits(col as nat) + seq![':']
        + formula
}

/// The first stored result under a key, if any.
pub open spec fn cache_lookup(s: Seq<CacheEntry>, key: Seq<char>) -> Option<
    (Seq<char>, Option<Seq<char>>, u32, Seq<char>, Seq<char>),
>
    decreases s.len(),
{
    if s.len() == 0 {
        None
    } else if s[0].key@ == key {
        Some(fr_view(s[0].result))
    } else {
        cache_lookup(s.subrange(1, s.len() as int), key)
    }
}

pub open spec fn cache_has(s: Seq<CacheEntry>, key: Seq<char>) -> bool {
    cache_lookup(s, key) is Some
}

/// Every key is stored at most once.
pub open spec fn cache_wf(s: Seq<CacheEntry>) -> bool {
    forall|i: int, j: int| 0 <= i < j < s.len() ==> #[trigger] s[i].key@ != #[trigger] s[j].key@
}

/// A key is stored exactly when some entry carries it.
pub proof fn lemma_cache_some(s: Seq<CacheEntry>, key: Seq<char>)
    ensures
        cache_has(s, key) <==> exists|j: int| 0 <= j < s.len() && #[trigger] s[j].key@ == key,
    decreases s.len(),
{
    if s.len() > 0 {
        let t = s.subrange(1, s.len() as int);
        lemma_cache_some(t, key);
        if s[0].key@ != key {
            if exists|j: int| 0 <= j < s.len() && #[trigger] s[j].key@ == key {
                let j = choose|j: int| 0 <= j < s.len() && #[trigger] s[j].key@ == key;
                assert(t[j - 1].key@ == key);
            }
            if exists|j: int| 0 <= j < t.len() && #[trigger] t[j].key@ == key {
                let j = choose|j: int| 0 <= j < t.len() && #[trigger] t[j].key@ == key;
                assert(s[j + 1].key@ == key);
            }
        }
    }
}

/// Appending an entry under a fresh key adds that key and no other.
pub proof fn lemma_cache_push(s: Seq<CacheEntry>, e: CacheEntry, key: Seq<char>)
    requires
        forall|j: int| 0 <= j < s.len() ==> #[trigger] s[j].key@ != e.key@,
    ensures
        cache_lookup(s + seq![e], key) == (if key == e.key@ {
            Some(fr_view(e.result))
        } else {
            cache_lookup(s, key)
        }),
    decreases s.len(),
{
    let s2 = s + seq![e];
    if s.len() == 0 {
        assert(s2[0] == e);
        if key != e.key@ {
            let t = s2.subrange(1, s2.len() as int);
            assert(t =~= Seq::<CacheEntry>::empty());
            assert(cache_lookup(s2, key) == cache_lookup(t, key));
        }
    } else {
        assert(s2[0] == s[0]);
        if s[0].key@ != key {
            assert(s2.subrange(1, s2.len() as int) =~= s.subrange(1, s.len() as int) + seq![e]);
            lemma_cache_push(s.subrange(1, s.len() as int), e, key);
        }
    }
}

/// The stored result under a key, if any.
pub fn cache_find<'a>(cache: &'a Vec<CacheEntry>, key: &Vec<char>) -> (r: Option<
    &'a FormulaResult,
>)
    ensures
        match r {
            Some(fr) => cache_lookup(cache@, key@) == Some(fr_view(*fr)),
            None => cache_lookup(cache@, key@) is None,
        },
{
    let mut i: usize = 0;
    proof {
        assert(cache@.subrange(0, cache@.len() as int) =~= cache@);
    }
    while i < cache.len()
        invariant
            0 <= i <= cache@.len(),
            cache_lookup(cache@, key@) == cache_lookup(
                cache@.subrange(i as int, cache@.len() as int),
                key@,
            ),
        decreases cache@.len() - i,
    {
        proof {
            let t = cache@.subrange(i as int, cache@.len() as int);
            assert(t[0] == cache@[i as int]);
            assert(t.subrange(1, t.len() as int) =~= cache@.subrange(
                i + 1,
                cache@.len() as int,
            ));
        }
        if eq_chars(&cache[i].key, key) {
            return Some(&cache[i].result);
        }
        i = i + 1;
    }
    None
}

} // verus!
