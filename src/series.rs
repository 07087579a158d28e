use vstd::prelude::*;
use crate::decode::{all_sep_free, encodes, get_rest_label_pairs, key_suffix};
use crate::errors::AppError;
use crate::filter::{SeriesRecord, filter_series, keep_matching, records_view};
use crate::keys::{series_cache_key, series_cache_key_with_matches, series_key, series_prefix};
use crate::selector::{
    LabelPair, PairModel, canonical_key, canonicalize_matches, copy_pair, join_pairs, pairs_view,
};

verus! {

/// A cached entry under `candidate` can serve the request keyed `full`: `full`
/// extends `candidate` by a `-` separator and more.
pub open spec fn serves(candidate: Seq<char>, full: Seq<char>) -> bool {
    &&& candidate.len() < full.len()
    &&& full.take(candidate.len() as int) == candidate
    &&& full[candidate.len() as int] == '-'
}

/// The cache key of a selector given by its pairs in canonical order; no pairs give
/// the "all series" key.
pub open spec fn selector_key(c: Seq<PairModel>) -> Seq<char> {
    if c.len() == 0 {
        series_prefix()
    } else {
        series_key(join_pairs(c))
    }
}

/// The predicates still to apply after serving `full` from the entry under `chosen`:
/// those that the suffix encodes, or, where the suffix cannot be read, all of the
/// request's.
pub open spec fn remaining_pairs(
    chosen: Seq<char>,
    full: Seq<char>,
    request: Seq<PairModel>,
) -> Seq<PairModel> {
    if chosen.len() + 1 >= full.len() {
        Seq::empty()
    } else if exists|ps: Seq<PairModel>| encodes(key_suffix(chosen, full), ps) {
        choose|ps: Seq<PairModel>| encodes(key_suffix(chosen, full), ps)
    } else {
        request
    }
}

/// Whether the entry under `candidate` can serve the request keyed `full`.
pub fn is_prefix_candidate(candidate: &str, full: &str) -> (r: bool)
    ensures
        r == serves(candidate@, full@),
{
    let n = candidate.unicode_len();
    let m = full.unicode_len();
    if n >= m {
        return false;
    }
    let mut i: usize = 0;
    while i < n
        invariant
            i <= n,
            n == candidate@.len(),
            m == full@.len(),
            n < m,
            forall|k: int| 0 <= k < i ==> candidate@[k] == full@[k],
        decreases n - i,
    {
        if candidate.get_char(i) != full.get_char(i) {
            proof {
                assert(full@.take(n as int)[i as int] != candidate@[i as int]);
            }
            return false;
        }
        i = i + 1;
    }
    proof {
        assert(full@.take(n as int) =~= candidate@);
    }
    full.get_char(n) == '-'
}

/// The index of the longest key in `keys` that can serve the request keyed `full`.
pub fn longest_prefix(keys: &Vec<String>, full: &str) -> (r: Option<usize>)
    ensures
        match r {
            Some(i) => i < keys@.len() && serves(keys@[i as int]@, full@) && forall|j: int|
                0 <= j < keys@.len() && serves(#[trigger] keys@[j]@, full@) ==> keys@[j]@.len()
                    <= keys@[i as int]@.len(),
            None => forall|j: int| 0 <= j < keys@.len() ==> !serves(#[trigger] keys@[j]@, full@),
        },
{
    let mut best: Option<usize> = None;
    let mut best_len: usize = 0;
    let mut i: usize = 0;
    while i < keys.len()
        invariant
            i <= keys@.len(),
            match best {
                Some(b) => b < i && serves(keys@[b as int]@, full@) && best_len == keys@[b as int]@.len()
                    && forall|j: int|
                    0 <= j < i && serves(#[trigger] keys@[j]@, full@) ==> keys@[j]@.len() <= best_len,
                None => forall|j: int| 0 <= j < i ==> !serves(#[trigger] keys@[j]@, full@),
            },
        decreases keys@.len() - i,
    {
        let k = &keys[i];
        if is_prefix_candidate(k.as_str(), full) {
            let len = k.as_str().unicode_len();
            match best {
                None => {
                    best = Some(i);
                    best_len = len;
                },
                Some(_) => {
                    if len > best_len {
                        best = Some(i);
                        best_len = len;
                    }
                },
            }
        }
        i = i + 1;
    }
    best
}

/// The key whose entry the request keyed `full` is served from: the longest cached
/// key that can serve it, else the "all series" key.
pub fn choose_cache_key(keys: &Vec<String>, full: &str) -> (r: String)
    ensures
        match longest_prefix_spec(keys@.map_values(|k: String| k@), full@) {
            Some(k) => r@ == k,
            None => r@ == series_prefix(),
        },
{
    match longest_prefix(keys, full) {
        Some(i) => {
            proof {
                lemma_longest_prefix_spec(keys@.map_values(|k: String| k@), full@, i as int);
            }
            keys[i].clone()
        },
        None => {
            proof {
                let ks = keys@.map_values(|k: String| k@);
                assert forall|j: int| 0 <= j < ks.len() implies !serves(#[trigger] ks[j], full@) by {
                    assert(ks[j] == keys@[j]@);
                }
            }
            series_cache_key()
        },
    }
}

/// The longest of `keys` that can serve `full`, if any.
pub open spec fn longest_prefix_spec(keys: Seq<Seq<char>>, full: Seq<char>) -> Option<Seq<char>> {
    if exists|j: int| 0 <= j < keys.len() && serves(#[trigger] keys[j], full) {
        let best = choose|b: Seq<char>|
            #![trigger serves(b, full)]
            serves(b, full) && keys.contains(b) && forall|j: int|
                0 <= j < keys.len() && serves(#[trigger] keys[j], full) ==> keys[j].len() <= b.len();
        Some(best)
    } else {
        None
    }
}

/// Two keys that can serve one request and have one length are equal.
proof fn lemma_serves_unique(a: Seq<char>, b: Seq<char>, full: Seq<char>)
    requires
        serves(a, full),
        serves(b, full),
        a.len() == b.len(),
    ensures
        a == b,
{
}

proof fn lemma_longest_prefix_spec(keys: Seq<Seq<char>>, full: Seq<char>, i: int)
    requires
        0 <= i < keys.len(),
        serves(keys[i], full),
        forall|j: int| 0 <= j < keys.len() && serves(#[trigger] keys[j], full) ==> keys[j].len() <= keys[i].len(),
    ensures
        longest_prefix_spec(keys, full) == Some(keys[i]),
{
    assert(keys.contains(keys[i]));
    let best = choose|b: Seq<char>|
        #![trigger serves(b, full)]
        serves(b, full) && keys.contains(b) && forall|j: int|
            0 <= j < keys.len() && serves(#[trigger] keys[j], full) ==> keys[j].len() <= b.len();
    let k = choose|k: int| 0 <= k < keys.len() && keys[k] == best;
    assert(serves(keys[k], full));
    lemma_serves_unique(best, keys[i], full);
}

/// Checks a series request and gives its cache key. A request without pairs is
/// refused before anything else happens.
pub fn series_request_key(matches: &Vec<LabelPair>, query: &str) -> (r: Result<String, AppError>)
    ensures
        matches@.len() == 0 <==> r is Err,
        matches@.len() == 0 ==> (r matches Err(AppError::InvalidQueryString(t)) && t@ == query@),
        r matches Ok(k) ==> k@ == series_key(canonical_key(pairs_view(matches@))),
{
    if matches.len() == 0 {
        return Err(AppError::InvalidQueryString(String::from_str(query)));
    }
    let canonical = canonicalize_matches(matches.as_slice());
    Ok(series_cache_key_with_matches(canonical.as_str()))
}

/// What a series request returns, and whether that result is stored under the
/// request's own key.
pub struct SeriesOutcome {
    pub records: Vec<SeriesRecord>,
    pub store: bool,
}

fn copy_pairs(v: &Vec<LabelPair>) -> (r: Vec<LabelPair>)
    ensures
        pairs_view(r@) == pairs_view(v@),
{
    let mut r: Vec<LabelPair> = Vec::new();
    let mut i: usize = 0;
    while i < v.len()
        invariant
            i <= v@.len(),
            pairs_view(r@) == pairs_view(v@).take(i as int),
        decreases v@.len() - i,
    {
        let ghost before = pairs_view(r@);
        r.push(copy_pair(&v[i]));
        proof {
            assert(pairs_view(r@) =~= before.push(v@[i as int]@));
            assert(pairs_view(v@).take(i + 1) =~= pairs_view(v@).take(i as int).push(v@[i as int]@));
            assert(pairs_view(r@) =~= pairs_view(v@).take(i + 1));
        }
        i = i + 1;
    }
    proof {
        assert(pairs_view(v@).take(i as int) =~= pairs_view(v@));
    }
    r
}

/// Narrows the records of the entry under `chosen` to the request keyed `full`:
/// applies the predicates that `full` adds to `chosen` (all of `request` where that
/// suffix cannot be read), and stores the result only when some filtering took place
/// and something is left.
pub fn refine_series(
    chosen: &str,
    full: &str,
    request: &Vec<LabelPair>,
    values: Vec<SeriesRecord>,
) -> (r: SeriesOutcome)
    ensures
        records_view(r.records@) == keep_matching(
            records_view(values@),
            remaining_pairs(chosen@, full@, pairs_view(request@)),
        ),
        r.store == (r.records@.len() > 0 && remaining_pairs(
            chosen@,
            full@,
            pairs_view(request@),
        ).len() > 0),
{
    let rest = match get_rest_label_pairs(chosen, full) {
        Some(v) => v,
        None => copy_pairs(request),
    };
    proof {
        let rp = remaining_pairs(chosen@, full@, pairs_view(request@));
        if chosen@.len() + 1 < full@.len() {
            if exists|ps: Seq<PairModel>| encodes(key_suffix(chosen@, full@), ps) {
                let c = choose|ps: Seq<PairModel>| encodes(key_suffix(chosen@, full@), ps);
                assert(encodes(key_suffix(chosen@, full@), c));
                assert(pairs_view(rest@) == rp);
            }
        }
        assert(pairs_view(rest@) =~= rp);
    }
    let records = filter_series(values, &rest);
    let store = records.len() > 0 && rest.len() > 0;
    SeriesOutcome { records, store }
}

proof fn lemma_join_split(c: Seq<PairModel>, n: int)
    requires
        1 <= n < c.len(),
    ensures
        join_pairs(c) == join_pairs(c.take(n)) + seq!['-'] + join_pairs(c.skip(n)),
    decreases c.len(),
{
    let d = c.drop_last();
    if n == c.len() - 1 {
        assert(d =~= c.take(n));
        assert(c.skip(n) =~= seq![c.last()]);
        assert(join_pairs(c.skip(n)) == crate::selector::encode_pair(c.last()));
    } else {
        lemma_join_split(d, n);
        assert(d.take(n) =~= c.take(n));
        assert(c.skip(n).drop_last() =~= d.skip(n));
        assert(c.skip(n).last() == c.last());
        assert(join_pairs(c.skip(n)) == join_pairs(d.skip(n)) + seq!['-'] + crate::selector::encode_pair(c.last()));
    }
}

/// Reading the key of a selector against the key of its first `n` pairs in canonical
/// order gives exactly the remaining pairs, and no others; these are the selector's
/// pairs less the prefix's.
pub proof fn lemma_rest_of_prefix(c: Seq<PairModel>, n: int)
    requires
        crate::selector::strictly_sorted(c),
        all_sep_free(c),
        0 <= n < c.len(),
    ensures
        selector_key(c.take(n)).len() + 1 < selector_key(c).len(),
        encodes(key_suffix(selector_key(c.take(n)), selector_key(c)), c.skip(n)),
        forall|ps: Seq<PairModel>| #[trigger]
            encodes(key_suffix(selector_key(c.take(n)), selector_key(c)), ps) ==> ps == c.skip(n),
        c.skip(n).to_set() == c.to_set().difference(c.take(n).to_set()),
{
    let full = selector_key(c);
    let using = selector_key(c.take(n));
    let sfx = key_suffix(using, full);
    assert(join_pairs(c).len() > 0) by {
        if c.len() == 1 {
            assert(join_pairs(c) == crate::selector::encode_pair(c[0]));
        } else {
            assert(join_pairs(c) == join_pairs(c.drop_last()) + seq!['-'] + crate::selector::encode_pair(c.last()));
        }
    }
    if n == 0 {
        assert(c.take(0).len() == 0);
        assert(c.skip(0) =~= c);
        assert(sfx =~= join_pairs(c));
    } else {
        lemma_join_split(c, n);
        assert(sfx =~= join_pairs(c.skip(n)));
    }
    let rest = c.skip(n);
    assert(all_sep_free(rest)) by {
        assert forall|i: int| 0 <= i < rest.len() implies crate::decode::pair_sep_free(#[trigger] rest[i]) by {
            assert(rest[i] == c[n + i]);
        }
    }
    assert(encodes(sfx, rest));
    assert forall|ps: Seq<PairModel>| #[trigger] encodes(sfx, ps) implies ps == rest by {
        crate::decode::lemma_encodes_unique(sfx, ps, rest);
    }
    assert(rest.to_set() =~= c.to_set().difference(c.take(n).to_set())) by {
        assert forall|x: PairModel| rest.to_set().contains(x) implies c.to_set().difference(
            c.take(n).to_set(),
        ).contains(x) by {
            let i = choose|i: int| 0 <= i < rest.len() && rest[i] == x;
            assert(c[n + i] == x);
            if c.take(n).to_set().contains(x) {
                let j = choose|j: int| 0 <= j < n && c.take(n)[j] == x;
                assert(crate::selector::pair_lt(c[j], c[n + i]));
                crate::selector::lemma_pair_lt_irreflexive(x);
            }
        }
        assert forall|x: PairModel| c.to_set().difference(c.take(n).to_set()).contains(x) implies rest.to_set().contains(
            x,
        ) by {
            let i = choose|i: int| 0 <= i < c.len() && c[i] == x;
            if i < n {
                assert(c.take(n)[i] == x);
            } else {
                assert(rest[i - n] == x);
            }
        }
    }
}

} // verus!
