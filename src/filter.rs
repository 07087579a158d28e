use vstd::prelude::*;
use crate::selector::{LabelPair, Operator, PairModel, pairs_view};

verus! {

/// One distinct label-set: label names with their values, each name once.
pub type SeriesRecord = Vec<(String, String)>;

pub type RecordModel = Seq<(Seq<char>, Seq<char>)>;

pub open spec fn record_view(r: Seq<(String, String)>) -> RecordModel {
    r.map_values(|e: (String, String)| (e.0@, e.1@))
}

pub open spec fn records_view(rs: Seq<SeriesRecord>) -> Seq<RecordModel> {
    rs.map_values(|r: SeriesRecord| record_view(r@))
}

/// Whether `pattern` is accepted as a regular expression.
pub uninterp spec fn regex_compiles(pattern: Seq<char>) -> bool;

/// Whether the compiled `pattern` finds a match anywhere in `text`.
pub uninterp spec fn regex_finds(pattern: Seq<char>, text: Seq<char>) -> bool;

/// Relies on `regex::Regex::new`, whose success depends on the pattern alone, and on
/// `regex::Regex::is_match`, an unanchored search whose answer depends on the
/// pattern and the text alone. A pattern that does not compile matches nothing.
#[verifier::external_body]
fn regex_match(actual: &str, pattern: &str) -> (r: bool)
    ensures
        r == (regex_compiles(pattern@) && regex_finds(pattern@, actual@)),
{
    match regex::Regex::new(pattern) {
        Ok(re) => re.is_match(actual),
        Err(_) => false,
    }
}

/// The value of the first entry of a record with the given label.
pub open spec fn record_lookup(r: RecordModel, label: Seq<char>) -> Option<Seq<char>>
    decreases r.len(),
{
    if r.len() == 0 {
        None
    } else if r[0].0 == label {
        Some(r[0].1)
    } else {
        record_lookup(r.drop_first(), label)
    }
}

pub open spec fn regex_holds(pattern: Seq<char>, text: Seq<char>) -> bool {
    regex_compiles(pattern) && regex_finds(pattern, text)
}

/// Whether a record satisfies one predicate. A missing label fails `Equal` and
/// `RegexMatch` and satisfies `NotEqual` and `RegexNotMatch`.
pub open spec fn pair_holds(r: RecordModel, p: PairModel) -> bool {
    match record_lookup(r, p.0) {
        Some(v) => match p.1 {
            Operator::Equal => v == p.2,
            Operator::NotEqual => v != p.2,
            Operator::RegexMatch => regex_holds(p.2, v),
            Operator::RegexNotMatch => !regex_holds(p.2, v),
        },
        None => p.1 == Operator::NotEqual || p.1 == Operator::RegexNotMatch,
    }
}

/// Whether a record satisfies every predicate.
pub open spec fn record_matches(r: RecordModel, ps: Seq<PairModel>) -> bool {
    forall|i: int| 0 <= i < ps.len() ==> pair_holds(r, #[trigger] ps[i])
}

/// The records that satisfy every predicate, in their order.
pub open spec fn keep_matching(rs: Seq<RecordModel>, ps: Seq<PairModel>) -> Seq<RecordModel>
    decreases rs.len(),
{
    if rs.len() == 0 {
        Seq::empty()
    } else {
        let rest = keep_matching(rs.drop_last(), ps);
        if record_matches(rs.last(), ps) {
            rest.push(rs.last())
        } else {
            rest
        }
    }
}

/// The index of the first entry of a record with the given label.
pub fn record_get(values: &SeriesRecord, label: &String) -> (r: Option<usize>)
    ensures
        match r {
            Some(i) => i < values@.len() && record_lookup(record_view(values@), label@) == Some(
                values@[i as int].1@,
            ),
            None => record_lookup(record_view(values@), label@) is None,
        },
{
    let mut i: usize = 0;
    proof {
        assert(record_view(values@).skip(0) =~= record_view(values@));
    }
    while i < values.len()
        invariant
            i <= values@.len(),
            record_lookup(record_view(values@), label@) == record_lookup(
                record_view(values@).skip(i as int),
                label@,
            ),
        decreases values@.len() - i,
    {
        proof {
            assert(record_view(values@).skip(i as int).drop_first() =~= record_view(values@).skip(
                i + 1,
            ));
        }
        if values[i].0 == *label {
            return Some(i);
        }
        i = i + 1;
    }
    None
}

/// Whether a record satisfies every pair of a selector.
pub fn filter_by_matches(values: &SeriesRecord, matches: &Vec<LabelPair>) -> (r: bool)
    ensures
        r == record_matches(record_view(values@), pairs_view(matches@)),
{
    let ghost rv = record_view(values@);
    let ghost ps = pairs_view(matches@);
    let mut i: usize = 0;
    while i < matches.len()
        invariant
            i <= matches@.len(),
            rv == record_view(values@),
            ps == pairs_view(matches@),
            forall|k: int| 0 <= k < i ==> pair_holds(rv, #[trigger] ps[k]),
        decreases matches@.len() - i,
    {
        let p = &matches[i];
        assert(ps[i as int] == p@);
        match record_get(values, &p.label) {
            Some(j) => {
                let actual = &values[j].1;
                let ok = match p.op {
                    Operator::Equal => *actual == p.value,
                    Operator::NotEqual => *actual != p.value,
                    Operator::RegexMatch => regex_match(actual.as_str(), p.value.as_str()),
                    Operator::RegexNotMatch => !regex_match(actual.as_str(), p.value.as_str()),
                };
                if !ok {
                    return false;
                }
            },
            None => {
                if p.op == Operator::Equal || p.op == Operator::RegexMatch {
                    return false;
                }
            },
        }
        i = i + 1;
    }
    true
}

/// Keeps the records that satisfy every pair, in their order.
pub fn filter_series(values: Vec<SeriesRecord>, matches: &Vec<LabelPair>) -> (r: Vec<
    SeriesRecord,
>)
    ensures
        records_view(r@) == keep_matching(records_view(values@), pairs_view(matches@)),
{
    let ghost all = records_view(values@);
    let mut rest = values;
    let mut out: Vec<SeriesRecord> = Vec::new();
    let ghost mut done: int = 0;
    while rest.len() > 0
        invariant
            0 <= done <= all.len(),
            records_view(rest@) == all.skip(done),
            records_view(out@) == keep_matching(all.take(done), pairs_view(matches@)),
        decreases rest@.len(),
    {
        let ghost before = rest@;
        proof {
            assert(records_view(before).len() == before.len());
            assert(all.skip(done).len() == all.len() - done);
        }
        let rec = rest.remove(0);
        proof {
            assert(rec == before[0]);
            assert(records_view(before)[0] == all[done]);
            assert forall|k: int| 0 <= k < rest@.len() implies #[trigger] records_view(rest@)[k] == all.skip(done + 1)[k] by {
                assert(rest@[k] == before[k + 1]);
                assert(records_view(before)[k + 1] == all.skip(done)[k + 1]);
            }
            assert(records_view(rest@) =~= all.skip(done + 1));
            assert(all.take(done + 1).drop_last() =~= all.take(done));
            assert(record_view(rec@) == all[done]);
        }
        if filter_by_matches(&rec, matches) {
            out.push(rec);
            proof {
                assert(records_view(out@) =~= keep_matching(all.take(done), pairs_view(matches@)).push(all[done]));
            }
        }
        proof {
            done = done + 1;
        }
    }
    proof {
        assert(all.skip(done).len() == 0);
        assert(all.take(done) =~= all);
    }
    out
}

/// A record without the label fails an `Equal` predicate on it and satisfies a
/// `NotEqual` one.
pub proof fn lemma_missing_label(r: RecordModel, label: Seq<char>, value: Seq<char>)
    requires
        record_lookup(r, label) is None,
    ensures
        !record_matches(r, seq![(label, Operator::Equal, value)]),
        record_matches(r, seq![(label, Operator::NotEqual, value)]),
{
    assert(!pair_holds(r, seq![(label, Operator::Equal, value)][0]));
}

/// A `RegexMatch` predicate whose pattern does not compile fails on every record.
pub proof fn lemma_invalid_regex_matches_nothing(r: RecordModel, label: Seq<char>, pattern: Seq<char>)
    requires
        !regex_compiles(pattern),
    ensures
        !record_matches(r, seq![(label, Operator::RegexMatch, pattern)]),
{
    assert(!pair_holds(r, seq![(label, Operator::RegexMatch, pattern)][0]));
}

/// Narrowing a result already filtered by some predicates with the others gives what
/// filtering by all of them at once gives.
pub proof fn lemma_filter_compose(rs: Seq<RecordModel>, a: Seq<PairModel>, b: Seq<PairModel>)
    ensures
        keep_matching(keep_matching(rs, a), b) == keep_matching(rs, a + b),
    decreases rs.len(),
{
    if rs.len() > 0 {
        lemma_filter_compose(rs.drop_last(), a, b);
        let r = rs.last();
        let ab = a + b;
        assert(record_matches(r, ab) == (record_matches(r, a) && record_matches(r, b))) by {
            if record_matches(r, a) && record_matches(r, b) {
                assert forall|i: int| 0 <= i < ab.len() implies pair_holds(r, #[trigger] ab[i]) by {
                    if i < a.len() {
                        assert(ab[i] == a[i]);
                    } else {
                        assert(ab[i] == b[i - a.len()]);
                    }
                }
            }
            if record_matches(r, ab) {
                assert forall|i: int| 0 <= i < a.len() implies pair_holds(r, #[trigger] a[i]) by {
                    assert(ab[i] == a[i]);
                }
                assert forall|i: int| 0 <= i < b.len() implies pair_holds(r, #[trigger] b[i]) by {
                    assert(ab[a.len() + i] == b[i]);
                }
            }
        }
        let ka = keep_matching(rs, a);
        if record_matches(r, a) {
            assert(ka.drop_last() == keep_matching(rs.drop_last(), a));
            assert(ka.last() == r);
        } else {
            assert(ka == keep_matching(rs.drop_last(), a));
        }
    }
}

} // verus!
