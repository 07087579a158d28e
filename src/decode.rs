use vstd::prelude::*;
use crate::selector::{
    LabelPair, PairModel, encode_pair, join_pairs, op_code, op_of_code, pairs_view,
    str_to_operator,
};

verus! {

/// Neither separator occurs in the text.
pub open spec fn sep_free(s: Seq<char>) -> bool {
    forall|i: int| 0 <= i < s.len() ==> #[trigger] s[i] != '-' && s[i] != '/'
}

pub open spec fn pair_sep_free(p: PairModel) -> bool {
    sep_free(p.0) && sep_free(p.2)
}

pub open spec fn all_sep_free(ps: Seq<PairModel>) -> bool {
    forall|i: int| 0 <= i < ps.len() ==> pair_sep_free(#[trigger] ps[i])
}

/// Each encoded pair followed by `-`.
pub open spec fn join_terminated(ps: Seq<PairModel>) -> Seq<char>
    decreases ps.len(),
{
    if ps.len() == 0 {
        Seq::empty()
    } else {
        join_terminated(ps.drop_last()) + encode_pair(ps.last()) + seq!['-']
    }
}

/// What follows a prefix key and its separator in a longer key.
pub open spec fn key_suffix(using_key: Seq<char>, full_key: Seq<char>) -> Seq<char> {
    full_key.skip(using_key.len() as int + 1)
}

/// `ps` is a list of pairs free of separators whose encoding is `s`.
pub open spec fn encodes(s: Seq<char>, ps: Seq<PairModel>) -> bool {
    ps.len() > 0 && all_sep_free(ps) && join_pairs(ps) == s
}

pub proof fn lemma_join_terminated(ps: Seq<PairModel>)
    requires
        ps.len() > 0,
    ensures
        join_pairs(ps) + seq!['-'] == join_terminated(ps),
    decreases ps.len(),
{
    if ps.len() == 1 {
        assert(ps.drop_last().len() == 0);
        assert(join_terminated(ps.drop_last()) == Seq::<char>::empty());
        assert(join_pairs(ps) == encode_pair(ps[0]));
        assert(join_terminated(ps) =~= Seq::<char>::empty() + encode_pair(ps.last()) + seq!['-']);
    } else {
        lemma_join_terminated(ps.drop_last());
        assert(join_pairs(ps) + seq!['-'] =~= join_pairs(ps.drop_last()) + seq!['-'] + encode_pair(
            ps.last(),
        ) + seq!['-']);
    }
}

proof fn lemma_join_terminated_prefix(ps: Seq<PairModel>, k: int)
    requires
        0 <= k <= ps.len(),
    ensures
        join_terminated(ps).len() >= join_terminated(ps.take(k)).len(),
        k < ps.len() ==> join_terminated(ps).len() > join_terminated(ps.take(k)).len(),
        join_terminated(ps).take(join_terminated(ps.take(k)).len() as int) == join_terminated(
            ps.take(k),
        ),
    decreases ps.len(),
{
    if k == ps.len() {
        assert(ps.take(k) =~= ps);
        assert(join_terminated(ps).take(join_terminated(ps).len() as int) =~= join_terminated(ps));
    } else {
        let d = ps.drop_last();
        assert(d.take(k) =~= ps.take(k));
        lemma_join_terminated_prefix(d, k);
        let j = join_terminated(ps.take(k));
        assert(join_terminated(ps).take(j.len() as int) =~= join_terminated(d).take(j.len() as int));
    }
}

proof fn lemma_join_terminated_step(ps: Seq<PairModel>, k: int)
    requires
        0 <= k < ps.len(),
    ensures
        join_terminated(ps.take(k + 1)) == join_terminated(ps.take(k)) + encode_pair(ps[k]) + seq![
            '-',
        ],
{
    assert(ps.take(k + 1).drop_last() =~= ps.take(k));
}

/// The shape of an encoded pair whose label and value hold no separator.
proof fn lemma_segment_shape(p: PairModel)
    requires
        pair_sep_free(p),
    ensures
        encode_pair(p).len() == p.0.len() + 3 + p.2.len(),
        encode_pair(p)[p.0.len() as int] == '/',
        encode_pair(p)[p.0.len() as int + 1] == op_code(p.1),
        encode_pair(p)[p.0.len() as int + 2] == '/',
        forall|k: int| 0 <= k < p.0.len() ==> #[trigger] encode_pair(p)[k] == p.0[k],
        forall|k: int| 0 <= k < p.2.len() ==> #[trigger] encode_pair(p)[p.0.len() + 3 + k] == p.2[k],
        forall|k: int| 0 <= k < encode_pair(p).len() ==> #[trigger] encode_pair(p)[k] != '-',
{
    let e = encode_pair(p);
    assert forall|k: int| 0 <= k < e.len() implies #[trigger] e[k] != '-' by {
        if k < p.0.len() {
            assert(e[k] == p.0[k]);
        } else if k >= p.0.len() + 3 {
            assert(e[k] == p.2[k - p.0.len() - 3]);
        }
    }
}

proof fn lemma_encode_injective(p: PairModel, q: PairModel)
    requires
        pair_sep_free(p),
        pair_sep_free(q),
        encode_pair(p) == encode_pair(q),
    ensures
        p == q,
{
    lemma_segment_shape(p);
    lemma_segment_shape(q);
    let e = encode_pair(p);
    if p.0.len() < q.0.len() {
        assert(e[p.0.len() as int] == q.0[p.0.len() as int]);
    } else if p.0.len() > q.0.len() {
        assert(e[q.0.len() as int] == p.0[q.0.len() as int]);
    }
    assert(p.0.len() == q.0.len());
    assert(p.2.len() == q.2.len());
    assert forall|k: int| 0 <= k < p.0.len() implies p.0[k] == q.0[k] by {
        assert(encode_pair(p)[k] == p.0[k]);
        assert(encode_pair(q)[k] == q.0[k]);
    }
    assert forall|k: int| 0 <= k < p.2.len() implies p.2[k] == q.2[k] by {
        assert(encode_pair(p)[p.0.len() + 3 + k] == p.2[k]);
        assert(encode_pair(q)[q.0.len() + 3 + k] == q.2[k]);
    }
    assert(p.0 =~= q.0);
    assert(p.2 =~= q.2);
    assert(op_code(p.1) == op_code(q.1));
}

/// The first index in `from..to` that holds `c`, or `to`.
fn find_char(s: &str, from: usize, to: usize, c: char) -> (r: usize)
    requires
        from <= to <= s@.len(),
    ensures
        from <= r <= to,
        forall|k: int| from <= k < r ==> s@[k] != c,
        r < to ==> s@[r as int] == c,
{
    let mut i = from;
    while i < to
        invariant
            from <= i <= to,
            to <= s@.len(),
            forall|k: int| from <= k < i ==> s@[k] != c,
        decreases to - i,
    {
        if s.get_char(i) == c {
            return i;
        }
        i = i + 1;
    }
    i
}

/// Reads `label/code/value` from `s[from..to]`, a stretch that holds no `-`.
fn parse_segment(s: &str, from: usize, to: usize) -> (r: Option<LabelPair>)
    requires
        from <= to <= s@.len(),
        forall|k: int| from <= k < to ==> s@[k] != '-',
    ensures
        match r {
            Some(p) => s@.subrange(from as int, to as int) == encode_pair(p@) && pair_sep_free(
                p@,
            ),
            None => forall|p: PairModel| #[trigger] pair_sep_free(p) ==> s@.subrange(
                from as int,
                to as int,
            ) != encode_pair(p),
        },
{
    let ghost seg = s@.subrange(from as int, to as int);
    let a = find_char(s, from, to, '/');
    if a >= to || to - a < 3 {
        proof {
            assert forall|p: PairModel| #[trigger] pair_sep_free(p) implies seg != encode_pair(p) by {
                if seg == encode_pair(p) {
                    lemma_segment_shape(p);
                    assert(seg[p.0.len() as int] == '/');
                    if a - from < p.0.len() {
                        assert(seg[a - from] == p.0[a - from]);
                    }
                }
            }
        }
        return None;
    }
    let c = s.get_char(a + 1);
    let op = match str_to_operator(c) {
        Some(op) => op,
        None => {
            proof {
                assert forall|p: PairModel| #[trigger] pair_sep_free(p) implies seg != encode_pair(p) by {
                    if seg == encode_pair(p) {
                        lemma_segment_shape(p);
                        assert(seg[p.0.len() as int] == '/');
                        if a - from < p.0.len() {
                            assert(seg[a - from] == p.0[a - from]);
                        }
                        assert(seg[a - from + 1] == c);
                    }
                }
            }
            return None;
        },
    };
    if s.get_char(a + 2) != '/' {
        proof {
            assert forall|p: PairModel| #[trigger] pair_sep_free(p) implies seg != encode_pair(p) by {
                if seg == encode_pair(p) {
                    lemma_segment_shape(p);
                    assert(seg[p.0.len() as int] == '/');
                    if a - from < p.0.len() {
                        assert(seg[a - from] == p.0[a - from]);
                    }
                    assert(seg[a - from + 2] == s@[a + 2]);
                }
            }
        }
        return None;
    }
    let b = find_char(s, a + 3, to, '/');
    if b < to {
        proof {
            assert forall|p: PairModel| #[trigger] pair_sep_free(p) implies seg != encode_pair(p) by {
                if seg == encode_pair(p) {
                    lemma_segment_shape(p);
                    assert(seg[p.0.len() as int] == '/');
                    if a - from < p.0.len() {
                        assert(seg[a - from] == p.0[a - from]);
                    }
                    let k = b - from - p.0.len() - 3;
                    assert(seg[p.0.len() + 3 + k] == p.2[k]);
                    assert(seg[b - from] == s@[b as int]);
                }
            }
        }
        return None;
    }
    let label = String::from_str(s.substring_char(from, a));
    let value = String::from_str(s.substring_char(a + 3, to));
    let p = LabelPair { label, op, value };
    proof {
        assert(op_code(op) == c) by {
            assert(op_of_code(c) == Some(op));
        }
        assert(seg =~= encode_pair(p@));
        assert(sep_free(p.label@)) by {
            assert forall|i: int| 0 <= i < p.label@.len() implies #[trigger] p.label@[i] != '-'
                && p.label@[i] != '/' by {
                assert(p.label@[i] == s@[from + i]);
            }
        }
        assert(sep_free(p.value@)) by {
            assert forall|i: int| 0 <= i < p.value@.len() implies #[trigger] p.value@[i] != '-'
                && p.value@[i] != '/' by {
                assert(p.value@[i] == s@[a + 3 + i]);
            }
        }
    }
    Some(p)
}

/// Where the item after the first `k` of an encoded list sits in `sx`, the list's
/// encoding followed by `-`.
proof fn lemma_next_segment(sx: Seq<char>, ps: Seq<PairModel>, k: int)
    requires
        join_terminated(ps) == sx,
        all_sep_free(ps),
        0 <= k < ps.len(),
    ensures
        ({
            let l = join_terminated(ps.take(k)).len() as int;
            let enc = encode_pair(ps[k]);
            &&& l + enc.len() < sx.len()
            &&& sx.subrange(l, l + enc.len()) == enc
            &&& sx[l + enc.len()] == '-'
            &&& forall|j: int| l <= j < l + enc.len() ==> #[trigger] sx[j] != '-'
            &&& (l + enc.len() + 1 == sx.len() <==> k + 1 == ps.len())
            &&& join_terminated(ps.take(k + 1)).len() == l + enc.len() + 1
        }),
{
    let l = join_terminated(ps.take(k)).len() as int;
    let enc = encode_pair(ps[k]);
    lemma_join_terminated_step(ps, k);
    lemma_join_terminated_prefix(ps, k + 1);
    let t = join_terminated(ps.take(k + 1));
    assert(sx.take(t.len() as int) == t);
    assert(t =~= join_terminated(ps.take(k)) + enc + seq!['-']);
    assert(pair_sep_free(ps[k]));
    lemma_segment_shape(ps[k]);
    assert forall|j: int| l <= j < l + enc.len() implies #[trigger] sx[j] != '-' by {
        assert(sx[j] == t[j]);
        assert(t[j] == enc[j - l]);
    }
    assert(sx.subrange(l, l + enc.len()) =~= enc) by {
        assert forall|j: int| 0 <= j < enc.len() implies sx.subrange(l, l + enc.len())[j] == enc[j] by {
            assert(sx[l + j] == t[l + j]);
        }
    }
    assert(sx[l + enc.len()] == t[l + enc.len()]);
    if k + 1 == ps.len() {
        assert(ps.take(k + 1) =~= ps);
    }
}

/// The pairs that a longer key adds to a prefix key: what follows the prefix and its
/// `-` separator, read as `label/code/value` items joined with `-`. A key no longer
/// than the prefix and its separator adds nothing. A malformed item or an unknown
/// operator code makes the whole suffix unreadable, which gives `None`.
pub fn get_rest_label_pairs(using_key: &str, cache_key_with_matches: &str) -> (r: Option<
    Vec<LabelPair>,
>)
    ensures
        using_key@.len() + 1 >= cache_key_with_matches@.len() ==> (r matches Some(v)
            && v@.len() == 0),
        using_key@.len() + 1 < cache_key_with_matches@.len() ==> match r {
            Some(v) => encodes(key_suffix(using_key@, cache_key_with_matches@), pairs_view(v@))
                && forall|ps: Seq<PairModel>| #[trigger]
                    encodes(key_suffix(using_key@, cache_key_with_matches@), ps) ==> ps
                    == pairs_view(v@),
            None => forall|ps: Seq<PairModel>|
                !#[trigger] encodes(key_suffix(using_key@, cache_key_with_matches@), ps),
        },
{
    let full = cache_key_with_matches;
    let n_full = full.unicode_len();
    let n_using = using_key.unicode_len();
    if n_using >= n_full || n_using + 1 >= n_full {
        return Some(Vec::new());
    }
    let start = n_using + 1;
    let ghost sfx = key_suffix(using_key@, full@);
    let ghost sx = sfx + seq!['-'];
    proof {
        assert(sfx.len() == n_full - start);
        assert forall|ps: Seq<PairModel>| #[trigger] encodes(sfx, ps) implies join_terminated(ps)
            == sx by {
            lemma_join_terminated(ps);
        }
        assert(sx.take(0) =~= join_terminated(Seq::<PairModel>::empty()));
    }
    let mut out: Vec<LabelPair> = Vec::new();
    let mut pos = start;
    loop
        invariant
            start <= pos <= n_full,
            n_full == full@.len(),
            full@ == cache_key_with_matches@,
            n_using == using_key@.len(),
            start == n_using + 1,
            start < n_full,
            sfx == key_suffix(using_key@, full@),
            sfx == full@.skip(start as int),
            sx == sfx + seq!['-'],
            sx.take(pos - start) == join_terminated(pairs_view(out@)),
            all_sep_free(pairs_view(out@)),
            forall|ps: Seq<PairModel>| #[trigger]
                encodes(sfx, ps) ==> join_terminated(ps) == sx,
            forall|ps: Seq<PairModel>| #[trigger]
                encodes(sfx, ps) ==> out@.len() < ps.len() && ps.take(out@.len() as int)
                    == pairs_view(out@),
        decreases n_full - pos,
    {
        let e = find_char(full, pos, n_full, '-');
        let ghost l = pos - start;
        let ghost seg = full@.subrange(pos as int, e as int);
        let ghost k = out@.len() as int;
        proof {
            assert(seg =~= sx.subrange(l, e - start));
            assert(sx[e - start] == '-');
        }
        let parsed = parse_segment(full, pos, e);
        proof {
            assert forall|ps: Seq<PairModel>| #[trigger] encodes(sfx, ps) implies e - pos
                == encode_pair(ps[k]).len() && seg == encode_pair(ps[k]) by {
                lemma_next_segment(sx, ps, k);
                assert(pairs_view(out@).len() == k);
                assert(join_terminated(ps.take(k)) == sx.take(l));
                let enc = encode_pair(ps[k]);
                if e - pos < enc.len() {
                    assert(sx[e - start] != '-');
                } else if e - pos > enc.len() {
                    assert(full@[pos + enc.len()] == sx[l + enc.len()]);
                }
            }
        }
        match parsed {
            None => {
                proof {
                    assert forall|ps: Seq<PairModel>| !#[trigger] encodes(sfx, ps) by {
                        if encodes(sfx, ps) {
                            assert(pair_sep_free(ps[k]));
                        }
                    }
                }
                return None;
            },
            Some(p) => {
                let ghost old_view = pairs_view(out@);
                out.push(p);
                proof {
                    let nv = pairs_view(out@);
                    assert(nv =~= old_view.push(p@));
                    assert(nv.drop_last() =~= old_view);
                    assert(sx.take(e + 1 - start) =~= sx.take(l) + seg + seq!['-']);
                    assert forall|i: int| 0 <= i < nv.len() implies pair_sep_free(#[trigger] nv[i]) by {
                        if i < k {
                            assert(nv[i] == old_view[i]);
                        }
                    }
                    assert forall|ps: Seq<PairModel>| #[trigger] encodes(sfx, ps) implies (e < n_full
                        ==> out@.len() < ps.len()) && (e == n_full ==> out@.len() == ps.len()) && ps.take(
                        out@.len() as int,
                    ) == nv by {
                        lemma_next_segment(sx, ps, k);
                        assert(pair_sep_free(ps[k]));
                        lemma_encode_injective(p@, ps[k]);
                        assert(ps.take(k + 1) =~= ps.take(k).push(ps[k]));
                        assert(join_terminated(ps.take(k)) == sx.take(l));
                    }
                }
                if e == n_full {
                    proof {
                        let nv = pairs_view(out@);
                        assert(sx.take(e + 1 - start) =~= sx);
                        lemma_join_terminated(nv);
                        assert(join_pairs(nv) =~= sfx) by {
                            assert(join_pairs(nv) =~= (join_pairs(nv) + seq!['-']).drop_last());
                            assert(sfx =~= sx.drop_last());
                        }
                        assert forall|ps: Seq<PairModel>| #[trigger] encodes(sfx, ps) implies ps == nv by {
                            assert(ps.take(ps.len() as int) =~= ps);
                        }
                    }
                    return Some(out);
                }
                pos = e + 1;
            },
        }
    }
}

proof fn lemma_same_from(sx: Seq<char>, a: Seq<PairModel>, b: Seq<PairModel>, k: int)
    requires
        join_terminated(a) == sx,
        join_terminated(b) == sx,
        all_sep_free(a),
        all_sep_free(b),
        0 <= k <= a.len(),
        k <= b.len(),
        a.take(k) == b.take(k),
    ensures
        a == b,
    decreases a.len() - k,
{
    if k == a.len() {
        assert(a.take(k) =~= a);
        if k < b.len() {
            lemma_next_segment(sx, b, k);
        }
        assert(b.take(k) =~= b);
    } else if k == b.len() {
        assert(b.take(k) =~= b);
        lemma_next_segment(sx, a, k);
    } else {
        lemma_next_segment(sx, a, k);
        lemma_next_segment(sx, b, k);
        let l = join_terminated(a.take(k)).len() as int;
        let ea = encode_pair(a[k]);
        let eb = encode_pair(b[k]);
        if ea.len() < eb.len() {
            assert(sx[l + ea.len()] == '-');
        } else if ea.len() > eb.len() {
            assert(sx[l + eb.len()] == '-');
        }
        assert(pair_sep_free(a[k]));
        assert(pair_sep_free(b[k]));
        lemma_encode_injective(a[k], b[k]);
        assert(a.take(k + 1) =~= a.take(k).push(a[k]));
        assert(b.take(k + 1) =~= b.take(k).push(b[k]));
        lemma_same_from(sx, a, b, k + 1);
    }
}

/// A text encodes at most one list of pairs free of separators.
pub proof fn lemma_encodes_unique(s: Seq<char>, a: Seq<PairModel>, b: Seq<PairModel>)
    requires
        encodes(s, a),
        encodes(s, b),
    ensures
        a == b,
{
    lemma_join_terminated(a);
    lemma_join_terminated(b);
    assert(a.take(0) =~= b.take(0));
    lemma_same_from(s + seq!['-'], a, b, 0);
}

} // verus!
