use vstd::prelude::*;

verus! {

/// How a label matcher compares a record's value with its own.
#[derive(Clone, Copy, Debug, PartialEq, Eq, Structural)]
pub enum Operator {
    Equal,
    NotEqual,
    RegexMatch,
    RegexNotMatch,
}

/// One `(label, operator, value)` predicate of a selector.
#[derive(Clone, Debug, PartialEq, Eq)]
pub struct LabelPair {
    pub label: String,
    pub op: Operator,
    pub value: String,
}

/// The mathematical value of a label pair: label, operator, value.
pub type PairModel = (Seq<char>, Operator, Seq<char>);

impl View for LabelPair {
    type V = PairModel;

    open spec fn view(&self) -> PairModel {
        (self.label@, self.op, self.value@)
    }
}

pub open spec fn pairs_view(v: Seq<LabelPair>) -> Seq<PairModel> {
    v.map_values(|p: LabelPair| p@)
}

/// The permanent one-character code of each operator.
pub open spec fn op_code(op: Operator) -> char {
    match op {
        Operator::Equal => '0',
        Operator::NotEqual => '1',
        Operator::RegexMatch => '2',
        Operator::RegexNotMatch => '3',
    }
}

/// The operator a code stands for, if any.
pub open spec fn op_of_code(c: char) -> Option<Operator> {
    if c == '0' {
        Some(Operator::Equal)
    } else if c == '1' {
        Some(Operator::NotEqual)
    } else if c == '2' {
        Some(Operator::RegexMatch)
    } else if c == '3' {
        Some(Operator::RegexNotMatch)
    } else {
        None
    }
}

pub fn operator_to_str(op: &Operator) -> (r: char)
    ensures
        r == op_code(*op),
{
    match op {
        Operator::Equal => '0',
        Operator::NotEqual => '1',
        Operator::RegexMatch => '2',
        Operator::RegexNotMatch => '3',
    }
}

/// Reads an operator code; an unknown code gives `None`.
pub fn str_to_operator(c: char) -> (r: Option<Operator>)
    ensures
        r == op_of_code(c),
{
    if c == '0' {
        Some(Operator::Equal)
    } else if c == '1' {
        Some(Operator::NotEqual)
    } else if c == '2' {
        Some(Operator::RegexMatch)
    } else if c == '3' {
        Some(Operator::RegexNotMatch)
    } else {
        None
    }
}

pub open spec fn service_lower() -> Seq<char> {
    seq!['s', 'e', 'r', 'v', 'i', 'c', 'e', 'n', 'a', 'm', 'e']
}

pub open spec fn service_upper() -> Seq<char> {
    seq!['S', 'E', 'R', 'V', 'I', 'C', 'E', 'N', 'A', 'M', 'E']
}

/// The label is `servicename` in any mix of ASCII case.
pub open spec fn is_service_name(s: Seq<char>) -> bool {
    &&& s.len() == 11
    &&& forall|i: int|
        0 <= i < 11 ==> (#[trigger] s[i] == service_lower()[i] || s[i] == service_upper()[i])
}

/// Byte-wise (equivalently, code-point-wise) strict order on strings.
pub open spec fn chars_lt(a: Seq<char>, b: Seq<char>) -> bool
    decreases a.len(),
{
    if a.len() == 0 {
        b.len() > 0
    } else if b.len() == 0 {
        false
    } else if a[0] != b[0] {
        (a[0] as int) < (b[0] as int)
    } else {
        chars_lt(a.drop_first(), b.drop_first())
    }
}

pub open spec fn label_rank(label: Seq<char>) -> int {
    if is_service_name(label) {
        0
    } else {
        1
    }
}

pub open spec fn op_rank(op: Operator) -> int {
    match op {
        Operator::Equal => 0,
        Operator::NotEqual => 1,
        Operator::RegexMatch => 2,
        Operator::RegexNotMatch => 3,
    }
}

/// The canonical order of pairs: `servicename` first, then by label; pairs on one
/// label are ordered by operator and then by value, which makes the order total.
pub open spec fn pair_lt(p: PairModel, q: PairModel) -> bool {
    if label_rank(p.0) != label_rank(q.0) {
        label_rank(p.0) < label_rank(q.0)
    } else if p.0 != q.0 {
        chars_lt(p.0, q.0)
    } else if p.1 != q.1 {
        op_rank(p.1) < op_rank(q.1)
    } else {
        chars_lt(p.2, q.2)
    }
}

pub open spec fn strictly_sorted(s: Seq<PairModel>) -> bool {
    forall|i: int, j: int| 0 <= i < j < s.len() ==> pair_lt(#[trigger] s[i], #[trigger] s[j])
}

/// The pairs of a selector in canonical order, without repeats.
pub open spec fn canonical_order(s: Set<PairModel>) -> Seq<PairModel> {
    choose|c: Seq<PairModel>| strictly_sorted(c) && c.to_set() == s
}

/// `label/code/value`.
pub open spec fn encode_pair(p: PairModel) -> Seq<char> {
    p.0 + seq!['/', op_code(p.1), '/'] + p.2
}

/// The encoded pairs joined with `-`.
pub open spec fn join_pairs(ps: Seq<PairModel>) -> Seq<char>
    decreases ps.len(),
{
    if ps.len() == 0 {
        Seq::empty()
    } else if ps.len() == 1 {
        encode_pair(ps[0])
    } else {
        join_pairs(ps.drop_last()) + seq!['-'] + encode_pair(ps.last())
    }
}

/// The canonical key of a selector given as a sequence of pairs in any order.
pub open spec fn canonical_key(s: Seq<PairModel>) -> Seq<char> {
    join_pairs(canonical_order(s.to_set()))
}

pub proof fn lemma_chars_lt_irreflexive(a: Seq<char>)
    ensures
        !chars_lt(a, a),
    decreases a.len(),
{
    if a.len() > 0 {
        lemma_chars_lt_irreflexive(a.drop_first());
    }
}

pub proof fn lemma_chars_lt_transitive(a: Seq<char>, b: Seq<char>, c: Seq<char>)
    requires
        chars_lt(a, b),
        chars_lt(b, c),
    ensures
        chars_lt(a, c),
    decreases a.len(),
{
    if a.len() > 0 && b.len() > 0 && c.len() > 0 {
        if a[0] == b[0] && b[0] == c[0] {
            lemma_chars_lt_transitive(a.drop_first(), b.drop_first(), c.drop_first());
        }
    }
}

pub proof fn lemma_chars_lt_total(a: Seq<char>, b: Seq<char>)
    requires
        a != b,
    ensures
        chars_lt(a, b) || chars_lt(b, a),
    decreases a.len(),
{
    if a.len() > 0 && b.len() > 0 {
        if a[0] == b[0] {
            if a.drop_first() == b.drop_first() {
                assert(a =~= seq![a[0]] + a.drop_first());
                assert(b =~= seq![b[0]] + b.drop_first());
            }
            lemma_chars_lt_total(a.drop_first(), b.drop_first());
        } else {
            assert((a[0] as int) != (b[0] as int));
        }
    } else if a.len() == 0 && b.len() == 0 {
        assert(a =~= b);
    }
}

pub proof fn lemma_pair_lt_irreflexive(p: PairModel)
    ensures
        !pair_lt(p, p),
{
    lemma_chars_lt_irreflexive(p.2);
}

pub proof fn lemma_pair_lt_transitive(p: PairModel, q: PairModel, r: PairModel)
    requires
        pair_lt(p, q),
        pair_lt(q, r),
    ensures
        pair_lt(p, r),
{
    if label_rank(p.0) == label_rank(q.0) && label_rank(q.0) == label_rank(r.0) {
        if p.0 != q.0 && q.0 != r.0 {
            lemma_chars_lt_transitive(p.0, q.0, r.0);
            if p.0 == r.0 {
                lemma_chars_lt_transitive(p.0, q.0, p.0);
                lemma_chars_lt_irreflexive(p.0);
            }
        } else if p.0 == q.0 && q.0 == r.0 && p.1 == q.1 && q.1 == r.1 {
            lemma_chars_lt_transitive(p.2, q.2, r.2);
        }
    }
}

pub proof fn lemma_pair_lt_total(p: PairModel, q: PairModel)
    requires
        p != q,
    ensures
        pair_lt(p, q) || pair_lt(q, p),
{
    if p.0 != q.0 {
        lemma_chars_lt_total(p.0, q.0);
    } else if p.1 == q.1 {
        lemma_chars_lt_total(p.2, q.2);
    }
}

pub proof fn lemma_pair_lt_asymmetric(p: PairModel, q: PairModel)
    requires
        pair_lt(p, q),
    ensures
        !pair_lt(q, p),
{
    if pair_lt(q, p) {
        lemma_pair_lt_transitive(p, q, p);
        lemma_pair_lt_irreflexive(p);
    }
}

/// Two repeat-free sequences in canonical order that hold the same pairs are equal.
pub proof fn lemma_sorted_unique(a: Seq<PairModel>, b: Seq<PairModel>)
    requires
        strictly_sorted(a),
        strictly_sorted(b),
        a.to_set() == b.to_set(),
    ensures
        a == b,
    decreases a.len(),
{
    if a.len() == 0 {
        if b.len() > 0 {
            assert(a.to_set().contains(b[0]));
        }
        assert(a =~= b);
    } else if b.len() == 0 {
        assert(b.to_set().contains(a[0]));
    } else {
        assert(b.to_set().contains(a[0]));
        assert(a.to_set().contains(b[0]));
        let k = choose|k: int| 0 <= k < b.len() && b[k] == a[0];
        let m = choose|m: int| 0 <= m < a.len() && a[m] == b[0];
        if a[0] != b[0] {
            assert(k > 0 && m > 0);
            assert(pair_lt(b[0], b[k]));
            assert(pair_lt(a[0], a[m]));
            lemma_pair_lt_asymmetric(a[0], b[0]);
        }
        let ta = a.drop_first();
        let tb = b.drop_first();
        assert(strictly_sorted(ta)) by {
            assert forall|i: int, j: int| 0 <= i < j < ta.len() implies pair_lt(ta[i], ta[j]) by {
                assert(pair_lt(a[i + 1], a[j + 1]));
            }
        }
        assert(strictly_sorted(tb)) by {
            assert forall|i: int, j: int| 0 <= i < j < tb.len() implies pair_lt(tb[i], tb[j]) by {
                assert(pair_lt(b[i + 1], b[j + 1]));
            }
        }
        assert(ta.to_set() =~= tb.to_set()) by {
            assert forall|x: PairModel| ta.to_set().contains(x) implies tb.to_set().contains(x) by {
                let i = choose|i: int| 0 <= i < ta.len() && ta[i] == x;
                assert(a.to_set().contains(x));
                let j = choose|j: int| 0 <= j < b.len() && b[j] == x;
                assert(pair_lt(a[0], a[i + 1]));
                if j == 0 {
                    lemma_pair_lt_irreflexive(x);
                }
                assert(tb[j - 1] == x);
            }
            assert forall|x: PairModel| tb.to_set().contains(x) implies ta.to_set().contains(x) by {
                let i = choose|i: int| 0 <= i < tb.len() && tb[i] == x;
                assert(b.to_set().contains(x));
                let j = choose|j: int| 0 <= j < a.len() && a[j] == x;
                assert(pair_lt(b[0], b[i + 1]));
                if j == 0 {
                    lemma_pair_lt_irreflexive(x);
                }
                assert(ta[j - 1] == x);
            }
        }
        lemma_sorted_unique(ta, tb);
        assert(a =~= seq![a[0]] + ta);
        assert(b =~= seq![b[0]] + tb);
    }
}

/// Any sorted repeat-free arrangement of a selector's pairs is its canonical order.
pub proof fn lemma_canonical_order_is(s: Set<PairModel>, c: Seq<PairModel>)
    requires
        strictly_sorted(c),
        c.to_set() == s,
    ensures
        canonical_order(s) == c,
{
    let d = canonical_order(s);
    assert(strictly_sorted(d) && d.to_set() == s);
    lemma_sorted_unique(c, d);
}

/// Selectors that hold the same pairs, in whatever order and with whatever repeats,
/// have the same canonical key.
pub proof fn lemma_canonical_key_set_equal(s1: Seq<PairModel>, s2: Seq<PairModel>)
    requires
        s1.to_set() == s2.to_set(),
    ensures
        canonical_key(s1) == canonical_key(s2),
{
}

/// In canonical order every `servicename` pair (in any case) comes before every
/// other pair.
pub proof fn lemma_service_name_first(s: Seq<PairModel>, i: int, j: int)
    requires
        0 <= i < s.len(),
        0 <= j < s.len(),
        strictly_sorted(s),
        is_service_name(s[j].0),
        !is_service_name(s[i].0),
    ensures
        j < i,
{
    if i < j {
        assert(pair_lt(s[i], s[j]));
    }
}

/// Code-point-wise strict comparison of two strings.
pub fn chars_less(a: &str, b: &str) -> (r: bool)
    ensures
        r == chars_lt(a@, b@),
{
    let la = a.unicode_len();
    let lb = b.unicode_len();
    let mut i: usize = 0;
    proof {
        assert(a@.skip(0) =~= a@);
        assert(b@.skip(0) =~= b@);
    }
    while i < la && i < lb
        invariant
            i <= la,
            i <= lb,
            la == a@.len(),
            lb == b@.len(),
            chars_lt(a@, b@) == chars_lt(a@.skip(i as int), b@.skip(i as int)),
        decreases la - i,
    {
        let ca = a.get_char(i);
        let cb = b.get_char(i);
        if ca != cb {
            return (ca as u32) < (cb as u32);
        }
        proof {
            assert(a@.skip(i as int).drop_first() =~= a@.skip(i + 1));
            assert(b@.skip(i as int).drop_first() =~= b@.skip(i + 1));
        }
        i = i + 1;
    }
    i < lb
}

/// Whether a label is `servicename`, ignoring ASCII case.
pub fn is_service_label(s: &str) -> (r: bool)
    ensures
        r == is_service_name(s@),
{
    let lower = "servicename";
    let upper = "SERVICENAME";
    proof {
        reveal_strlit("servicename");
        reveal_strlit("SERVICENAME");
        assert(lower@ =~= service_lower());
        assert(upper@ =~= service_upper());
    }
    if s.unicode_len() != 11 {
        return false;
    }
    let mut i: usize = 0;
    while i < 11
        invariant
            i <= 11,
            s@.len() == 11,
            lower@ == service_lower(),
            upper@ == service_upper(),
            forall|k: int| 0 <= k < i ==> (#[trigger] s@[k] == service_lower()[k] || s@[k] == service_upper()[k]),
        decreases 11 - i,
    {
        let c = s.get_char(i);
        if c != lower.get_char(i) && c != upper.get_char(i) {
            return false;
        }
        i = i + 1;
    }
    true
}

fn op_rank_of(op: Operator) -> (r: u8)
    ensures
        r as int == op_rank(op),
{
    match op {
        Operator::Equal => 0,
        Operator::NotEqual => 1,
        Operator::RegexMatch => 2,
        Operator::RegexNotMatch => 3,
    }
}

/// Whether `a` comes strictly before `b` in the canonical order.
pub fn pair_less(a: &LabelPair, b: &LabelPair) -> (r: bool)
    ensures
        r == pair_lt(a@, b@),
{
    let ra: u8 = if is_service_label(a.label.as_str()) { 0 } else { 1 };
    let rb: u8 = if is_service_label(b.label.as_str()) { 0 } else { 1 };
    if ra != rb {
        ra < rb
    } else if a.label != b.label {
        chars_less(a.label.as_str(), b.label.as_str())
    } else if a.op != b.op {
        op_rank_of(a.op) < op_rank_of(b.op)
    } else {
        chars_less(a.value.as_str(), b.value.as_str())
    }
}

/// Whether two pairs are the same predicate.
pub fn pair_same(a: &LabelPair, b: &LabelPair) -> (r: bool)
    ensures
        r == (a@ == b@),
{
    a.label == b.label && a.op == b.op && a.value == b.value
}

/// A copy of a pair.
pub fn copy_pair(p: &LabelPair) -> (r: LabelPair)
    ensures
        r@ == p@,
{
    LabelPair { label: p.label.clone(), op: p.op, value: p.value.clone() }
}

/// The pairs of a selector in canonical order, each predicate once.
pub fn canonical_pairs(matches: &[LabelPair]) -> (r: Vec<LabelPair>)
    ensures
        strictly_sorted(pairs_view(r@)),
        pairs_view(r@).to_set() == pairs_view(matches@).to_set(),
{
    let mut arr: Vec<LabelPair> = Vec::new();
    let mut i: usize = 0;
    while i < matches.len()
        invariant
            i <= matches@.len(),
            strictly_sorted(pairs_view(arr@)),
            pairs_view(arr@).to_set() == pairs_view(matches@.take(i as int)).to_set(),
        decreases matches@.len() - i,
    {
        let p = &matches[i];
        let mut j: usize = 0;
        while j < arr.len() && pair_less(&arr[j], p)
            invariant
                j <= arr@.len(),
                forall|k: int| 0 <= k < j ==> pair_lt(#[trigger] arr@[k]@, p@),
            decreases arr@.len() - j,
        {
            j = j + 1;
        }
        let ghost old_arr = pairs_view(arr@);
        proof {
            assert(pairs_view(matches@.take(i + 1)) =~= pairs_view(matches@.take(i as int)).push(p@));
            pairs_view(matches@.take(i as int)).lemma_push_to_set_commute(p@);
        }
        if j < arr.len() && pair_same(&arr[j], p) {
            proof {
                assert(pairs_view(arr@).to_set() =~= pairs_view(matches@.take(i + 1)).to_set()) by {
                    assert(old_arr[j as int] == p@);
                    assert(old_arr.to_set().contains(p@));
                }
            }
        } else {
            proof {
                if j < arr.len() {
                    lemma_pair_lt_total(arr@[j as int]@, p@);
                }
            }
            arr.insert(j, copy_pair(p));
            proof {
                let nv = pairs_view(arr@);
                assert(nv =~= old_arr.insert(j as int, p@));
                assert(strictly_sorted(nv)) by {
                    assert forall|a: int, b: int| 0 <= a < b < nv.len() implies pair_lt(#[trigger] nv[a], #[trigger] nv[b]) by {
                        if b < j {
                            assert(pair_lt(old_arr[a], old_arr[b]));
                        } else if b == j {
                            assert(pair_lt(arr@[a]@, p@));
                        } else if a == j {
                            if b - 1 > j {
                                assert(pair_lt(old_arr[j as int], old_arr[b - 1]));
                                lemma_pair_lt_transitive(p@, old_arr[j as int], old_arr[b - 1]);
                            }
                        } else if a < j {
                            assert(pair_lt(arr@[a]@, p@));
                            assert(pair_lt(old_arr[a], old_arr[b - 1]));
                        } else {
                            assert(pair_lt(old_arr[a - 1], old_arr[b - 1]));
                        }
                    }
                }
                assert(nv.to_set() =~= old_arr.to_set().insert(p@)) by {
                    assert forall|x: PairModel| nv.to_set().contains(x) implies old_arr.to_set().insert(p@).contains(x) by {
                        let k = choose|k: int| 0 <= k < nv.len() && nv[k] == x;
                        if k < j {
                            assert(old_arr[k] == x);
                        } else if k > j {
                            assert(old_arr[k - 1] == x);
                        }
                    }
                    assert forall|x: PairModel| old_arr.to_set().insert(p@).contains(x) implies nv.to_set().contains(x) by {
                        if x == p@ {
                            assert(nv[j as int] == x);
                        } else {
                            let k = choose|k: int| 0 <= k < old_arr.len() && old_arr[k] == x;
                            if k < j {
                                assert(nv[k] == x);
                            } else {
                                assert(nv[k + 1] == x);
                            }
                        }
                    }
                }
                assert(pairs_view(matches@.take(i + 1)).to_set() =~= pairs_view(matches@.take(i as int)).to_set().insert(p@));
            }
        }
        i = i + 1;
    }
    proof {
        assert(matches@.take(i as int) =~= matches@);
    }
    arr
}

fn op_code_str(op: Operator) -> (r: &'static str)
    ensures
        r@ == seq![op_code(op)],
{
    match op {
        Operator::Equal => {
            proof { reveal_strlit("0"); }
            "0"
        },
        Operator::NotEqual => {
            proof { reveal_strlit("1"); }
            "1"
        },
        Operator::RegexMatch => {
            proof { reveal_strlit("2"); }
            "2"
        },
        Operator::RegexNotMatch => {
            proof { reveal_strlit("3"); }
            "3"
        },
    }
}

/// Encodes pairs that are already in the wanted order as `label/code/value`
/// joined with `-`.
pub fn join_encoded(arr: &Vec<LabelPair>) -> (r: String)
    ensures
        r@ == join_pairs(pairs_view(arr@)),
{
    let mut s = String::new();
    let mut i: usize = 0;
    proof {
        reveal_strlit("-");
        reveal_strlit("/");
    }
    while i < arr.len()
        invariant
            i <= arr@.len(),
            s@ == join_pairs(pairs_view(arr@).take(i as int)),
        decreases arr@.len() - i,
    {
        let ghost before = s@;
        proof {
            reveal_strlit("-");
            reveal_strlit("/");
        }
        if i > 0 {
            s.append("-");
        }
        let p = &arr[i];
        s.append(p.label.as_str());
        s.append("/");
        s.append(op_code_str(p.op));
        s.append("/");
        s.append(p.value.as_str());
        proof {
            let t = pairs_view(arr@).take(i + 1);
            assert(t.drop_last() =~= pairs_view(arr@).take(i as int));
            assert(t.last() == p@);
            if i == 0 {
                assert(s@ =~= encode_pair(p@));
            } else {
                assert(s@ =~= before + seq!['-'] + encode_pair(p@));
            }
        }
        i = i + 1;
    }
    proof {
        assert(pairs_view(arr@).take(i as int) =~= pairs_view(arr@));
    }
    s
}

/// The canonical key of a selector: its pairs in canonical order, each once,
/// encoded as `label/code/value` and joined with `-`. No pairs give the empty key.
pub fn canonicalize_matches(matches: &[LabelPair]) -> (r: String)
    ensures
        r@ == canonical_key(pairs_view(matches@)),
{
    let arr = canonical_pairs(matches);
    proof {
        lemma_canonical_order_is(pairs_view(matches@).to_set(), pairs_view(arr@));
    }
    join_encoded(&arr)
}

} // verus!
