use vstd::prelude::*;
use crate::filter::{RecordModel, SeriesRecord, record_view, records_view};
use crate::keys::{label_values_cache_key, label_values_prefix};

verus! {

/// Label names, each with the distinct values observed for it.
pub type GroupsModel = Seq<(Seq<char>, Seq<Seq<char>>)>;

pub open spec fn groups_view(g: Seq<(String, Vec<String>)>) -> GroupsModel {
    g.map_values(|e: (String, Vec<String>)| (e.0@, e.1@.map_values(|s: String| s@)))
}

/// The group of label `k` lists value `v`.
pub open spec fn group_has(g: GroupsModel, k: Seq<char>, v: Seq<char>) -> bool {
    exists|a: int, t: int| 0 <= a < g.len() && 0 <= t < g[a].1.len() && #[trigger] g[a].0 == k && #[trigger] g[a].1[t] == v
}

/// Some group is for label `k`.
pub open spec fn group_label(g: GroupsModel, k: Seq<char>) -> bool {
    exists|a: int| 0 <= a < g.len() && #[trigger] g[a].0 == k
}

/// Labels are distinct, and so are the values of each label.
pub open spec fn groups_wf(g: GroupsModel) -> bool {
    &&& forall|a: int, b: int| 0 <= a < b < g.len() ==> #[trigger] g[a].0 != #[trigger] g[b].0
    &&& forall|a: int, t: int, u: int|
        0 <= a < g.len() && 0 <= t < u < g[a].1.len() ==> #[trigger] g[a].1[t] != #[trigger] g[a].1[u]
}

/// Some record has the entry `(k, v)`.
pub open spec fn observed(rs: Seq<RecordModel>, k: Seq<char>, v: Seq<char>) -> bool {
    exists|i: int, j: int| 0 <= i < rs.len() && 0 <= j < rs[i].len() && #[trigger] rs[i][j] == (k, v)
}

/// Some record has label `k`.
pub open spec fn label_seen(rs: Seq<RecordModel>, k: Seq<char>) -> bool {
    exists|i: int, j: int| 0 <= i < rs.len() && 0 <= j < rs[i].len() && #[trigger] rs[i][j].0 == k
}

fn find_label(out: &Vec<(String, Vec<String>)>, k: &String) -> (r: Option<usize>)
    ensures
        match r {
            Some(a) => a < out@.len() && out@[a as int].0@ == k@,
            None => forall|a: int| 0 <= a < out@.len() ==> out@[a].0@ != k@,
        },
{
    let mut a: usize = 0;
    while a < out.len()
        invariant
            a <= out@.len(),
            forall|b: int| 0 <= b < a ==> out@[b].0@ != k@,
        decreases out@.len() - a,
    {
        if out[a].0 == *k {
            return Some(a);
        }
        a = a + 1;
    }
    None
}

fn contains_value(vs: &Vec<String>, v: &String) -> (r: bool)
    ensures
        r == exists|t: int| 0 <= t < vs@.len() && #[trigger] vs@[t]@ == v@,
{
    let mut t: usize = 0;
    while t < vs.len()
        invariant
            t <= vs@.len(),
            forall|u: int| 0 <= u < t ==> vs@[u]@ != v@,
        decreases vs@.len() - t,
    {
        if vs[t] == *v {
            return true;
        }
        t = t + 1;
    }
    false
}

/// Records that label `k` takes value `v`.
fn add_entry(out: &mut Vec<(String, Vec<String>)>, k: &String, v: &String)
    requires
        groups_wf(groups_view(old(out)@)),
    ensures
        groups_wf(groups_view(final(out)@)),
        forall|x: Seq<char>| #[trigger] group_label(groups_view(final(out)@), x) <==> (group_label(groups_view(old(out)@), x) || x == k@),
        forall|x: Seq<char>, y: Seq<char>| #[trigger] group_has(groups_view(final(out)@), x, y) <==> (group_has(groups_view(old(out)@), x, y) || (x == k@ && y == v@)),
{
    let ghost g0 = groups_view(out@);
    match find_label(out, k) {
        None => {
            let mut vs: Vec<String> = Vec::new();
            vs.push(v.clone());
            proof {
                assert(vs@.map_values(|s: String| s@) =~= seq![v@]);
            }
            out.push((k.clone(), vs));
            proof {
                let g1 = groups_view(out@);
                assert(g1[g0.len() as int] == (k@, seq![v@]));
                assert(g1 =~= g0.push((k@, seq![v@])));
                assert(g1[g0.len() as int].1[0] == v@);
                assert forall|x: Seq<char>| #[trigger] group_label(g1, x) <==> (group_label(g0, x) || x == k@) by {
                    if group_label(g1, x) {
                        let a = choose|a: int| 0 <= a < g1.len() && #[trigger] g1[a].0 == x;
                        if a < g0.len() {
                            assert(g0[a].0 == x);
                        }
                    }
                    if group_label(g0, x) {
                        let a = choose|a: int| 0 <= a < g0.len() && #[trigger] g0[a].0 == x;
                        assert(g1[a].0 == x);
                    }
                    if x == k@ {
                        assert(g1[g0.len() as int].0 == x);
                    }
                }
                assert forall|x: Seq<char>, y: Seq<char>| #[trigger] group_has(g1, x, y) <==> (group_has(g0, x, y) || (x == k@ && y == v@)) by {
                    if group_has(g1, x, y) {
                        let (a, t) = choose|a: int, t: int| 0 <= a < g1.len() && 0 <= t < g1[a].1.len() && #[trigger] g1[a].0 == x && #[trigger] g1[a].1[t] == y;
                        if a < g0.len() {
                            assert(g0[a].0 == x && g0[a].1[t] == y);
                        }
                    }
                    if group_has(g0, x, y) {
                        let (a, t) = choose|a: int, t: int| 0 <= a < g0.len() && 0 <= t < g0[a].1.len() && #[trigger] g0[a].0 == x && #[trigger] g0[a].1[t] == y;
                        assert(g1[a].0 == x && g1[a].1[t] == y);
                    }
                    if x == k@ && y == v@ {
                        assert(g1[g0.len() as int].0 == x && g1[g0.len() as int].1[0] == y);
                    }
                }
                assert forall|a: int, b: int| 0 <= a < b < g1.len() implies #[trigger] g1[a].0 != #[trigger] g1[b].0 by {
                    if b < g0.len() {
                        assert(g0[a].0 != g0[b].0);
                    } else {
                        assert(out@[a].0@ != k@);
                    }
                }
                assert forall|a: int, t: int, u: int| 0 <= a < g1.len() && 0 <= t < u < g1[a].1.len() implies #[trigger] g1[a].1[t] != #[trigger] g1[a].1[u] by {
                    if a < g0.len() {
                        assert(g0[a].1[t] != g0[a].1[u]);
                    }
                }
            }
        },
        Some(a) => {
            let (lab, mut vs) = out.remove(a);
            let ghost g_mid = groups_view(out@);
            let ghost vs0 = vs@.map_values(|s: String| s@);
            proof {
                assert(g0[a as int] == (lab@, vs0));
                assert(g_mid =~= g0.remove(a as int));
            }
            if !contains_value(&vs, v) {
                vs.push(v.clone());
            }
            let ghost vs1 = vs@.map_values(|s: String| s@);
            proof {
                assert(forall|t: int| 0 <= t < vs0.len() ==> vs1[t] == vs0[t]);
                assert(exists|t: int| 0 <= t < vs1.len() && vs1[t] == v@) by {
                    if vs1.len() > vs0.len() {
                        assert(vs1[vs0.len() as int] == v@);
                    } else {
                        let t = choose|t: int| 0 <= t < vs@.len() && #[trigger] vs@[t]@ == v@;
                        assert(vs1[t] == v@);
                    }
                }
                assert(forall|t: int| 0 <= t < vs1.len() ==> (#[trigger] vs1[t] == v@ || (t < vs0.len() && vs1[t] == vs0[t])));
            }
            out.insert(a, (lab, vs));
            proof {
                let g1 = groups_view(out@);
                assert(g1 =~= g0.update(a as int, (k@, vs1)));
                assert forall|x: Seq<char>| #[trigger] group_label(g1, x) <==> (group_label(g0, x) || x == k@) by {
                    if group_label(g1, x) {
                        let b = choose|b: int| 0 <= b < g1.len() && #[trigger] g1[b].0 == x;
                        assert(g0[b].0 == x);
                    }
                    if group_label(g0, x) {
                        let b = choose|b: int| 0 <= b < g0.len() && #[trigger] g0[b].0 == x;
                        assert(g1[b].0 == x);
                    }
                    if x == k@ {
                        assert(g1[a as int].0 == x);
                    }
                }
                assert forall|x: Seq<char>, y: Seq<char>| #[trigger] group_has(g1, x, y) <==> (group_has(g0, x, y) || (x == k@ && y == v@)) by {
                    if group_has(g1, x, y) {
                        let (b, t) = choose|b: int, t: int| 0 <= b < g1.len() && 0 <= t < g1[b].1.len() && #[trigger] g1[b].0 == x && #[trigger] g1[b].1[t] == y;
                        if b != a {
                            assert(g0[b].0 == x && g0[b].1[t] == y);
                        } else if y != v@ {
                            assert(g0[b].0 == x && g0[b].1[t] == y);
                        }
                    }
                    if group_has(g0, x, y) {
                        let (b, t) = choose|b: int, t: int| 0 <= b < g0.len() && 0 <= t < g0[b].1.len() && #[trigger] g0[b].0 == x && #[trigger] g0[b].1[t] == y;
                        assert(g1[b].0 == x && g1[b].1[t] == y);
                    }
                    if x == k@ && y == v@ {
                        let t = choose|t: int| 0 <= t < vs1.len() && vs1[t] == v@;
                        assert(g1[a as int].0 == x && g1[a as int].1[t] == y);
                    }
                }
                assert forall|b: int, c: int| 0 <= b < c < g1.len() implies #[trigger] g1[b].0 != #[trigger] g1[c].0 by {
                    assert(g0[b].0 != g0[c].0);
                }
                assert forall|b: int, t: int, u: int| 0 <= b < g1.len() && 0 <= t < u < g1[b].1.len() implies #[trigger] g1[b].1[t] != #[trigger] g1[b].1[u] by {
                    if b != a {
                        assert(g0[b].1[t] != g0[b].1[u]);
                    } else if u < vs0.len() {
                        assert(g0[b].1[t] != g0[b].1[u]);
                    } else {
                        assert(!(exists|w: int| 0 <= w < vs@.len() - 1 && #[trigger] vs@[w]@ == v@) ==> vs1[t] != v@);
                    }
                }
            }
        },
    }
}

proof fn lemma_observed_step(rs: Seq<RecordModel>, i: int)
    requires
        0 <= i < rs.len(),
    ensures
        forall|k: Seq<char>, v: Seq<char>| #[trigger] observed(rs.take(i + 1), k, v) <==> (observed(rs.take(i), k, v)
            || exists|j: int| 0 <= j < rs[i].len() && #[trigger] rs[i][j] == (k, v)),
        forall|k: Seq<char>| #[trigger] label_seen(rs.take(i + 1), k) <==> (label_seen(rs.take(i), k)
            || exists|j: int| 0 <= j < rs[i].len() && #[trigger] rs[i][j].0 == k),
{
    let t0 = rs.take(i);
    let t1 = rs.take(i + 1);
    assert forall|k: Seq<char>, v: Seq<char>| #[trigger] observed(t1, k, v) <==> (observed(t0, k, v)
        || exists|j: int| 0 <= j < rs[i].len() && #[trigger] rs[i][j] == (k, v)) by {
        if observed(t1, k, v) {
            let (a, j) = choose|a: int, j: int| 0 <= a < t1.len() && 0 <= j < t1[a].len() && #[trigger] t1[a][j] == (k, v);
            if a < i {
                assert(t0[a][j] == (k, v));
            } else {
                assert(rs[i][j] == (k, v));
            }
        }
        if observed(t0, k, v) {
            let (a, j) = choose|a: int, j: int| 0 <= a < t0.len() && 0 <= j < t0[a].len() && #[trigger] t0[a][j] == (k, v);
            assert(t1[a][j] == (k, v));
        }
        if exists|j: int| 0 <= j < rs[i].len() && #[trigger] rs[i][j] == (k, v) {
            let j = choose|j: int| 0 <= j < rs[i].len() && #[trigger] rs[i][j] == (k, v);
            assert(t1[i][j] == (k, v));
        }
    }
    assert forall|k: Seq<char>| #[trigger] label_seen(t1, k) <==> (label_seen(t0, k)
        || exists|j: int| 0 <= j < rs[i].len() && #[trigger] rs[i][j].0 == k) by {
        if label_seen(t1, k) {
            let (a, j) = choose|a: int, j: int| 0 <= a < t1.len() && 0 <= j < t1[a].len() && #[trigger] t1[a][j].0 == k;
            if a < i {
                assert(t0[a][j].0 == k);
            } else {
                assert(rs[i][j].0 == k);
            }
        }
        if label_seen(t0, k) {
            let (a, j) = choose|a: int, j: int| 0 <= a < t0.len() && 0 <= j < t0[a].len() && #[trigger] t0[a][j].0 == k;
            assert(t1[a][j].0 == k);
        }
        if exists|j: int| 0 <= j < rs[i].len() && #[trigger] rs[i][j].0 == k {
            let j = choose|j: int| 0 <= j < rs[i].len() && #[trigger] rs[i][j].0 == k;
            assert(t1[i][j].0 == k);
        }
    }
}

/// Groups every label of the records with the distinct values it takes.
pub fn convert_vec_hashmap(input: &Vec<SeriesRecord>) -> (r: Vec<(String, Vec<String>)>)
    ensures
        groups_wf(groups_view(r@)),
        forall|k: Seq<char>| #[trigger] group_label(groups_view(r@), k) <==> label_seen(records_view(input@), k),
        forall|k: Seq<char>, v: Seq<char>| #[trigger] group_has(groups_view(r@), k, v) <==> observed(records_view(input@), k, v),
{
    let ghost rs = records_view(input@);
    let mut out: Vec<(String, Vec<String>)> = Vec::new();
    let mut i: usize = 0;
    proof {
        assert(rs.take(0).len() == 0);
    }
    while i < input.len()
        invariant
            i <= input@.len(),
            rs == records_view(input@),
            groups_wf(groups_view(out@)),
            forall|k: Seq<char>| #[trigger] group_label(groups_view(out@), k) <==> label_seen(rs.take(i as int), k),
            forall|k: Seq<char>, v: Seq<char>| #[trigger] group_has(groups_view(out@), k, v) <==> observed(rs.take(i as int), k, v),
        decreases input@.len() - i,
    {
        let rec = &input[i];
        let ghost r = rs[i as int];
        proof {
            assert(r == record_view(rec@));
        }
        let mut j: usize = 0;
        while j < rec.len()
            invariant
                i < input@.len(),
                j <= rec@.len(),
                rs == records_view(input@),
                r == record_view(rec@),
                groups_wf(groups_view(out@)),
                forall|k: Seq<char>| #[trigger] group_label(groups_view(out@), k) <==> (label_seen(rs.take(i as int), k)
                    || exists|b: int| 0 <= b < j && #[trigger] r[b].0 == k),
                forall|k: Seq<char>, v: Seq<char>| #[trigger] group_has(groups_view(out@), k, v) <==> (observed(rs.take(i as int), k, v)
                    || exists|b: int| 0 <= b < j && #[trigger] r[b] == (k, v)),
            decreases rec@.len() - j,
        {
            add_entry(&mut out, &rec[j].0, &rec[j].1);
            proof {
                assert(r[j as int] == (rec@[j as int].0@, rec@[j as int].1@));
                assert forall|k: Seq<char>| #[trigger] group_label(groups_view(out@), k) <==> (label_seen(rs.take(i as int), k)
                    || exists|b: int| 0 <= b < j + 1 && #[trigger] r[b].0 == k) by {
                    if exists|b: int| 0 <= b < j + 1 && #[trigger] r[b].0 == k {
                        let b = choose|b: int| 0 <= b < j + 1 && #[trigger] r[b].0 == k;
                        if b < j {
                            assert(r[b].0 == k);
                        }
                    }
                    if k == r[j as int].0 {
                        assert(r[j as int].0 == k);
                    }
                }
            }
            j = j + 1;
        }
        proof {
            lemma_observed_step(rs, i as int);
            assert(rs[i as int].len() == j);
        }
        i = i + 1;
    }
    proof {
        assert(rs.take(i as int) =~= rs);
    }
    out
}

proof fn lemma_prefix_cancel(p: Seq<char>, a: Seq<char>, b: Seq<char>)
    requires
        p + a == p + b,
    ensures
        a == b,
{
    assert(a =~= (p + a).skip(p.len() as int));
    assert(b =~= (p + b).skip(p.len() as int));
}

/// Turns label groups into label-values cache entries: one per label, keyed by the
/// label, holding its values.
pub fn cache_values(groups: Vec<(String, Vec<String>)>) -> (r: Vec<(String, Vec<String>)>)
    ensures
        r@.len() == groups@.len(),
        forall|a: int| 0 <= a < r@.len() ==> #[trigger] groups_view(r@)[a] == (label_values_prefix() + groups_view(groups@)[a].0, groups_view(groups@)[a].1),
{
    let ghost g = groups_view(groups@);
    let mut rest = groups;
    let mut out: Vec<(String, Vec<String>)> = Vec::new();
    let ghost mut done: int = 0;
    while rest.len() > 0
        invariant
            0 <= done <= g.len(),
            groups_view(rest@) == g.skip(done),
            out@.len() == done,
            forall|a: int| 0 <= a < done ==> #[trigger] groups_view(out@)[a] == (label_values_prefix() + g[a].0, g[a].1),
        decreases rest@.len(),
    {
        let ghost before = rest@;
        proof {
            assert(groups_view(before).len() == before.len());
            assert(g.skip(done).len() == g.len() - done);
            assert(groups_view(before)[0] == g[done]);
        }
        let (label, values) = rest.remove(0);
        proof {
            assert forall|k: int| 0 <= k < rest@.len() implies #[trigger] groups_view(rest@)[k] == g.skip(done + 1)[k] by {
                assert(rest@[k] == before[k + 1]);
                assert(groups_view(before)[k + 1] == g.skip(done)[k + 1]);
            }
            assert(groups_view(rest@) =~= g.skip(done + 1));
        }
        let key = label_values_cache_key(label.as_str());
        let ghost old_out = groups_view(out@);
        out.push((key, values));
        proof {
            assert(groups_view(out@) =~= old_out.push((label_values_prefix() + g[done].0, g[done].1)));
            done = done + 1;
        }
    }
    proof {
        assert(g.skip(done).len() == 0);
    }
    out
}

/// What to store after an unfiltered fetch of every series.
pub struct FetchWrites {
    /// Store the records under the "all series" key.
    pub store_all: bool,
    /// Label-values entries to store: cache key and values.
    pub label_values: Vec<(String, Vec<String>)>,
}

/// The cache writes that follow an unfiltered fetch: nothing for an empty result;
/// otherwise the records themselves, and for each label one entry, keyed by the
/// label, with the distinct values it takes across the records.
pub fn writes_after_fetch(records: &Vec<SeriesRecord>) -> (r: FetchWrites)
    ensures
        r.store_all == (records@.len() > 0),
        records@.len() == 0 ==> r.label_values@.len() == 0,
        groups_wf(groups_view(r.label_values@)),
        forall|k: Seq<char>| #[trigger] group_label(groups_view(r.label_values@), label_values_prefix() + k)
            <==> label_seen(records_view(records@), k),
        forall|k: Seq<char>, v: Seq<char>| #[trigger] group_has(groups_view(r.label_values@), label_values_prefix() + k, v)
            <==> observed(records_view(records@), k, v),
{
    if records.len() == 0 {
        let r = FetchWrites { store_all: false, label_values: Vec::new() };
        proof {
            let rs = records_view(records@);
            assert(groups_view(r.label_values@).len() == 0);
            assert forall|k: Seq<char>| !label_seen(rs, k) by {}
            assert forall|k: Seq<char>, v: Seq<char>| !observed(rs, k, v) by {}
        }
        return r;
    }
    let groups = convert_vec_hashmap(records);
    let ghost g = groups_view(groups@);
    let entries = cache_values(groups);
    proof {
        let w = groups_view(entries@);
        let p = label_values_prefix();
        assert forall|k: Seq<char>| #[trigger] group_label(w, p + k) <==> group_label(g, k) by {
            if group_label(w, p + k) {
                let a = choose|a: int| 0 <= a < w.len() && #[trigger] w[a].0 == p + k;
                assert(w[a] == (p + g[a].0, g[a].1));
                lemma_prefix_cancel(p, g[a].0, k);
                assert(g[a].0 == k);
            }
            if group_label(g, k) {
                let a = choose|a: int| 0 <= a < g.len() && #[trigger] g[a].0 == k;
                assert(w[a] == (p + g[a].0, g[a].1));
                assert(w[a].0 == p + k);
            }
        }
        assert forall|k: Seq<char>, v: Seq<char>| #[trigger] group_has(w, p + k, v) <==> group_has(g, k, v) by {
            if group_has(w, p + k, v) {
                let (a, t) = choose|a: int, t: int| 0 <= a < w.len() && 0 <= t < w[a].1.len() && #[trigger] w[a].0 == p + k && #[trigger] w[a].1[t] == v;
                assert(w[a] == (p + g[a].0, g[a].1));
                lemma_prefix_cancel(p, g[a].0, k);
                assert(g[a].0 == k && g[a].1[t] == v);
            }
            if group_has(g, k, v) {
                let (a, t) = choose|a: int, t: int| 0 <= a < g.len() && 0 <= t < g[a].1.len() && #[trigger] g[a].0 == k && #[trigger] g[a].1[t] == v;
                assert(w[a] == (p + g[a].0, g[a].1));
                assert(w[a].0 == p + k && w[a].1[t] == v);
            }
        }
        assert forall|a: int, b: int| 0 <= a < b < w.len() implies #[trigger] w[a].0 != #[trigger] w[b].0 by {
            assert(w[a] == (p + g[a].0, g[a].1));
            assert(w[b] == (p + g[b].0, g[b].1));
            if w[a].0 == w[b].0 {
                lemma_prefix_cancel(p, g[a].0, g[b].0);
            }
        }
        assert forall|a: int, t: int, u: int| 0 <= a < w.len() && 0 <= t < u < w[a].1.len() implies #[trigger] w[a].1[t] != #[trigger] w[a].1[u] by {
            assert(w[a] == (p + g[a].0, g[a].1));
        }
    }
    FetchWrites { store_all: true, label_values: entries }
}

} // verus!
