//! Ordering of texts and numbers, as the ordered collections of std keep them.
use vstd::prelude::*;
use crate::text::{text_lt, text_order, TextOrder, lemma_text_lt_total, lemma_text_lt_transitive};

verus! {

broadcast use vstd::seq_lib::group_seq_properties;

/// No two keys have the same text.
pub open spec fn distinct_texts(keys: Seq<String>) -> bool {
    forall|i: int, j: int| 0 <= i < keys.len() && 0 <= j < keys.len() && i != j ==> keys[i]@ != keys[j]@
}

/// `order` lists positions of `keys` in strictly increasing order of their texts.
pub open spec fn strictly_sorted_by_text(keys: Seq<String>, order: Seq<usize>) -> bool {
    &&& forall|i: int| 0 <= i < order.len() ==> #[trigger] order[i] < keys.len()
    &&& forall|i: int, j: int|
        0 <= i < j < order.len() ==> text_lt(keys[order[i] as int]@, keys[order[j] as int]@)
}

/// `order` lists every position of `keys` once, in increasing order of the keys' texts:
/// the order in which an ordered map of std yields these keys.
pub open spec fn is_text_order(keys: Seq<String>, order: Seq<usize>) -> bool {
    &&& order.len() == keys.len()
    &&& strictly_sorted_by_text(keys, order)
}

fn merge_by_text(keys: &Vec<String>, a: Vec<usize>, b: Vec<usize>) -> (r: Vec<usize>)
    requires
        distinct_texts(keys@),
        strictly_sorted_by_text(keys@, a@),
        strictly_sorted_by_text(keys@, b@),
        forall|i: int, j: int| 0 <= i < a@.len() && 0 <= j < b@.len() ==> a@[i] != b@[j],
    ensures
        strictly_sorted_by_text(keys@, r@),
        r@.len() == a@.len() + b@.len(),
        forall|k: int| 0 <= k < r@.len() ==> a@.contains(#[trigger] r@[k]) || b@.contains(r@[k]),
{
    let mut out: Vec<usize> = Vec::new();
    let mut i: usize = 0;
    let mut j: usize = 0;
    while i < a.len() || j < b.len()
        invariant
            distinct_texts(keys@),
            strictly_sorted_by_text(keys@, a@),
            strictly_sorted_by_text(keys@, b@),
            forall|x: int, y: int| 0 <= x < a@.len() && 0 <= y < b@.len() ==> a@[x] != b@[y],
            i <= a@.len(),
            j <= b@.len(),
            out@.len() == i + j,
            strictly_sorted_by_text(keys@, out@),
            forall|k: int|
                0 <= k < out@.len() ==> a@.contains(#[trigger] out@[k]) || b@.contains(out@[k]),
            out@.len() > 0 && i < a@.len() ==> text_lt(
                keys@[out@.last() as int]@,
                keys@[a@[i as int] as int]@,
            ),
            out@.len() > 0 && j < b@.len() ==> text_lt(
                keys@[out@.last() as int]@,
                keys@[b@[j as int] as int]@,
            ),
        decreases a@.len() + b@.len() - i - j,
    {
        let take_a = if i < a.len() && j < b.len() {
            let o = text_order(keys[a[i]].as_str(), keys[b[j]].as_str());
            proof {
                assert(a@[i as int] != b@[j as int]);
                lemma_text_lt_total(keys@[a@[i as int] as int]@, keys@[b@[j as int] as int]@);
            }
            o == TextOrder::Less
        } else {
            i < a.len()
        };
        let ghost old_out = out@;
        let x = if take_a { a[i] } else { b[j] };
        proof {
            // x comes after everything already written
            assert forall|k: int| 0 <= k < old_out.len() implies text_lt(
                keys@[old_out[k] as int]@,
                keys@[x as int]@,
            ) by {
                if k < old_out.len() - 1 {
                    lemma_text_lt_transitive(
                        keys@[old_out[k] as int]@,
                        keys@[old_out.last() as int]@,
                        keys@[x as int]@,
                    );
                }
            }
        }
        out.push(x);
        if take_a {
            i = i + 1;
            proof {
                if j < b@.len() {
                    lemma_text_lt_total(keys@[x as int]@, keys@[b@[j as int] as int]@);
                }
                assert(a@.contains(x));
            }
        } else {
            j = j + 1;
            proof {
                if i < a@.len() {
                    lemma_text_lt_total(keys@[x as int]@, keys@[a@[i as int] as int]@);
                    assert(keys@[x as int]@ != keys@[a@[i as int] as int]@);
                }
                assert(b@.contains(x));
            }
        }
        proof {
            assert forall|k: int| 0 <= k < out@.len() implies a@.contains(#[trigger] out@[k])
                || b@.contains(out@[k]) by {
                if k < old_out.len() {
                    assert(out@[k] == old_out[k]);
                }
            }
        }
    }
    out
}

fn sort_range_by_text(keys: &Vec<String>, lo: usize, hi: usize) -> (r: Vec<usize>)
    requires
        distinct_texts(keys@),
        lo <= hi <= keys@.len(),
    ensures
        strictly_sorted_by_text(keys@, r@),
        r@.len() == hi - lo,
        forall|k: int| 0 <= k < r@.len() ==> lo <= #[trigger] r@[k] < hi,
    decreases hi - lo,
{
    if hi - lo == 0 {
        return Vec::new();
    }
    if hi - lo == 1 {
        let mut v = Vec::new();
        v.push(lo);
        return v;
    }
    let mid = lo + (hi - lo) / 2;
    let a = sort_range_by_text(keys, lo, mid);
    let b = sort_range_by_text(keys, mid, hi);
    proof {
        assert forall|x: int, y: int| 0 <= x < a@.len() && 0 <= y < b@.len() implies a@[x]
            != b@[y] by {
            assert(a@[x] < mid);
            assert(mid <= b@[y]);
        }
    }
    let ghost ga = a@;
    let ghost gb = b@;
    let r = merge_by_text(keys, a, b);
    proof {
        assert forall|k: int| 0 <= k < r@.len() implies lo <= #[trigger] r@[k] < hi by {
            if ga.contains(r@[k]) {
                let t = choose|t: int| 0 <= t < ga.len() && ga[t] == r@[k];
            } else {
                let t = choose|t: int| 0 <= t < gb.len() && gb[t] == r@[k];
            }
        }
    }
    r
}

/// The positions of `keys` in increasing order of their texts (merge sort).
pub fn text_order_of(keys: &Vec<String>) -> (r: Vec<usize>)
    requires
        distinct_texts(keys@),
    ensures
        is_text_order(keys@, r@),
{
    sort_range_by_text(keys, 0, keys.len())
}

/// `s` is in nondecreasing order.
pub open spec fn nondecreasing(s: Seq<u64>) -> bool {
    forall|i: int, j: int| 0 <= i < j < s.len() ==> s[i] <= s[j]
}

proof fn lemma_insert_sorted(before: Seq<u64>, p: int, x: u64)
    requires
        nondecreasing(before),
        0 <= p <= before.len(),
        forall|k: int| 0 <= k < p ==> before[k] <= x,
        p < before.len() ==> before[p] > x,
    ensures
        nondecreasing(before.insert(p, x)),
{
    let out = before.insert(p, x);
    assert forall|a: int, b: int| 0 <= a < b < out.len() implies out[a] <= out[b] by {
        if b < p {
        } else if a > p {
            assert(out[a] == before[a - 1]);
            assert(out[b] == before[b - 1]);
        } else if a == p {
            assert(out[b] == before[b - 1]);
            if b - 1 > p {
                assert(before[p] <= before[b - 1]);
            }
        } else {
            assert(out[a] == before[a]);
            if b > p {
                assert(out[b] == before[b - 1]);
                assert(before[a] <= x);
                assert(before[p] > x);
                assert(before[p] <= before[b - 1]);
            }
        }
    }
}

/// Sorts numbers in nondecreasing order, keeping each as often as it occurs.
pub fn sort_u64(v: &Vec<u64>) -> (r: Vec<u64>)
    ensures
        nondecreasing(r@),
        r@.to_multiset() == v@.to_multiset(),
{
    let mut out: Vec<u64> = Vec::new();
    let mut i: usize = 0;
    while i < v.len()
        invariant
            i <= v@.len(),
            nondecreasing(out@),
            out@.to_multiset() == v@.take(i as int).to_multiset(),
        decreases v@.len() - i,
    {
        let x = v[i];
        let mut p: usize = 0;
        while p < out.len() && out[p] <= x
            invariant
                p <= out@.len(),
                forall|k: int| 0 <= k < p ==> out@[k] <= x,
            decreases out@.len() - p,
        {
            p = p + 1;
        }
        let ghost before = out@;
        out.insert(p, x);
        proof {
            lemma_insert_sorted(before, p as int, x);
            vstd::seq_lib::to_multiset_insert(before, p as int, x);
            assert(v@.take(i + 1) =~= v@.take(i as int).push(x));
            vstd::seq_lib::to_multiset_build(v@.take(i as int), x);
        }
        i = i + 1;
    }
    assert(v@.take(v@.len() as int) =~= v@);
    out
}

/// `s` is in strictly increasing order of texts.
pub open spec fn increasing_texts(s: Seq<Seq<char>>) -> bool {
    forall|i: int, j: int| 0 <= i < j < s.len() ==> text_lt(s[i], s[j])
}

/// The texts of a finite set, in increasing order.
pub open spec fn sorted_texts_of(s: Set<Seq<char>>) -> Seq<Seq<char>> {
    choose|q: Seq<Seq<char>>| increasing_texts(q) && q.to_set() == s
}

proof fn lemma_increasing_min(q: Seq<Seq<char>>, x: Seq<char>)
    requires
        increasing_texts(q),
        q.len() > 0,
        q.contains(x),
    ensures
        x == q[0] || text_lt(q[0], x),
{
}

/// Two increasing sequences of the same texts are the same sequence; so the
/// sorted enumeration of a set is that sequence.
pub proof fn lemma_increasing_texts_unique(a: Seq<Seq<char>>, b: Seq<Seq<char>>)
    requires
        increasing_texts(a),
        increasing_texts(b),
        a.to_set() == b.to_set(),
    ensures
        a == b,
    decreases a.len(),
{
    broadcast use vstd::set::group_set_axioms;
    if a.len() == 0 {
        if b.len() > 0 {
            assert(b.to_set().contains(b[0]));
        }
        assert(a =~= b);
    } else if b.len() == 0 {
        assert(a.to_set().contains(a[0]));
    } else {
        assert(a.to_set().contains(a[0]));
        assert(b.to_set().contains(b[0]));
        assert(b.contains(a[0]));
        assert(a.contains(b[0]));
        lemma_increasing_min(a, b[0]);
        lemma_increasing_min(b, a[0]);
        if a[0] != b[0] {
            lemma_text_lt_total(a[0], b[0]);
        }
        let a1 = a.drop_first();
        let b1 = b.drop_first();
        assert forall|x: Seq<char>| a1.to_set().contains(x) <==> b1.to_set().contains(x) by {
            if a1.contains(x) {
                let i = choose|i: int| 0 <= i < a1.len() && a1[i] == x;
                assert(text_lt(a[0], a[i + 1]));
                lemma_text_lt_total(a[0], x);
                assert(a.to_set().contains(x));
                assert(b.contains(x));
                let j = choose|j: int| 0 <= j < b.len() && b[j] == x;
                assert(j != 0);
                assert(b1[j - 1] == x);
            }
            if b1.contains(x) {
                let i = choose|i: int| 0 <= i < b1.len() && b1[i] == x;
                assert(text_lt(b[0], b[i + 1]));
                lemma_text_lt_total(b[0], x);
                assert(b.to_set().contains(x));
                assert(a.contains(x));
                let j = choose|j: int| 0 <= j < a.len() && a[j] == x;
                assert(j != 0);
                assert(a1[j - 1] == x);
            }
        }
        assert(a1.to_set() =~= b1.to_set());
        lemma_increasing_texts_unique(a1, b1);
        assert(a =~= seq![a[0]] + a1);
        assert(b =~= seq![b[0]] + b1);
    }
}

/// An increasing sequence is the sorted enumeration of its texts.
pub proof fn lemma_sorted_texts_of(q: Seq<Seq<char>>)
    requires
        increasing_texts(q),
    ensures
        sorted_texts_of(q.to_set()) == q,
{
    let c = sorted_texts_of(q.to_set());
    assert(increasing_texts(c) && c.to_set() == q.to_set());
    lemma_increasing_texts_unique(c, q);
}


/// `q` with `x` put at its place in text order.
pub open spec fn insert_text(q: Seq<Seq<char>>, x: Seq<char>) -> Seq<Seq<char>>
    decreases q.len(),
{
    if q.len() == 0 {
        seq![x]
    } else if text_lt(x, q[0]) {
        seq![x] + q
    } else {
        seq![q[0]] + insert_text(q.drop_first(), x)
    }
}

proof fn lemma_insert_text(q: Seq<Seq<char>>, x: Seq<char>)
    requires
        increasing_texts(q),
        !q.contains(x),
    ensures
        increasing_texts(insert_text(q, x)),
        insert_text(q, x).to_set() == q.to_set().insert(x),
    decreases q.len(),
{
    broadcast use vstd::set::group_set_axioms;
    let r = insert_text(q, x);
    if q.len() == 0 {
        assert(r.to_set() =~= q.to_set().insert(x)) by {
            assert(r == seq![x]);
            assert forall|y: Seq<char>| r.to_set().contains(y) <==> q.to_set().insert(x).contains(y) by {
                if r.contains(y) {
                    assert(r[0] == y);
                }
                if y == x {
                    assert(r[0] == x);
                }
            }
        }
    } else if text_lt(x, q[0]) {
        assert forall|i: int, j: int| 0 <= i < j < r.len() implies text_lt(r[i], r[j]) by {
            if i == 0 {
                assert(r[j] == q[j - 1]);
                if j - 1 > 0 {
                    lemma_text_lt_transitive(x, q[0], q[j - 1]);
                }
            } else {
                assert(r[i] == q[i - 1] && r[j] == q[j - 1]);
            }
        }
        assert forall|y: Seq<char>| r.to_set().contains(y) <==> q.to_set().insert(x).contains(y) by {
            if r.contains(y) {
                let i = choose|i: int| 0 <= i < r.len() && r[i] == y;
                if i > 0 {
                    assert(q[i - 1] == y);
                }
            }
            if q.contains(y) {
                let i = choose|i: int| 0 <= i < q.len() && q[i] == y;
                assert(r[i + 1] == y);
            }
            if y == x {
                assert(r[0] == x);
            }
        }
        assert(r.to_set() =~= q.to_set().insert(x));
    } else {
        let t = q.drop_first();
        assert(q[0] != x) by {
            assert(q[0] == q[0] && q.contains(q[0]));
        }
        lemma_text_lt_total(x, q[0]);
        assert(!t.contains(x)) by {
            if t.contains(x) {
                let i = choose|i: int| 0 <= i < t.len() && t[i] == x;
                assert(q[i + 1] == x);
            }
        }
        assert(increasing_texts(t)) by {
            assert forall|i: int, j: int| 0 <= i < j < t.len() implies text_lt(t[i], t[j]) by {
                assert(t[i] == q[i + 1] && t[j] == q[j + 1]);
            }
        }
        lemma_insert_text(t, x);
        let u = insert_text(t, x);
        assert(r == seq![q[0]] + u);
        assert forall|i: int, j: int| 0 <= i < j < r.len() implies text_lt(r[i], r[j]) by {
            if i == 0 {
                assert(r[j] == u[j - 1]);
                assert(u.to_set().contains(u[j - 1]));
                if u[j - 1] != x {
                    assert(t.to_set().contains(u[j - 1]));
                    let k = choose|k: int| 0 <= k < t.len() && t[k] == u[j - 1];
                    assert(q[k + 1] == u[j - 1]);
                }
            } else {
                assert(r[i] == u[i - 1] && r[j] == u[j - 1]);
            }
        }
        assert forall|y: Seq<char>| r.to_set().contains(y) <==> q.to_set().insert(x).contains(y) by {
            if r.contains(y) {
                let i = choose|i: int| 0 <= i < r.len() && r[i] == y;
                if i > 0 {
                    assert(u[i - 1] == y);
                    assert(u.to_set().contains(y));
                    if y != x {
                        assert(t.to_set().contains(y));
                        let k = choose|k: int| 0 <= k < t.len() && t[k] == y;
                        assert(q[k + 1] == y);
                    }
                }
            }
            if q.contains(y) {
                let i = choose|i: int| 0 <= i < q.len() && q[i] == y;
                if i == 0 {
                    assert(r[0] == y);
                } else {
                    assert(t[i - 1] == y);
                    assert(u.to_set().contains(y));
                    let k = choose|k: int| 0 <= k < u.len() && u[k] == y;
                    assert(r[k + 1] == y);
                }
            }
            if y == x {
                assert(u.to_set().contains(x));
                let k = choose|k: int| 0 <= k < u.len() && u[k] == x;
                assert(r[k + 1] == x);
            }
        }
        assert(r.to_set() =~= q.to_set().insert(x));
    }
}

/// Every finite set of texts has a sorted enumeration: `sorted_texts_of`
/// lists it, in increasing order.
pub proof fn lemma_sorted_texts_exist(s: Set<Seq<char>>)
    requires
        s.finite(),
    ensures
        increasing_texts(sorted_texts_of(s)),
        sorted_texts_of(s).to_set() == s,
    decreases s.len(),
{
    broadcast use vstd::set::group_set_axioms;
    if s.len() == 0 {
        let e = Seq::<Seq<char>>::empty();
        assert(s =~= Set::<Seq<char>>::empty()) by {
            if exists|y: Seq<char>| s.contains(y) {
                let y = choose|y: Seq<char>| s.contains(y);
                assert(s.remove(y).len() + 1 == s.len());
            }
        }
        assert(e.to_set() =~= s);
        assert(increasing_texts(e));
    } else {
        let x = s.choose();
        let rest = s.remove(x);
        lemma_sorted_texts_exist(rest);
        let q = sorted_texts_of(rest);
        assert(!q.contains(x)) by {
            if q.contains(x) {
                assert(q.to_set().contains(x));
            }
        }
        lemma_insert_text(q, x);
        assert(insert_text(q, x).to_set() =~= s);
        assert(increasing_texts(insert_text(q, x)) && insert_text(q, x).to_set() == s);
    }
}

} // verus!
