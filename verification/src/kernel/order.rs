//! Putting sets of ids in ascending order, so that everything the kernel does
//! with the ids of a set happens in one definite order.
use vstd::prelude::*;

verus! {

/// The sequence is strictly increasing.
pub open spec fn increasing(s: Seq<usize>) -> bool {
    forall|i: int, j: int| 0 <= i < j < s.len() ==> s[i] < s[j]
}

/// The elements of a finite set in ascending order.
pub open spec fn sorted_of(s: Set<usize>) -> Seq<usize> {
    choose|q: Seq<usize>| increasing(q) && q.to_set() == s
}

/// Two increasing sequences with the same elements are the same sequence.
pub proof fn lemma_increasing_unique(a: Seq<usize>, b: Seq<usize>)
    requires
        increasing(a),
        increasing(b),
        a.to_set() == b.to_set(),
    ensures
        a == b,
    decreases a.len(),
{
    if a.len() == 0 {
        if b.len() > 0 {
            assert(b.to_set().contains(b[0]));
        }
        assert(a =~= b);
    } else {
        assert(a.to_set().contains(a[0]));
        assert(b.len() > 0) by {
            assert(b.to_set().contains(a[0]));
        }
        assert(b.to_set().contains(b[0]));
        assert(a[0] == b[0]) by {
            let i = choose|i: int| 0 <= i < a.len() && a[i] == b[0];
            let j = choose|j: int| 0 <= j < b.len() && b[j] == a[0];
            assert(a.contains(b[0]));
            assert(b.contains(a[0]));
        }
        let ra = a.drop_first();
        let rb = b.drop_first();
        assert(ra.to_set() =~= rb.to_set()) by {
            assert forall|x: usize| ra.to_set().contains(x) implies rb.to_set().contains(x) by {
                let i = choose|i: int| 0 <= i < ra.len() && ra[i] == x;
                assert(a[i + 1] == x);
                assert(b.to_set().contains(x));
                let j = choose|j: int| 0 <= j < b.len() && b[j] == x;
                if j == 0 {
                    assert(a[0] < a[i + 1]);
                }
                assert(rb[j - 1] == x);
            }
            assert forall|x: usize| rb.to_set().contains(x) implies ra.to_set().contains(x) by {
                let j = choose|j: int| 0 <= j < rb.len() && rb[j] == x;
                assert(b[j + 1] == x);
                assert(a.to_set().contains(x));
                let i = choose|i: int| 0 <= i < a.len() && a[i] == x;
                if i == 0 {
                    assert(b[0] < b[j + 1]);
                }
                assert(ra[i - 1] == x);
            }
        }
        lemma_increasing_unique(ra, rb);
        assert(a =~= b) by {
            assert forall|k: int| 0 <= k < a.len() implies a[k] == b[k] by {
                if k > 0 {
                    assert(a[k] == ra[k - 1]);
                    assert(b[k] == rb[k - 1]);
                }
            }
        }
    }
}

/// An increasing sequence is the ascending order of its elements.
pub proof fn lemma_sorted_of(q: Seq<usize>)
    requires
        increasing(q),
    ensures
        sorted_of(q.to_set()) == q,
{
    let s = q.to_set();
    assert(exists|r: Seq<usize>| increasing(r) && r.to_set() == s);
    let r = sorted_of(s);
    lemma_increasing_unique(r, q);
}

/// The ids of `v` in ascending order.
pub fn sort_ids(v: Vec<usize>) -> (res: Vec<usize>)
    requires
        v@.no_duplicates(),
    ensures
        increasing(res@),
        res@.to_set() == v@.to_set(),
        res@ == sorted_of(v@.to_set()),
{
    let mut out: Vec<usize> = Vec::new();
    let mut i: usize = 0;
    while i < v.len()
        invariant
            i <= v@.len(),
            v@.no_duplicates(),
            increasing(out@),
            out@.to_set() == v@.take(i as int).to_set(),
        decreases v@.len() - i,
    {
        let x = v[i];
        assert(!out@.contains(x)) by {
            if out@.contains(x) {
                assert(out@.to_set().contains(x));
                let k = choose|k: int| 0 <= k < i && v@.take(i as int)[k] == x;
                assert(v@[k] == v@[i as int]);
            }
        }
        let mut p: usize = 0;
        while p < out.len() && out[p] < x
            invariant
                p <= out@.len(),
                forall|q: int| 0 <= q < p ==> out@[q] < x,
            decreases out@.len() - p,
        {
            p = p + 1;
        }
        let ghost before = out@;
        out.insert(p, x);
        proof {
            assert(p < before.len() ==> before[p as int] != x);
            assert(increasing(out@)) by {
                assert forall|a: int, b: int| 0 <= a < b < out@.len() implies out@[a] < out@[b] by {
                    if b < p {
                    } else if b == p {
                    } else if a < p {
                        if p < before.len() {
                            assert(before[a] < before[p as int]);
                        }
                        assert(out@[b] == before[b - 1]);
                        if a < b - 1 {
                            assert(before[a] < before[b - 1]);
                        }
                    } else if a == p {
                        assert(out@[b] == before[b - 1]);
                        if p < b - 1 {
                            assert(before[p as int] < before[b - 1]);
                        }
                    } else {
                        assert(before[a - 1] < before[b - 1]);
                    }
                }
            }
            assert(out@.to_set() =~= v@.take(i + 1).to_set()) by {
                assert(v@.take(i + 1) =~= v@.take(i as int).push(x));
                assert forall|y: usize| out@.to_set().contains(y) implies v@.take(i
                    + 1).to_set().contains(y) by {
                    let k = choose|k: int| 0 <= k < out@.len() && out@[k] == y;
                    if k == p {
                        assert(v@.take(i + 1)[i as int] == y);
                    } else if k < p {
                        assert(before.to_set().contains(y));
                        let m = choose|m: int| 0 <= m < i && v@.take(i as int)[m] == y;
                        assert(v@.take(i + 1)[m] == y);
                    } else {
                        assert(before[k - 1] == y);
                        assert(before.to_set().contains(y));
                        let m = choose|m: int| 0 <= m < i && v@.take(i as int)[m] == y;
                        assert(v@.take(i + 1)[m] == y);
                    }
                }
                assert forall|y: usize| v@.take(i + 1).to_set().contains(y) implies out@.to_set().contains(y) by {
                    let t1 = v@.take(i + 1);
                        let m = choose|m: int| 0 <= m < t1.len() && t1[m] == y;
                    if m == i {
                        assert(out@[p as int] == y);
                    } else {
                        assert(v@.take(i as int)[m] == y);
                        assert(v@.take(i as int).to_set().contains(y));
                        assert(before.to_set().contains(y));
                        let k = choose|k: int| 0 <= k < before.len() && before[k] == y;
                        if k < p {
                            assert(out@[k] == y);
                        } else {
                            assert(out@[k + 1] == y);
                        }
                    }
                }
            }
        }
        i = i + 1;
    }
    proof {
        assert(v@.take(v@.len() as int) =~= v@);
        lemma_sorted_of(out@);
    }
    out
}

} // verus!

verus! {

/// `x` put into the increasing sequence `q` at its place.
pub open spec fn insert_sorted(q: Seq<usize>, x: usize) -> Seq<usize>
    decreases q.len(),
{
    if q.len() == 0 {
        seq![x]
    } else if x < q[0] {
        seq![x] + q
    } else {
        seq![q[0]] + insert_sorted(q.drop_first(), x)
    }
}

proof fn lemma_insert_sorted(q: Seq<usize>, x: usize)
    requires
        increasing(q),
        !q.contains(x),
    ensures
        increasing(insert_sorted(q, x)),
        forall|a: usize| #[trigger] insert_sorted(q, x).contains(a) <==> q.contains(a) || a == x,
    decreases q.len(),
{
    let r = insert_sorted(q, x);
    if q.len() == 0 {
        assert forall|a: usize| #[trigger] r.contains(a) <==> q.contains(a) || a == x by {
            if r.contains(a) {
                assert(r[0] == a);
            }
            if a == x {
                assert(r[0] == x);
            }
        }
    } else if x < q[0] {
        assert forall|a: usize| #[trigger] r.contains(a) <==> q.contains(a) || a == x by {
            if r.contains(a) {
                let i = choose|i: int| 0 <= i < r.len() && r[i] == a;
                if i > 0 {
                    assert(q[i - 1] == a);
                }
            }
            if q.contains(a) {
                let i = choose|i: int| 0 <= i < q.len() && q[i] == a;
                assert(r[i + 1] == a);
            }
            if a == x {
                assert(r[0] == a);
            }
        }
        assert forall|i: int, j: int| 0 <= i < j < r.len() implies r[i] < r[j] by {
            if i == 0 {
                assert(r[j] == q[j - 1]);
                if j > 1 {
                    assert(q[0] < q[j - 1]);
                }
            } else {
                assert(r[i] == q[i - 1] && r[j] == q[j - 1]);
            }
        }
    } else {
        let t = q.drop_first();
        assert forall|i: int, j: int| 0 <= i < j < t.len() implies t[i] < t[j] by {
            assert(t[i] == q[i + 1] && t[j] == q[j + 1]);
        }
        assert(!t.contains(x)) by {
            if t.contains(x) {
                let i = choose|i: int| 0 <= i < t.len() && t[i] == x;
                assert(q[i + 1] == x);
            }
        }
        lemma_insert_sorted(t, x);
        let rt = insert_sorted(t, x);
        assert(q[0] != x) by {
            assert(q.contains(q[0]));
        }
        assert forall|a: usize| #[trigger] r.contains(a) <==> q.contains(a) || a == x by {
            if r.contains(a) {
                let i = choose|i: int| 0 <= i < r.len() && r[i] == a;
                if i > 0 {
                    assert(rt[i - 1] == a);
                    assert(rt.contains(a));
                    if t.contains(a) {
                        let j = choose|j: int| 0 <= j < t.len() && t[j] == a;
                        assert(q[j + 1] == a);
                    }
                } else {
                    assert(q[0] == a);
                }
            }
            if q.contains(a) {
                let i = choose|i: int| 0 <= i < q.len() && q[i] == a;
                if i == 0 {
                    assert(r[0] == a);
                } else {
                    assert(t[i - 1] == a);
                    assert(rt.contains(a));
                    let j = choose|j: int| 0 <= j < rt.len() && rt[j] == a;
                    assert(r[j + 1] == a);
                }
            }
            if a == x {
                assert(rt.contains(x));
                let j = choose|j: int| 0 <= j < rt.len() && rt[j] == x;
                assert(r[j + 1] == a);
            }
        }
        assert forall|i: int, j: int| 0 <= i < j < r.len() implies r[i] < r[j] by {
            if i == 0 {
                assert(r[j] == rt[j - 1]);
                assert(rt.contains(rt[j - 1]));
                if t.contains(rt[j - 1]) {
                    let k = choose|k: int| 0 <= k < t.len() && t[k] == rt[j - 1];
                    assert(q[0] < q[k + 1]);
                }
            } else {
                assert(r[i] == rt[i - 1] && r[j] == rt[j - 1]);
            }
        }
    }
}

/// Every finite set of ids has an ascending order.
pub proof fn lemma_sorted_of_finite(s: Set<usize>)
    requires
        s.finite(),
    ensures
        increasing(sorted_of(s)),
        sorted_of(s).to_set() == s,
    decreases s.len(),
{
    if s.len() == 0 {
        assert(s =~= Set::<usize>::empty());
        let q = Seq::<usize>::empty();
        assert(q.to_set() =~= s);
        lemma_sorted_of(q);
    } else {
        let x = s.choose();
        let s1 = s.remove(x);
        lemma_sorted_of_finite(s1);
        let q = sorted_of(s1);
        assert(!q.contains(x)) by {
            assert(!q.to_set().contains(x));
        }
        lemma_insert_sorted(q, x);
        let r = insert_sorted(q, x);
        assert forall|a: usize| r.to_set().contains(a) <==> s.contains(a) by {
            assert(q.to_set().contains(a) == q.contains(a));
        }
        assert(r.to_set() =~= s);
        lemma_sorted_of(r);
    }
}

} // verus!
