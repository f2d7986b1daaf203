use vstd::prelude::*;

verus! {

/// A total preorder on a type, with an executable test for it.
pub trait TotalPreorder: Sized {
    spec fn le_spec(&self, other: &Self) -> bool;

    fn le(&self, other: &Self) -> (r: bool)
        ensures
            r == self.le_spec(other),
    ;

    proof fn lemma_le_total(a: &Self, b: &Self)
        ensures
            a.le_spec(b) || b.le_spec(a),
    ;

    proof fn lemma_le_trans(a: &Self, b: &Self, c: &Self)
        requires
            a.le_spec(b),
            b.le_spec(c),
        ensures
            a.le_spec(c),
    ;
}

/// Every element is in order with every later one.
pub open spec fn sorted_by_le<T: TotalPreorder>(s: Seq<T>) -> bool {
    forall|i: int, j: int| 0 <= i < j < s.len() ==> #[trigger] s[i].le_spec(&#[trigger] s[j])
}

/// `p` maps each position of `r` to a distinct position of `s` that holds the same element.
pub open spec fn permutation_witness<T>(r: Seq<T>, s: Seq<T>, p: Seq<int>) -> bool {
    &&& r.len() == s.len()
    &&& p.len() == r.len()
    &&& forall|k: int| 0 <= k < p.len() ==> 0 <= #[trigger] p[k] < s.len()
    &&& forall|k: int| 0 <= k < r.len() ==> #[trigger] r[k] == s[p[k]]
    &&& forall|k1: int, k2: int|
        0 <= k1 < p.len() && 0 <= k2 < p.len() && k1 != k2 ==> #[trigger] p[k1] != #[trigger] p[k2]
}

/// `r` holds the elements of `s`, each as often, in some order.
pub open spec fn is_permutation<T>(r: Seq<T>, s: Seq<T>) -> bool {
    exists|p: Seq<int>| permutation_witness(r, s, p)
}

/// A permutation has the same elements as the sequence it permutes.
pub proof fn lemma_permutation_elements<T>(r: Seq<T>, s: Seq<T>)
    requires
        is_permutation(r, s),
    ensures
        r.len() == s.len(),
        forall|k: int| 0 <= k < r.len() ==> s.contains(#[trigger] r[k]),
        forall|m: int| 0 <= m < s.len() ==> r.contains(#[trigger] s[m]),
{
    let p = choose|p: Seq<int>| permutation_witness(r, s, p);
    assert forall|k: int| 0 <= k < r.len() implies s.contains(#[trigger] r[k]) by {
        assert(s[p[k]] == r[k]);
    }
    assert forall|m: int| 0 <= m < s.len() implies r.contains(#[trigger] s[m]) by {
        lemma_injection_onto(p, s.len() as int, m);
        let k = choose|k: int| 0 <= k < p.len() && p[k] == m;
        assert(r[k] == s[m]);
    }
}

/// An injective map from `[0, n)` into `[0, n)` reaches every value.
pub proof fn lemma_injection_onto(p: Seq<int>, n: int, m: int)
    requires
        p.len() == n,
        0 <= m < n,
        forall|k: int| 0 <= k < p.len() ==> 0 <= #[trigger] p[k] < n,
        forall|k1: int, k2: int|
            0 <= k1 < p.len() && 0 <= k2 < p.len() && k1 != k2 ==> #[trigger] p[k1] != #[trigger] p[k2],
    ensures
        exists|k: int| 0 <= k < p.len() && p[k] == m,
    decreases n,
{
    if !(exists|k: int| 0 <= k < p.len() && p[k] == m) {
        // p maps [0, n) injectively into [0, n) \ {m}; shrink and derive a contradiction
        let q = Seq::new(p.len(), |k: int| if p[k] == n - 1 { m } else { p[k] });
        assert forall|k: int| 0 <= k < q.len() implies 0 <= #[trigger] q[k] < n - 1 by {
            if p[k] != n - 1 {
                assert(p[k] != m);
            } else if m == n - 1 {
                assert(p[k] == m);
            }
        }
        assert forall|k1: int, k2: int|
            0 <= k1 < q.len() && 0 <= k2 < q.len() && k1 != k2 implies #[trigger] q[k1]
            != #[trigger] q[k2] by {
            assert(p[k1] != p[k2]);
            if p[k1] == n - 1 {
                assert(p[k2] != m);
            }
            if p[k2] == n - 1 {
                assert(p[k1] != m);
            }
        }
        lemma_injection_bound(q, n - 1);
    }
}

/// An injective map into `[0, m)` has at most `m` positions.
pub proof fn lemma_injection_bound(q: Seq<int>, m: int)
    requires
        m >= 0,
        forall|k: int| 0 <= k < q.len() ==> 0 <= #[trigger] q[k] < m,
        forall|k1: int, k2: int|
            0 <= k1 < q.len() && 0 <= k2 < q.len() && k1 != k2 ==> #[trigger] q[k1] != #[trigger] q[k2],
    ensures
        q.len() <= m,
    decreases m,
{
    if m == 0 {
        if q.len() > 0 {
            assert(0 <= q[0] < m);
        }
    } else if exists|k: int| 0 <= k < q.len() && q[k] == m - 1 {
        let k0 = choose|k: int| 0 <= k < q.len() && q[k] == m - 1;
        let r = q.remove(k0);
        assert forall|k: int| 0 <= k < r.len() implies 0 <= #[trigger] r[k] < m - 1 by {
            if k < k0 {
                assert(r[k] == q[k]);
                assert(q[k] != q[k0]);
            } else {
                assert(r[k] == q[k + 1]);
                assert(q[k + 1] != q[k0]);
            }
        }
        assert forall|k1: int, k2: int|
            0 <= k1 < r.len() && 0 <= k2 < r.len() && k1 != k2 implies #[trigger] r[k1]
            != #[trigger] r[k2] by {
            let a = if k1 < k0 {
                k1
            } else {
                k1 + 1
            };
            let b = if k2 < k0 {
                k2
            } else {
                k2 + 1
            };
            assert(r[k1] == q[a]);
            assert(r[k2] == q[b]);
        }
        lemma_injection_bound(r, m - 1);
    } else {
        assert forall|k: int| 0 <= k < q.len() implies 0 <= #[trigger] q[k] < m - 1 by {
            assert(q[k] != m - 1);
        }
        lemma_injection_bound(q, m - 1);
    }
}

/// Sorts `v` by the order of `T`.
pub fn sort_by_le<T: TotalPreorder>(v: Vec<T>) -> (r: Vec<T>)
    ensures
        sorted_by_le(r@),
        is_permutation(r@, v@),
{
    let ghost s = v@;
    let mut v = v;
    let mut out: Vec<T> = Vec::new();
    let ghost mut p: Seq<int> = Seq::empty();
    while v.len() > 0
        invariant
            v@ == s.take(v@.len() as int),
            v@.len() <= s.len(),
            out@.len() + v@.len() == s.len(),
            sorted_by_le(out@),
            p.len() == out@.len(),
            forall|k: int| 0 <= k < p.len() ==> v@.len() <= #[trigger] p[k] < s.len(),
            forall|k: int| 0 <= k < out@.len() ==> #[trigger] out@[k] == s[p[k]],
            forall|k1: int, k2: int|
                0 <= k1 < p.len() && 0 <= k2 < p.len() && k1 != k2 ==> #[trigger] p[k1]
                    != #[trigger] p[k2],
        decreases v@.len(),
    {
        let x = v.pop().unwrap();
        let ghost xi = v@.len() as int;
        assert(x == s[xi]);
        let mut j: usize = 0;
        while j < out.len() && out[j].le(&x)
            invariant
                j <= out@.len(),
                forall|k: int| 0 <= k < j ==> #[trigger] out@[k].le_spec(&x),
            decreases out@.len() - j,
        {
            j += 1;
        }
        let ghost old_out = out@;
        proof {
            if j < old_out.len() {
                assert(!old_out[j as int].le_spec(&x));
                T::lemma_le_total(&old_out[j as int], &x);
                assert forall|k: int| j <= k < old_out.len() implies #[trigger] x.le_spec(
                    &old_out[k],
                ) by {
                    if k > j {
                        assert(old_out[j as int].le_spec(&old_out[k]));
                        T::lemma_le_trans(&x, &old_out[j as int], &old_out[k]);
                    }
                }
            }
        }
        out.insert(j, x);
        proof {
            p = p.insert(j as int, xi);
            assert forall|i: int, k: int| 0 <= i < k < out@.len() implies #[trigger] out@[i].le_spec(
                &#[trigger] out@[k],
            ) by {
                if i < j && k < j {
                    assert(old_out[i].le_spec(&old_out[k]));
                } else if i < j && k == j {
                } else if i < j && k > j {
                    assert(old_out[i].le_spec(&x));
                    assert(x.le_spec(&old_out[k - 1]));
                    T::lemma_le_trans(&old_out[i], &x, &old_out[k - 1]);
                } else if i == j {
                    assert(x.le_spec(&old_out[k - 1]));
                } else {
                    assert(old_out[i - 1].le_spec(&old_out[k - 1]));
                }
            }
            assert forall|k: int| 0 <= k < out@.len() implies #[trigger] out@[k] == s[p[k]] by {
                if k < j {
                    assert(out@[k] == old_out[k]);
                } else if k > j {
                    assert(out@[k] == old_out[k - 1]);
                }
            }
        }
    }
    proof {
        assert(permutation_witness(out@, s, p));
    }
    out
}

} // verus!
