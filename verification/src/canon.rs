//! The canonical output: a strictly ascending, duplicate-free vector of
//! integers, built by idempotent sorted insertion, together with its set
//! model.

use vstd::prelude::*;

use crate::grammar::range_set;

verus! {

/// Strictly ascending: every element is smaller than the next, so no value
/// repeats.
pub open spec fn strictly_ascending(v: Seq<usize>) -> bool {
    forall|p: int, q: int| 0 <= p < q < v.len() ==> v[p] < v[q]
}

/// The set of values a sequence holds.
pub open spec fn elems(v: Seq<usize>) -> Set<nat> {
    Set::new(|n: nat| exists|k: int| 0 <= k < v.len() && v[k] as nat == n)
}

/// An empty sequence holds no values.
pub proof fn lemma_elems_empty()
    ensures
        elems(Seq::<usize>::empty()) =~= Set::<nat>::empty(),
{
}

/// Inserts `v` at its sorted position, or leaves the vector unchanged where
/// `v` already stands in it: the set of values grows by `v` and nothing else,
/// and the vector stays strictly ascending.
pub fn insert_sorted(out: &mut Vec<usize>, v: usize)
    requires
        strictly_ascending(old(out)@),
    ensures
        strictly_ascending(final(out)@),
        elems(final(out)@) == elems(old(out)@).insert(v as nat),
{
    let mut p: usize = 0;
    while p < out.len() && out[p] < v
        invariant
            p <= out@.len(),
            strictly_ascending(out@),
            out@ == old(out)@,
            forall|k: int| 0 <= k < p ==> out@[k] < v,
        decreases out@.len() - p,
    {
        p = p + 1;
    }
    if p < out.len() && out[p] == v {
        proof {
            assert(out@[p as int] as nat == v as nat);
            assert(elems(out@).contains(v as nat));
            assert(elems(out@) =~= elems(old(out)@).insert(v as nat));
        }
        return ;
    }
    proof {
        assert forall|k: int| p <= k < out@.len() implies out@[k] > v by {
            if k > p {
                assert(out@[p as int] < out@[k]);
            }
        }
    }
    out.insert(p, v);
    proof {
        let pre = old(out)@;
        let post = out@;
        pre.insert_ensures(p as int, v);
        assert(post == pre.insert(p as int, v));
        assert forall|a: int, b: int| 0 <= a < b < post.len() implies post[a] < post[b] by {
            if a > p {
                assert(post[a] == pre[a - 1]);
            }
            if b > p {
                assert(post[b] == pre[b - 1]);
            }
        }
        assert forall|n: nat| elems(post).contains(n) implies elems(pre).insert(
            v as nat,
        ).contains(n) by {
            let k = choose|k: int| 0 <= k < post.len() && post[k] as nat == n;
            if k < p {
                assert(pre[k] as nat == n);
            } else if k > p {
                assert(pre[k - 1] as nat == n);
            }
        }
        assert forall|n: nat| elems(pre).insert(v as nat).contains(n) implies elems(
            post,
        ).contains(n) by {
            if n == v as nat {
                assert(post[p as int] as nat == n);
            } else {
                let k = choose|k: int| 0 <= k < pre.len() && pre[k] as nat == n;
                if k < p {
                    assert(post[k] as nat == n);
                } else {
                    assert(post[k + 1] as nat == n);
                }
            }
        }
        assert(elems(post) =~= elems(pre).insert(v as nat));
    }
}

/// Two strictly ascending sequences with the same set of values are the same
/// sequence: the canonical form of a set is unique.
pub proof fn lemma_ascending_unique(v: Seq<usize>, w: Seq<usize>)
    requires
        strictly_ascending(v),
        strictly_ascending(w),
        elems(v) == elems(w),
    ensures
        v == w,
    decreases v.len(),
{
    if v.len() == 0 {
        if w.len() > 0 {
            assert(elems(w).contains(w[0] as nat));
            assert(false);
        }
        assert(v =~= w);
    } else if w.len() == 0 {
        assert(elems(v).contains(v[0] as nat));
        assert(false);
    } else {
        assert(elems(v).contains(v[0] as nat));
        assert(elems(w).contains(w[0] as nat));
        let kv = choose|k: int| 0 <= k < w.len() && w[k] as nat == v[0] as nat;
        let kw = choose|k: int| 0 <= k < v.len() && v[k] as nat == w[0] as nat;
        assert(w[kv] as nat == v[0] as nat && 0 <= kv < w.len());
        assert(v[kw] as nat == w[0] as nat && 0 <= kw < v.len());
        assert(kv > 0 ==> w[0] < w[kv]);
        assert(kw > 0 ==> v[0] < v[kw]);
        assert(v[0] == w[0]);
        let v2 = v.drop_first();
        let w2 = w.drop_first();
        assert forall|p: int, q: int| 0 <= p < q < v2.len() implies v2[p] < v2[q] by {
            assert(v2[p] == v[p + 1] && v2[q] == v[q + 1]);
        }
        assert forall|p: int, q: int| 0 <= p < q < w2.len() implies w2[p] < w2[q] by {
            assert(w2[p] == w[p + 1] && w2[q] == w[q + 1]);
        }
        assert forall|n: nat| elems(v2).contains(n) implies elems(w2).contains(n) by {
            let k = choose|k: int| 0 <= k < v2.len() && v2[k] as nat == n;
            assert(v[k + 1] as nat == n);
            assert(elems(v).contains(n));
            let m = choose|m: int| 0 <= m < w.len() && w[m] as nat == n;
            assert(v[0] < v[k + 1]);
            assert(m > 0);
            assert(w2[m - 1] as nat == n);
        }
        assert forall|n: nat| elems(w2).contains(n) implies elems(v2).contains(n) by {
            let k = choose|k: int| 0 <= k < w2.len() && w2[k] as nat == n;
            assert(w[k + 1] as nat == n);
            assert(elems(w).contains(n));
            let m = choose|m: int| 0 <= m < v.len() && v[m] as nat == n;
            assert(w[0] < w[k + 1]);
            assert(m > 0);
            assert(v2[m - 1] as nat == n);
        }
        assert(elems(v2) =~= elems(w2));
        lemma_ascending_unique(v2, w2);
        assert forall|k: int| 0 <= k < v.len() implies v[k] == w[k] by {
            if k > 0 {
                assert(v[k] == v2[k - 1] && w[k] == w2[k - 1]);
            }
        }
        assert(v =~= w);
    }
}

/// Inserts every integer from `lo` to `hi`, both ends included; when
/// `lo > hi` the range is empty and nothing is inserted.
pub fn insert_range(out: &mut Vec<usize>, lo: usize, hi: usize)
    requires
        strictly_ascending(old(out)@),
    ensures
        strictly_ascending(final(out)@),
        elems(final(out)@) == elems(old(out)@).union(range_set(lo as int, hi as int)),
{
    if lo > hi {
        proof {
            assert(range_set(lo as int, hi as int) =~= Set::<nat>::empty());
            assert(elems(out@) =~= elems(old(out)@).union(range_set(lo as int, hi as int)));
        }
        return ;
    }
    let mut x: usize = lo;
    loop
        invariant_except_break
            lo <= x <= hi,
            strictly_ascending(out@),
            elems(out@) == elems(old(out)@).union(range_set(lo as int, x as int - 1)),
        ensures
            strictly_ascending(out@),
            elems(out@) == elems(old(out)@).union(range_set(lo as int, hi as int)),
        decreases hi - x,
    {
        insert_sorted(out, x);
        proof {
            assert(range_set(lo as int, x as int - 1).insert(x as nat) =~= range_set(
                lo as int,
                x as int,
            ));
            assert(elems(out@) =~= elems(old(out)@).union(range_set(lo as int, x as int)));
        }
        if x == hi {
            break ;
        }
        x = x + 1;
    }
}

} // verus!
