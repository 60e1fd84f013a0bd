//! Canonical orders: positions sorted by a distinct pair of integer keys.

use vstd::prelude::*;
use crate::graph::{num_false, lemma_num_false_update};

verus! {

/// Lexicographic order on pairs of integers.
pub open spec fn pair_lt(a: (u128, u128), b: (u128, u128)) -> bool {
    a.0 < b.0 || (a.0 == b.0 && a.1 < b.1)
}

/// `o` lists every position below `n` exactly once.
pub open spec fn is_order(o: Seq<usize>, n: nat) -> bool {
    &&& o.len() == n
    &&& o.no_duplicates()
    &&& forall|k: int| 0 <= k < o.len() ==> #[trigger] o[k] < n
    &&& forall|j: usize| j < n ==> #[trigger] o.contains(j)
}

/// `o` is an order of the positions of `keys` along which the keys increase
/// strictly.
pub open spec fn sorts(keys: Seq<(u128, u128)>, o: Seq<usize>) -> bool {
    &&& is_order(o, keys.len())
    &&& forall|a: int, b: int| 0 <= a < b < o.len() ==> pair_lt(keys[#[trigger] o[a] as int], keys[#[trigger] o[b] as int])
}

/// The keys are pairwise distinct.
pub open spec fn distinct_keys(keys: Seq<(u128, u128)>) -> bool {
    forall|i: int, j: int| 0 <= i < keys.len() && 0 <= j < keys.len() && i != j ==> #[trigger] keys[i] != #[trigger] keys[j]
}

/// The positions of `keys` in increasing order of their keys.
pub fn sorted_order(keys: &[(u128, u128)]) -> (o: Vec<usize>)
    requires
        distinct_keys(keys@),
    ensures
        sorts(keys@, o@),
{
    let n = keys.len();
    let mut picked: Vec<bool> = Vec::new();
    let mut x: usize = 0;
    while x < n
        invariant
            x <= n,
            picked@.len() == x,
            forall|y: int| 0 <= y < x ==> !picked@[y],
        decreases n - x,
    {
        picked.push(false);
        x = x + 1;
    }
    let mut o: Vec<usize> = Vec::new();
    loop
        invariant
            n == keys@.len(),
            distinct_keys(keys@),
            picked@.len() == n,
            o@.no_duplicates(),
            forall|k: int| 0 <= k < o@.len() ==> #[trigger] o@[k] < n,
            forall|j: int| 0 <= j < n ==> (picked@[j] <==> o@.contains(j as usize)),
            forall|a: int, b: int| 0 <= a < b < o@.len() ==> pair_lt(keys@[#[trigger] o@[a] as int], keys@[#[trigger] o@[b] as int]),
            forall|a: int, j: int| 0 <= a < o@.len() && 0 <= j < n && !picked@[j] ==> pair_lt(keys@[#[trigger] o@[a] as int], #[trigger] keys@[j]),
        ensures
            forall|y: int| 0 <= y < n ==> picked@[y],
        decreases num_false(picked@),
    {
        let mut best: usize = n;
        let mut j: usize = 0;
        while j < n
            invariant
                n == keys@.len(),
                picked@.len() == n,
                j <= n,
                best == n || (best < j && !picked@[best as int]),
                forall|y: int| 0 <= y < j && !#[trigger] picked@[y] ==> best < n && (y == best || pair_lt(keys@[best as int], keys@[y])),
                distinct_keys(keys@),
            decreases n - j,
        {
            let ghost best0 = best;
            if !picked[j] {
                if best == n || keys[j].0 < keys[best].0 || (keys[j].0 == keys[best].0 && keys[j].1 < keys[best].1) {
                    best = j;
                } else {
                    proof {
                        assert(keys@[j as int] != keys@[best as int]);
                    }
                }
            }
            proof {
                assert forall|y: int| 0 <= y < j + 1 && !#[trigger] picked@[y] implies best < n && (y == best || pair_lt(keys@[best as int], keys@[y])) by {
                    if y < j {
                        assert(best0 < n && (y == best0 || pair_lt(keys@[best0 as int], keys@[y])));
                    }
                }
            }
            j = j + 1;
        }
        if best == n {
            proof {
                assert forall|y: int| 0 <= y < n implies picked@[y] by {
                    if !picked@[y] {
                        assert(best < n);
                    }
                }
            }
            break;
        }
        let ghost o0 = o@;
        let ghost p0 = picked@;
        proof {
            lemma_num_false_update(p0, best as int);
        }
        o.push(best);
        picked.set(best, true);
        proof {
            assert(!o0.contains(best));
            assert forall|a: int, b: int| 0 <= a < o@.len() && 0 <= b < o@.len() && a != b implies o@[a] != o@[b] by {
                if a < o0.len() && b < o0.len() {
                    assert(o@[a] == o0[a] && o@[b] == o0[b]);
                } else if a < o0.len() {
                    assert(o@[a] == o0[a]);
                    assert(o0.contains(o0[a]));
                } else if b < o0.len() {
                    assert(o@[b] == o0[b]);
                    assert(o0.contains(o0[b]));
                }
            }
            assert forall|y: int| 0 <= y < n implies (picked@[y] <==> o@.contains(y as usize)) by {
                if o@.contains(y as usize) {
                    let k = choose|k: int| 0 <= k < o@.len() && o@[k] == y as usize;
                    if k < o0.len() {
                        assert(o0[k] == y as usize);
                        assert(o0.contains(y as usize));
                    }
                }
                if picked@[y] && y != best as int {
                    assert(o0.contains(y as usize));
                    let k = choose|k: int| 0 <= k < o0.len() && o0[k] == y as usize;
                    assert(o@[k] == y as usize);
                }
                if y == best as int {
                    assert(o@[o0.len() as int] == best);
                }
            }
            assert forall|a: int, b: int| 0 <= a < b < o@.len() implies pair_lt(keys@[#[trigger] o@[a] as int], keys@[#[trigger] o@[b] as int]) by {
                if b < o0.len() {
                    assert(o@[a] == o0[a] && o@[b] == o0[b]);
                } else {
                    assert(o@[a] == o0[a]);
                    assert(o@[b] == best);
                }
            }
            assert forall|a: int, y: int| 0 <= a < o@.len() && 0 <= y < n && !picked@[y] implies pair_lt(keys@[#[trigger] o@[a] as int], #[trigger] keys@[y]) by {
                assert(!p0[y]);
                assert(y != best as int);
                if a < o0.len() {
                    assert(o@[a] == o0[a]);
                } else {
                    assert(o@[a] == best);
                }
            }
        }
    }
    proof {
        assert forall|y: usize| y < n implies #[trigger] o@.contains(y) by {
            assert(picked@[y as int]);
        }
        lemma_order_len(o@, n as nat);
    }
    o
}

/// A duplicate-free list of positions below `n` that holds all of them has
/// length `n`.
proof fn lemma_order_len(o: Seq<usize>, n: nat)
    requires
        n <= usize::MAX + 1,
        o.no_duplicates(),
        forall|k: int| 0 <= k < o.len() ==> #[trigger] o[k] < n,
        forall|j: usize| j < n ==> #[trigger] o.contains(j),
    ensures
        o.len() == n,
{
    let full = Set::new(|x: usize| x < n);
    assert(o.to_set() =~= full) by {
        assert forall|x: usize| full.contains(x) implies o.to_set().contains(x) by {
            assert(o.contains(x));
        }
    }
    o.unique_seq_to_set();
    lemma_usize_range_len(n);
}

/// The set of the `n` smallest `usize` values has `n` elements.
proof fn lemma_usize_range_len(n: nat)
    requires
        n <= usize::MAX + 1,
    ensures
        Set::new(|x: usize| x < n).finite(),
        Set::new(|x: usize| x < n).len() == n,
    decreases n,
{
    if n == 0 {
        assert(Set::new(|x: usize| x < n) =~= Set::<usize>::empty());
    } else {
        lemma_usize_range_len((n - 1) as nat);
        let m = (n - 1) as usize;
        assert(Set::new(|x: usize| x < n) =~= Set::new(|x: usize| x < (n - 1) as nat).insert(m));
    }
}

/// Two lists whose keys increase strictly along them and that hold the same
/// elements are equal.
pub proof fn lemma_sorted_unique<T>(a: Seq<T>, b: Seq<T>, key: spec_fn(T) -> (u128, u128))
    requires
        forall|i: int, j: int| 0 <= i < j < a.len() ==> pair_lt(key(#[trigger] a[i]), key(#[trigger] a[j])),
        forall|i: int, j: int| 0 <= i < j < b.len() ==> pair_lt(key(#[trigger] b[i]), key(#[trigger] b[j])),
        forall|x: T| a.contains(x) <==> b.contains(x),
    ensures
        a == b,
    decreases a.len(),
{
    if a.len() == 0 {
        if b.len() > 0 {
            assert(b.contains(b[0]));
        }
        assert(a =~= b);
    } else {
        if b.len() == 0 {
            assert(a.contains(a[0]));
        }
        assert(a.contains(a[0]));
        assert(b.contains(b[0]));
        let j = choose|j: int| 0 <= j < b.len() && b[j] == a[0];
        let i = choose|i: int| 0 <= i < a.len() && a[i] == b[0];
        if j > 0 {
            if i > 0 {
                assert(pair_lt(key(b[0]), key(b[j])));
                assert(pair_lt(key(a[0]), key(a[i])));
            } else {
                assert(pair_lt(key(b[0]), key(b[j])));
            }
        }
        assert(a[0] == b[0]);
        let ta = a.drop_first();
        let tb = b.drop_first();
        assert forall|x: T| ta.contains(x) <==> tb.contains(x) by {
            if ta.contains(x) {
                let k = choose|k: int| 0 <= k < ta.len() && ta[k] == x;
                assert(a[k + 1] == x);
                assert(pair_lt(key(a[0]), key(a[k + 1])));
                assert(b.contains(x));
                let m = choose|m: int| 0 <= m < b.len() && b[m] == x;
                if m == 0 {
                    assert(x == a[0]);
                }
                assert(tb[m - 1] == x);
            }
            if tb.contains(x) {
                let k = choose|k: int| 0 <= k < tb.len() && tb[k] == x;
                assert(b[k + 1] == x);
                assert(pair_lt(key(b[0]), key(b[k + 1])));
                assert(a.contains(x));
                let m = choose|m: int| 0 <= m < a.len() && a[m] == x;
                if m == 0 {
                    assert(x == b[0]);
                }
                assert(ta[m - 1] == x);
            }
        }
        assert forall|p: int, q: int| 0 <= p < q < ta.len() implies pair_lt(key(#[trigger] ta[p]), key(#[trigger] ta[q])) by {
            assert(ta[p] == a[p + 1] && ta[q] == a[q + 1]);
        }
        assert forall|p: int, q: int| 0 <= p < q < tb.len() implies pair_lt(key(#[trigger] tb[p]), key(#[trigger] tb[q])) by {
            assert(tb[p] == b[p + 1] && tb[q] == b[q + 1]);
        }
        lemma_sorted_unique(ta, tb, key);
        assert(a =~= seq![a[0]] + ta);
        assert(b =~= seq![b[0]] + tb);
    }
}

} // verus!
