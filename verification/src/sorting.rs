//! A stable insertion sort over two parallel slices.
//!
//! Each item travels with its key; the comparison sees both. The order is
//! only required to be antisymmetric, so the sort never fails: what it
//! guarantees is that the result is a permutation of the input, that
//! neighbours are in order, and that neighbours comparing equal keep their
//! relative order from the input.
use vstd::prelude::*;

verus! {

/// The outcome of comparing two values.
#[derive(Clone, Copy, Debug, PartialEq, Eq, Structural)]
pub enum Order {
    Less,
    Equal,
    Greater,
}

impl Order {
    /// The outcome with the two sides exchanged.
    pub open spec fn flipped(self) -> Order {
        match self {
            Order::Less => Order::Greater,
            Order::Equal => Order::Equal,
            Order::Greater => Order::Less,
        }
    }

    /// Exchanges the two sides of an outcome.
    pub fn reverse(self) -> (r: Order)
        ensures
            r == self.flipped(),
    {
        match self {
            Order::Less => Order::Greater,
            Order::Equal => Order::Equal,
            Order::Greater => Order::Less,
        }
    }
}

/// The order of two integers.
pub open spec fn int_order(a: int, b: int) -> Order {
    if a < b {
        Order::Less
    } else if a > b {
        Order::Greater
    } else {
        Order::Equal
    }
}

/// Compares two 64-bit integers.
pub fn order_i64(a: i64, b: i64) -> (r: Order)
    ensures
        r == int_order(a as int, b as int),
{
    if a < b {
        Order::Less
    } else if a > b {
        Order::Greater
    } else {
        Order::Equal
    }
}

/// Exchanging the sides of a comparison flips its outcome.
pub open spec fn antisymmetric<T, K>(f: spec_fn(T, K, T, K) -> Order) -> bool {
    forall|a: T, ka: K, b: T, kb: K| #[trigger] f(a, ka, b, kb) == f(b, kb, a, ka).flipped()
}

/// `p` is a permutation of `0..n`.
pub open spec fn is_index_permutation(p: Seq<int>, n: int) -> bool {
    &&& p.len() == n
    &&& forall|k: int| 0 <= k < n ==> 0 <= #[trigger] p[k] < n
    &&& forall|k: int, l: int| 0 <= k < n && 0 <= l < n && k != l ==> p[k] != p[l]
}

/// `items` and `keys` are `old_items` and `old_keys` rearranged by `p`.
pub open spec fn rearranged<T, K>(
    items: Seq<T>,
    keys: Seq<K>,
    old_items: Seq<T>,
    old_keys: Seq<K>,
    p: Seq<int>,
) -> bool {
    &&& items.len() == old_items.len()
    &&& keys.len() == old_keys.len()
    &&& items.len() == keys.len()
    &&& is_index_permutation(p, items.len() as int)
    &&& forall|k: int|
        0 <= k < items.len() ==> items[k] == old_items[#[trigger] p[k]] && keys[k] == old_keys[p[k]]
}

/// Positions `k` and `l` are in order, and if they compare equal the
/// earlier one came first in the input.
pub open spec fn in_order<T, K>(
    items: Seq<T>,
    keys: Seq<K>,
    p: Seq<int>,
    f: spec_fn(T, K, T, K) -> Order,
    k: int,
    l: int,
) -> bool {
    &&& f(items[k], keys[k], items[l], keys[l]) != Order::Greater
    &&& f(items[k], keys[k], items[l], keys[l]) == Order::Equal ==> p[k] < p[l]
}

/// Every pair of neighbours is in order.
pub open spec fn neighbours_in_order<T, K>(
    items: Seq<T>,
    keys: Seq<K>,
    p: Seq<int>,
    f: spec_fn(T, K, T, K) -> Order,
) -> bool {
    forall|k: int| 0 <= k && k + 1 < items.len() ==> #[trigger] in_order(items, keys, p, f, k, k + 1)
}

/// Calls `<[T]>::swap`, which exchanges two elements of a slice.
#[verifier::external_body]
fn swap_in_slice<T>(s: &mut [T], i: usize, j: usize)
    requires
        i < old(s)@.len(),
        j < old(s)@.len(),
    ensures
        final(s)@ == old(s)@.update(i as int, old(s)@[j as int]).update(j as int, old(s)@[i as int]),
{
    s.swap(i, j)
}

/// Sorts `items` and `keys` together, stably, by `compare`.
pub fn sort_paired<T, K, F>(
    items: &mut [T],
    keys: &mut [K],
    compare: F,
    Ghost(order): Ghost<spec_fn(T, K, T, K) -> Order>,
) -> (perm: Ghost<Seq<int>>)
    where
        F: Fn(&T, &K, &T, &K) -> Order,
    requires
        old(items)@.len() == old(keys)@.len(),
        antisymmetric(order),
        forall|a: &T, ka: &K, b: &T, kb: &K| #[trigger] compare.requires((a, ka, b, kb)),
        forall|a: &T, ka: &K, b: &T, kb: &K, r: Order|
            compare.ensures((a, ka, b, kb), r) ==> r == order(*a, *ka, *b, *kb),
    ensures
        rearranged(final(items)@, final(keys)@, old(items)@, old(keys)@, perm@),
        neighbours_in_order(final(items)@, final(keys)@, perm@, order),
{
    let n = items.len();
    let ghost orig_items = items@;
    let ghost orig_keys = keys@;
    let ghost mut p: Seq<int> = Seq::new(n as nat, |k: int| k);
    for i in 0..n
        invariant
            n == items@.len(),
            n == keys@.len(),
            orig_items.len() == n,
            antisymmetric(order),
            forall|a: &T, ka: &K, b: &T, kb: &K| #[trigger] compare.requires((a, ka, b, kb)),
            forall|a: &T, ka: &K, b: &T, kb: &K, r: Order|
                compare.ensures((a, ka, b, kb), r) ==> r == order(*a, *ka, *b, *kb),
            rearranged(items@, keys@, orig_items, orig_keys, p),
            forall|k: int| 0 <= k && k + 1 < i ==> #[trigger] in_order(items@, keys@, p, order, k, k + 1),
            forall|k: int| 0 <= k < i ==> #[trigger] p[k] < i,
            forall|k: int| i <= k < n ==> #[trigger] p[k] == k,
    {
        let mut j: usize = i;
        loop
            invariant_except_break
                j <= i < n,
                n == items@.len(),
                n == keys@.len(),
                antisymmetric(order),
                forall|a: &T, ka: &K, b: &T, kb: &K| #[trigger] compare.requires((a, ka, b, kb)),
                forall|a: &T, ka: &K, b: &T, kb: &K, r: Order|
                    compare.ensures((a, ka, b, kb), r) ==> r == order(*a, *ka, *b, *kb),
                rearranged(items@, keys@, orig_items, orig_keys, p),
                forall|k: int| 0 <= k && k + 1 < j ==> #[trigger] in_order(items@, keys@, p, order, k, k + 1),
                forall|k: int| j + 1 <= k && k + 1 <= i ==> #[trigger] in_order(items@, keys@, p, order, k, k + 1),
                j < i ==> order(items@[j as int], keys@[j as int], items@[j + 1], keys@[j + 1]) == Order::Less,
                0 < j < i ==> in_order(items@, keys@, p, order, j - 1, j + 1),
                p[j as int] == i,
                forall|k: int| 0 <= k <= i && k != j ==> #[trigger] p[k] < i,
                forall|k: int| i < k < n ==> #[trigger] p[k] == k,
            ensures
                n == items@.len(),
                n == keys@.len(),
                rearranged(items@, keys@, orig_items, orig_keys, p),
                forall|k: int| 0 <= k && k + 1 < i + 1 ==> #[trigger] in_order(items@, keys@, p, order, k, k + 1),
                forall|k: int| 0 <= k < i + 1 ==> #[trigger] p[k] < i + 1,
                forall|k: int| i + 1 <= k < n ==> #[trigger] p[k] == k,
            decreases j,
        {
            if j == 0 {
                proof {
                    assert forall|k: int| 0 <= k && k + 1 < i + 1 implies #[trigger] in_order(items@, keys@, p, order, k, k + 1) by {
                        if k == 0 && i > 0 {
                            let o = order(items@[1], keys@[1], items@[0], keys@[0]);
                            assert(order(items@[0], keys@[0], items@[1], keys@[1]) == o.flipped());
                        }
                    }
                }
                break;
            }
            let c = compare(&items[j - 1], &keys[j - 1], &items[j], &keys[j]);
            if c != Order::Greater {
                proof {
                    assert forall|k: int| 0 <= k && k + 1 < i + 1 implies #[trigger] in_order(items@, keys@, p, order, k, k + 1) by {
                        if k == j - 1 {
                        } else if k == j as int && j < i {
                            let o = order(items@[j + 1], keys@[j + 1], items@[j as int], keys@[j as int]);
                            assert(order(items@[j as int], keys@[j as int], items@[j + 1], keys@[j + 1]) == o.flipped());
                        }
                    }
                }
                break;
            }
            proof {
                let a = order(items@[j - 1], keys@[j - 1], items@[j as int], keys@[j as int]);
                assert(a == Order::Greater);
                assert(order(items@[j as int], keys@[j as int], items@[j - 1], keys@[j - 1]) == a.flipped());
            }
            let ghost before_items = items@;
            let ghost before_keys = keys@;
            let ghost before_p = p;
            swap_in_slice(items, j - 1, j);
            swap_in_slice(keys, j - 1, j);
            proof {
                p = p.update(j - 1, before_p[j as int]).update(j as int, before_p[j - 1]);
                assert forall|k: int| 0 <= k < n implies items@[k] == orig_items[#[trigger] p[k]] && keys@[k] == orig_keys[p[k]] by {
                    if k == j - 1 {
                    } else if k == j as int {
                    } else {
                        assert(items@[k] == before_items[k]);
                    }
                }
                assert forall|k: int, l: int| 0 <= k < n && 0 <= l < n && k != l implies p[k] != p[l] by {
                    let bk = if k == j - 1 { j as int } else if k == j as int { j - 1 } else { k };
                    let bl = if l == j - 1 { j as int } else if l == j as int { j - 1 } else { l };
                    assert(p[k] == before_p[bk]);
                    assert(p[l] == before_p[bl]);
                }
                assert forall|k: int| 0 <= k && k + 1 < j - 1 implies #[trigger] in_order(items@, keys@, p, order, k, k + 1) by {
                    assert(in_order(before_items, before_keys, before_p, order, k, k + 1));
                }
                assert forall|k: int| j <= k && k + 1 <= i implies #[trigger] in_order(items@, keys@, p, order, k, k + 1) by {
                    if k == j as int {
                        if j < i {
                            assert(in_order(before_items, before_keys, before_p, order, j - 1, j + 1));
                        }
                    } else {
                        assert(in_order(before_items, before_keys, before_p, order, k, k + 1));
                    }
                }
                if j - 1 > 0 {
                    let k = j - 2;
                    assert(in_order(before_items, before_keys, before_p, order, k, k + 1));
                }
            }
            j = j - 1;
        }
    }
    Ghost(p)
}

} // verus!
