//! A priority queue that hands out its cheapest entry first: a binary heap
//! kept in a vector.

use vstd::prelude::*;
use vstd::multiset::Multiset;

verus! {

broadcast use {vstd::seq_lib::group_to_multiset_ensures, vstd::multiset::group_multiset_axioms};

/// Exchanges the items at `i` and `j`, by taking the later one out with
/// `swap_remove` and putting things back with `push`.
fn swap_items<T>(v: &mut Vec<T>, i: usize, j: usize)
    requires
        i < old(v).len(),
        j < old(v).len(),
    ensures
        final(v)@ == old(v)@.update(i as int, old(v)@[j as int]).update(j as int, old(v)@[i as int]),
{
    if i == j {
        return;
    }
    let ghost s = v@;
    let n = v.len();
    let (a, b) = if i < j { (i, j) } else { (j, i) };
    let mut x = v.swap_remove(b);
    std::mem::swap(&mut v[a], &mut x);
    v.push(x);
    if b < n - 1 {
        let y = v.swap_remove(b);
        v.push(y);
    }
    assert(v@ =~= s.update(i as int, s[j as int]).update(j as int, s[i as int]));
}

/// The index of the parent of the entry at `i` in a heap.
pub open spec fn parent(i: int) -> int {
    (i - 1) / 2
}

/// Every entry but the first costs no less than its parent.
pub open spec fn heap_ordered<T>(s: Seq<(u128, T)>) -> bool {
    forall|i: int| 0 < i < s.len() ==> s[parent(i)].0 <= #[trigger] s[i].0
}

/// A collection of items, each with a cost; `pop` takes out an item of
/// least cost.
pub struct MinQueue<T> {
    entries: Vec<(u128, T)>,
}

impl<T> View for MinQueue<T> {
    type V = Multiset<(u128, T)>;

    closed spec fn view(&self) -> Multiset<(u128, T)> {
        self.entries@.to_multiset()
    }
}

/// `e` costs no more than any entry of `m`.
pub open spec fn is_cheapest<T>(m: Multiset<(u128, T)>, e: (u128, T)) -> bool {
    forall|f: (u128, T)| m.contains(f) ==> e.0 <= f.0
}

/// Exchanging two entries keeps the multiset of entries.
proof fn lemma_swap_keeps_entries<T>(s: Seq<(u128, T)>, i: int, j: int)
    requires
        0 <= i < s.len(),
        0 <= j < s.len(),
    ensures
        s.update(i, s[j]).update(j, s[i]).to_multiset() =~= s.to_multiset(),
{
    let a = s.update(i, s[j]);
    if i != j {
        assert(a[j] == s[j]);
        assert(a.to_multiset() == s.to_multiset().insert(s[j]).remove(s[i]));
        assert(a.update(j, s[i]).to_multiset() == a.to_multiset().insert(s[i]).remove(s[j]));
    } else {
        assert(s.update(i, s[j]).update(j, s[i]) =~= s);
    }
}

/// The first entry of a heap costs no more than entry `i`.
proof fn lemma_root_is_cheapest<T>(s: Seq<(u128, T)>, i: int)
    requires
        heap_ordered(s),
        0 <= i < s.len(),
    ensures
        s[0].0 <= s[i].0,
    decreases i,
{
    if i > 0 {
        lemma_root_is_cheapest(s, parent(i));
    }
}

impl<T> MinQueue<T> {
    /// The entries are kept in heap order.
    #[verifier::type_invariant]
    pub closed spec fn inv(self) -> bool {
        heap_ordered(self.entries@)
    }

    /// An empty queue.
    pub fn new() -> (q: Self)
        ensures
            q@ == Multiset::<(u128, T)>::empty(),
    {
        let q = MinQueue { entries: Vec::new() };
        proof {
            assert(q.entries@.to_multiset().len() == 0);
        }
        q
    }

    /// The number of entries.
    pub fn len(&self) -> (n: usize)
        ensures
            n == self@.len(),
    {
        self.entries.len()
    }

    /// Whether the queue holds no entry.
    pub fn is_empty(&self) -> (b: bool)
        ensures
            b <==> self@.len() == 0,
    {
        self.entries.len() == 0
    }

    /// Adds `item` with cost `cost`.
    pub fn push(&mut self, cost: u128, item: T)
        ensures
            final(self)@ == old(self)@.insert((cost, item)),
    {
        proof {
            use_type_invariant(&*self);
        }
        let mut v: Vec<(u128, T)> = Vec::new();
        std::mem::swap(&mut v, &mut self.entries);
        let ghost start = v@.push((cost, item));
        v.push((cost, item));
        let mut k: usize = v.len() - 1;
        while k > 0 && v[k].0 < v[(k - 1) / 2].0
            invariant
                0 <= k < v.len(),
                v@.to_multiset() == start.to_multiset(),
                forall|i: int| 0 < i < v.len() && i != k ==> v@[parent(i)].0 <= #[trigger] v@[i].0,
                k > 0 ==> forall|c: int| 0 < c < v.len() && parent(c) == k ==> v@[parent(k as int)].0
                    <= #[trigger] v@[c].0,
            decreases k,
        {
            let p = (k - 1) / 2;
            let ghost s = v@;
            swap_items(&mut v, k, p);
            proof {
                lemma_swap_keeps_entries(s, k as int, p as int);
                assert forall|i: int| 0 < i < v.len() && i != p implies v@[parent(i)].0 <= #[trigger] v@[i].0 by {
                    if parent(i) == k as int {
                        // A child of `k` sits below what moved up.
                        assert(s[i].0 >= s[k as int].0 || s[i].0 >= s[p as int].0);
                    }
                }
                if p > 0 {
                    assert forall|c: int| 0 < c < v.len() && parent(c) == p implies v@[parent(p as int)].0
                        <= #[trigger] v@[c].0 by {
                        assert(s[parent(p as int)].0 <= s[p as int].0);
                        if c != k as int {
                            assert(s[p as int].0 <= s[c].0);
                        }
                    }
                }
            }
            k = p;
        }
        self.entries = v;
    }

    /// Takes out an entry of least cost, or returns `None` when the queue is
    /// empty.
    pub fn pop(&mut self) -> (r: Option<(u128, T)>)
        ensures
            match r {
                None => old(self)@.len() == 0 && final(self)@ == old(self)@,
                Some(e) => {
                    &&& old(self)@.contains(e)
                    &&& final(self)@ == old(self)@.remove(e)
                    &&& is_cheapest(old(self)@, e)
                },
            },
    {
        proof {
            use_type_invariant(&*self);
        }
        let n = self.entries.len();
        if n == 0 {
            return None;
        }
        let mut v: Vec<(u128, T)> = Vec::new();
        std::mem::swap(&mut v, &mut self.entries);
        let ghost s0 = v@;
        proof {
            assert forall|f: (u128, T)| s0.to_multiset().contains(f) implies s0[0].0 <= f.0 by {
                assert(s0.contains(f));
                let i = choose|i: int| 0 <= i < s0.len() && s0[i] == f;
                lemma_root_is_cheapest(s0, i);
            }
            assert(s0.contains(s0[0]));
        }
        swap_items(&mut v, 0, n - 1);
        let ghost s1 = v@;
        proof {
            lemma_swap_keeps_entries(s0, 0, n - 1);
        }
        let e = match v.pop() {
            Some(e) => e,
            None => {
                assert(false);
                return None;
            },
        };
        proof {
            assert(e == s0[0]);
            assert(s1 =~= v@.push(e));
            assert(v@.to_multiset() =~= s0.to_multiset().remove(e));
        }
        let ghost target = v@.to_multiset();
        let m = v.len();
        let mut k: usize = 0;
        loop
            invariant
                m == v.len(),
                0 <= k,
                m == 0 || k < m,
                v@.to_multiset() == target,
                forall|i: int| 0 < i < m && parent(i) != k ==> v@[parent(i)].0 <= #[trigger] v@[i].0,
                k > 0 ==> forall|c: int| 0 < c < m && parent(c) == k ==> v@[parent(k as int)].0
                    <= #[trigger] v@[c].0,
            ensures
                m == v.len(),
                v@.to_multiset() == target,
                heap_ordered(v@),
            decreases m - k,
        {
            if k >= m / 2 {
                // `k` has no child.
                proof {
                    assert forall|i: int| 0 < i < m implies v@[parent(i)].0 <= #[trigger] v@[i].0 by {
                        if parent(i) == k as int {
                            assert(i >= 2 * k + 1);
                        }
                    }
                }
                break;
            }
            let left = 2 * k + 1;
            let right = left + 1;
            let c = if right < m && v[right].0 < v[left].0 { right } else { left };
            if v[k].0 <= v[c].0 {
                // `k` costs no more than either child.
                proof {
                    assert(parent(left as int) == k);
                    assert(parent(right as int) == k);
                    assert forall|i: int| 0 < i < m implies v@[parent(i)].0 <= #[trigger] v@[i].0 by {
                        if parent(i) == k as int {
                            assert(i == left || i == right);
                        }
                    }
                }
                break;
            }
            let ghost s = v@;
            swap_items(&mut v, k, c);
            proof {
                lemma_swap_keeps_entries(s, k as int, c as int);
                assert(parent(left as int) == k);
                assert(parent(right as int) == k);
                assert forall|i: int| 0 < i < m && parent(i) != c implies v@[parent(i)].0 <= #[trigger] v@[i].0 by {
                    if i == c {
                    } else if parent(i) == k as int {
                        // The other child of `k` costs no less than `c`.
                        assert(s[c as int].0 <= s[i].0);
                    } else if i == k as int && k > 0 {
                        assert(s[parent(k as int)].0 <= s[c as int].0);
                    }
                }
                assert forall|d: int| 0 < d < m && parent(d) == c implies v@[parent(c as int)].0 <= #[trigger] v@[d].0 by {
                    assert(s[c as int].0 <= s[d].0);
                }
            }
            k = c;
        }
        self.entries = v;
        Some(e)
    }
}

} // verus!
