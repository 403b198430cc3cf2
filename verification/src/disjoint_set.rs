//! A union-find structure over the elements `0..len`.
use vstd::prelude::*;
use vstd::arithmetic::power2::{pow2, lemma_pow2_unfold, lemma_pow2_strictly_increases, lemma2_to64};
use vstd::set_lib::{set_int_range, lemma_int_range, lemma_len_subset, lemma_set_disjoint_lens};

verus! {

/// The root reached from `i` by following parent links. A link is only
/// followed while it leads to a higher rank, which is always the case in a
/// well-formed structure.
pub open spec fn find(p: Seq<usize>, rk: Seq<u8>, i: int) -> int
    decreases 256 - rk[i],
{
    if 0 <= i < p.len() && i < rk.len() && p[i] != i && p[i] < p.len() && p[i] < rk.len()
        && rk[i] < rk[p[i] as int] {
        find(p, rk, p[i] as int)
    } else {
        i
    }
}

/// The elements whose root is `r`.
pub open spec fn class(p: Seq<usize>, rk: Seq<u8>, r: int) -> Set<int> {
    Set::new(|i: int| 0 <= i < p.len() && find(p, rk, i) == r)
}

/// Parent links stay in range and lead to strictly higher ranks.
pub open spec fn wf_links(p: Seq<usize>, rk: Seq<u8>) -> bool {
    &&& p.len() == rk.len()
    &&& forall|i: int| 0 <= i < p.len() ==> #[trigger] p[i] < p.len()
    &&& forall|i: int| 0 <= i < p.len() && #[trigger] p[i] != i ==> rk[i] < rk[p[i] as int]
}

/// A root of rank `k` has at least `2^k` elements in its set.
pub open spec fn wf_sizes(p: Seq<usize>, rk: Seq<u8>) -> bool {
    forall|r: int|
        0 <= r < p.len() && #[trigger] p[r] == r ==> pow2(rk[r] as nat) <= class(p, rk, r).len()
}

proof fn lemma_find(p: Seq<usize>, rk: Seq<u8>, i: int)
    requires
        wf_links(p, rk),
        0 <= i < p.len(),
    ensures
        0 <= find(p, rk, i) < p.len(),
        p[find(p, rk, i)] == find(p, rk, i),
        find(p, rk, find(p, rk, i)) == find(p, rk, i),
        p[i] != i ==> find(p, rk, i) == find(p, rk, p[i] as int),
        p[i] == i ==> find(p, rk, i) == i,
    decreases 256 - rk[i],
{
    if p[i] != i {
        lemma_find(p, rk, p[i] as int);
    }
}

proof fn lemma_class_finite(p: Seq<usize>, rk: Seq<u8>, r: int)
    ensures
        class(p, rk, r).finite(),
        class(p, rk, r).len() <= p.len(),
        class(p, rk, r).subset_of(set_int_range(0, p.len() as int)),
{
    lemma_int_range(0, p.len() as int);
    lemma_len_subset(class(p, rk, r), set_int_range(0, p.len() as int));
}

proof fn lemma_compress_find(p: Seq<usize>, rk: Seq<u8>, c: int, i: int)
    requires
        wf_links(p, rk),
        0 <= c < p.len(),
        p[c] != c,
        p[p[c] as int] != p[c],
        0 <= i < p.len(),
    ensures
        find(p.update(c, p[p[c] as int]), rk, i) == find(p, rk, i),
    decreases 256 - rk[i],
{
    let g = p[p[c] as int];
    let p2 = p.update(c, g);
    if i == c {
        lemma_compress_find(p, rk, c, g as int);
        lemma_find(p, rk, c);
        lemma_find(p, rk, p[c] as int);
    } else if p[i] != i {
        lemma_compress_find(p, rk, c, p[i] as int);
    }
}

proof fn lemma_compress(p: Seq<usize>, rk: Seq<u8>, c: int)
    requires
        wf_links(p, rk),
        wf_sizes(p, rk),
        0 <= c < p.len(),
        p[c] != c,
        p[p[c] as int] != p[c],
    ensures
        wf_links(p.update(c, p[p[c] as int]), rk),
        wf_sizes(p.update(c, p[p[c] as int]), rk),
        forall|i: int| 0 <= i < p.len() ==> #[trigger] find(p.update(c, p[p[c] as int]), rk, i) == find(p, rk, i),
{
    let p2 = p.update(c, p[p[c] as int]);
    assert forall|i: int| 0 <= i < p.len() implies #[trigger] find(p2, rk, i) == find(p, rk, i) by {
        lemma_compress_find(p, rk, c, i);
    }
    assert forall|r: int| 0 <= r < p2.len() && #[trigger] p2[r] == r implies pow2(rk[r] as nat) <= class(p2, rk, r).len() by {
        assert(class(p2, rk, r) =~= class(p, rk, r));
        assert(p[r] == r);
    }
}

proof fn lemma_union_find(p: Seq<usize>, rk: Seq<u8>, rk2: Seq<u8>, s: int, t: int, i: int)
    requires
        wf_links(p, rk),
        0 <= s < p.len(),
        0 <= t < p.len(),
        s != t,
        p[s] == s,
        p[t] == t,
        rk2.len() == rk.len(),
        forall|j: int| 0 <= j < rk.len() && j != t ==> rk2[j] == rk[j],
        rk2[t] >= rk[t],
        rk[s] < rk2[t],
        0 <= i < p.len(),
    ensures
        find(p.update(s, t as usize), rk2, i) == if find(p, rk, i) == s {
            t
        } else {
            find(p, rk, i)
        },
    decreases 256 - rk[i],
{
    let p2 = p.update(s, t as usize);
    if i == s {
        assert(find(p2, rk2, t) == t);
    } else if p[i] != i {
        lemma_union_find(p, rk, rk2, s, t, p[i] as int);
        lemma_find(p, rk, i);
    }
}

proof fn lemma_union(p: Seq<usize>, rk: Seq<u8>, rk2: Seq<u8>, s: int, t: int)
    requires
        wf_links(p, rk),
        wf_sizes(p, rk),
        0 <= s < p.len(),
        0 <= t < p.len(),
        s != t,
        p[s] == s,
        p[t] == t,
        rk2.len() == rk.len(),
        forall|j: int| 0 <= j < rk.len() && j != t ==> rk2[j] == rk[j],
        rk2[t] == rk[t] || (rk2[t] == rk[t] + 1 && rk[s] == rk[t]),
        rk[s] < rk2[t],
    ensures
        wf_links(p.update(s, t as usize), rk2),
        wf_sizes(p.update(s, t as usize), rk2),
        forall|i: int|
            0 <= i < p.len() ==> #[trigger] find(p.update(s, t as usize), rk2, i) == if find(
                p,
                rk,
                i,
            ) == s {
                t
            } else {
                find(p, rk, i)
            },
{
    let p2 = p.update(s, t as usize);
    assert forall|i: int| 0 <= i < p.len() implies #[trigger] find(p2, rk2, i) == if find(p, rk, i)
        == s {
        t
    } else {
        find(p, rk, i)
    } by {
        lemma_union_find(p, rk, rk2, s, t, i);
    }
    assert forall|i: int| 0 <= i < p2.len() && #[trigger] p2[i] != i implies rk2[i] < rk2[p2[i] as int] by {
        if i != s {
            assert(i != t);
        }
    }
    assert forall|r: int| 0 <= r < p2.len() && #[trigger] p2[r] == r implies pow2(rk2[r] as nat) <= class(p2, rk2, r).len() by {
        assert(r != s);
        assert(p[r] == r);
        lemma_class_finite(p, rk, r);
        if r == t {
            lemma_class_finite(p, rk, s);
            assert(class(p2, rk2, t) =~= class(p, rk, t) + class(p, rk, s));
            assert(class(p, rk, t).disjoint(class(p, rk, s)));
            lemma_set_disjoint_lens(class(p, rk, t), class(p, rk, s));
            if rk2[t] != rk[t] {
                lemma_pow2_unfold(rk2[t] as nat);
            }
        } else {
            assert(class(p2, rk2, r) =~= class(p, rk, r));
        }
    }
}

/// A root has rank below 64, and two different roots of the same rank have
/// room for one rank more.
proof fn lemma_rank_bound(p: Seq<usize>, rk: Seq<u8>, s: int, t: int)
    requires
        wf_links(p, rk),
        wf_sizes(p, rk),
        p.len() <= usize::MAX,
        0 <= s < p.len(),
        0 <= t < p.len(),
        s != t,
        p[s] == s,
        p[t] == t,
        rk[s] == rk[t],
    ensures
        rk[t] < 63,
{
    lemma_class_finite(p, rk, s);
    lemma_class_finite(p, rk, t);
    assert(class(p, rk, t).disjoint(class(p, rk, s)));
    lemma_set_disjoint_lens(class(p, rk, t), class(p, rk, s));
    lemma_int_range(0, p.len() as int);
    lemma_len_subset(class(p, rk, t) + class(p, rk, s), set_int_range(0, p.len() as int));
    lemma_pow2_unfold((rk[t] + 1) as nat);
    lemma2_to64();
    if rk[t] + 1 >= 64 {
        if rk[t] + 1 > 64 {
            lemma_pow2_strictly_increases(64, (rk[t] + 1) as nat);
        }
    }
}

/// True when `i` is in the list.
pub open spec fn in_list(list: Seq<usize>, i: int) -> bool {
    exists|m: int| 0 <= m < list.len() && #[trigger] list[m] == i
}

/// True when `i` is in one of the lists.
pub open spec fn listed(lists: Seq<Vec<usize>>, i: int) -> bool {
    exists|k: int, m: int| 0 <= k < lists.len() && 0 <= m < lists[k]@.len() && #[trigger] lists[k]@[m] == i
}

/// A partition of the elements `0..len` into disjoint sets.
pub struct DisjointSet {
    parents: Vec<usize>,
    ranks: Vec<u8>,
}

impl DisjointSet {
    /// The structure is consistent.
    pub closed spec fn wf(&self) -> bool {
        &&& wf_links(self.parents@, self.ranks@)
        &&& wf_sizes(self.parents@, self.ranks@)
    }

    /// The number of elements.
    pub closed spec fn spec_len(&self) -> nat {
        self.parents@.len()
    }

    /// The element that represents the set of `i`.
    pub closed spec fn root(&self, i: int) -> int {
        find(self.parents@, self.ranks@, i)
    }

    /// True when `a` and `b` are elements in the same set.
    pub open spec fn joined(&self, a: int, b: int) -> bool {
        0 <= a < self.spec_len() && 0 <= b < self.spec_len() && self.root(a) == self.root(b)
    }

    /// Creates a disjoint set of `len` elements, each in a set of its own.
    pub fn with_len(len: usize) -> (r: DisjointSet)
        ensures
            r.wf(),
            r.spec_len() == len,
            forall|a: int, b: int| #[trigger] r.joined(a, b) <==> (0 <= a < len && a == b),
    {
        let mut parents: Vec<usize> = Vec::new();
        let mut ranks: Vec<u8> = Vec::new();
        let mut i: usize = 0;
        while i < len
            invariant
                i <= len,
                parents@.len() == i,
                ranks@.len() == i,
                forall|j: int| 0 <= j < i ==> #[trigger] parents@[j] == j,
                forall|j: int| 0 <= j < i ==> #[trigger] ranks@[j] == 0,
            decreases len - i,
        {
            parents.push(i);
            ranks.push(0);
            i += 1;
        }
        let r = DisjointSet { parents, ranks };
        assert forall|j: int| 0 <= j < len implies #[trigger] find(r.parents@, r.ranks@, j) == j by {}
        assert forall|k: int| 0 <= k < r.parents@.len() && #[trigger] r.parents@[k] == k implies pow2(
            r.ranks@[k] as nat,
        ) <= class(r.parents@, r.ranks@, k).len() by {
            assert(class(r.parents@, r.ranks@, k) =~= set![k]);
            lemma2_to64();
        }
        r
    }

    /// The number of elements.
    pub fn len(&self) -> (r: usize)
        ensures
            r == self.spec_len(),
    {
        self.parents.len()
    }

    /// True when there are no elements.
    pub fn is_empty(&self) -> (r: bool)
        ensures
            r == (self.spec_len() == 0),
    {
        self.parents.len() == 0
    }

    /// The root of `child`, found without changing the structure.
    fn root_of(&self, child: usize) -> (r: usize)
        requires
            self.wf(),
            child < self.spec_len(),
        ensures
            r == self.root(child as int),
            r < self.spec_len(),
    {
        let mut current = child;
        proof {
            lemma_find(self.parents@, self.ranks@, child as int);
        }
        while self.parents[current] != current
            invariant
                self.wf(),
                current < self.spec_len(),
                find(self.parents@, self.ranks@, current as int) == find(
                    self.parents@,
                    self.ranks@,
                    child as int,
                ),
            decreases 256 - self.ranks@[current as int],
        {
            proof {
                lemma_find(self.parents@, self.ranks@, current as int);
            }
            current = self.parents[current];
        }
        current
    }

    /// The root of `child`; on the way every visited element is linked to
    /// its grandparent, which keeps later searches short.
    fn root_of_compressing(&mut self, child: usize) -> (r: usize)
        requires
            old(self).wf(),
            child < old(self).spec_len(),
        ensures
            final(self).wf(),
            final(self).spec_len() == old(self).spec_len(),
            final(self).ranks@ == old(self).ranks@,
            forall|i: int| 0 <= i < old(self).spec_len() ==> #[trigger] final(self).root(i) == old(self).root(i),
            r == old(self).root(child as int),
            r < old(self).spec_len(),
            final(self).parents@[r as int] == r,
            final(self).root(r as int) == r,
    {
        let ghost p0 = self.parents@;
        let mut node = child;
        let mut parent = self.parents[node];
        proof {
            lemma_find(self.parents@, self.ranks@, node as int);
        }
        if node == parent {
            return node;
        }
        loop
            invariant
                self.wf(),
                self.parents@.len() == p0.len(),
                node < self.spec_len(),
                parent == self.parents@[node as int],
                parent != node,
                forall|i: int| 0 <= i < p0.len() ==> #[trigger] find(self.parents@, self.ranks@, i) == find(p0, self.ranks@, i),
                find(self.parents@, self.ranks@, node as int) == find(p0, self.ranks@, child as int),
                self.ranks@ == old(self).ranks@,
                p0 == old(self).parents@,
            decreases 256 - self.ranks@[node as int],
        {
            proof {
                lemma_find(self.parents@, self.ranks@, node as int);
                lemma_find(self.parents@, self.ranks@, parent as int);
            }
            let grandparent = self.parents[parent];
            if parent == grandparent {
                return parent;
            }
            proof {
                lemma_compress(self.parents@, self.ranks@, node as int);
            }
            self.parents.set(node, grandparent);
            node = parent;
            parent = grandparent;
        }
    }

    /// Joins the sets of the two elements. Returns `false` when either element
    /// is out of range or both are already in the same set, and `true` when
    /// two sets were merged.
    pub fn join(&mut self, first_element: usize, second_element: usize) -> (r: bool)
        requires
            old(self).wf(),
        ensures
            final(self).wf(),
            final(self).spec_len() == old(self).spec_len(),
            r == (first_element < old(self).spec_len() && second_element < old(self).spec_len()
                && !old(self).joined(first_element as int, second_element as int)),
            forall|x: int, y: int|
                #[trigger] final(self).joined(x, y) <==> old(self).joined(x, y) || (old(self).joined(
                    x,
                    first_element as int,
                ) && old(self).joined(y, second_element as int)) || (old(self).joined(
                    x,
                    second_element as int,
                ) && old(self).joined(y, first_element as int)),
    {
        let n = self.parents.len();
        if first_element >= n || second_element >= n {
            return false;
        }
        proof {
            lemma_find(self.parents@, self.ranks@, first_element as int);
            lemma_find(self.parents@, self.ranks@, second_element as int);
        }
        if self.parents[first_element] == self.parents[second_element] {
            proof {
                let a = first_element as int;
                let b = second_element as int;
                if self.parents@[a] != a {
                    lemma_find(self.parents@, self.ranks@, self.parents@[a] as int);
                }
                if self.parents@[b] != b {
                    lemma_find(self.parents@, self.ranks@, self.parents@[b] as int);
                }
            }
            return false;
        }
        let ghost old_self = *self;
        let root_first = self.root_of_compressing(first_element);
        let ghost mid = *self;
        let root_second = self.root_of_compressing(second_element);
        assert(mid.root(root_first as int) == root_first);
        assert(self.root(root_first as int) == mid.root(root_first as int));
        assert(self.root(root_second as int) == root_second);
        let ghost after = *self;
        if root_first == root_second {
            return false;
        }
        let ghost p1 = self.parents@;
        let ghost rk1 = self.ranks@;
        proof {
            lemma_find(p1, rk1, root_first as int);
            lemma_find(p1, rk1, root_second as int);
        }
        let rank_first = self.ranks[root_first];
        let rank_second = self.ranks[root_second];
        if rank_first < rank_second {
            proof {
                lemma_union(p1, rk1, rk1, root_first as int, root_second as int);
            }
            self.parents.set(root_first, root_second);
        } else {
            if rank_first == rank_second {
                proof {
                    lemma_rank_bound(p1, rk1, root_second as int, root_first as int);
                }
                self.ranks.set(root_first, rank_first + 1);
            }
            proof {
                lemma_union(p1, rk1, self.ranks@, root_second as int, root_first as int);
            }
            self.parents.set(root_second, root_first);
        }
        proof {
            assert forall|x: int, y: int|
                #[trigger] self.joined(x, y) <==> old_self.joined(x, y) || (old_self.joined(
                    x,
                    first_element as int,
                ) && old_self.joined(y, second_element as int)) || (old_self.joined(
                    x,
                    second_element as int,
                ) && old_self.joined(y, first_element as int)) by {
                if 0 <= x < n {
                    assert(mid.root(x) == old_self.root(x));
                    assert(after.root(x) == mid.root(x));
                    assert(self.root(x) == find(self.parents@, self.ranks@, x));
                }
                if 0 <= y < n {
                    assert(mid.root(y) == old_self.root(y));
                    assert(after.root(y) == mid.root(y));
                    assert(self.root(y) == find(self.parents@, self.ranks@, y));
                }
            }
        }
        true
    }

    /// True when both elements exist and are in the same set.
    pub fn is_joined(&self, first_element: usize, second_element: usize) -> (r: bool)
        requires
            self.wf(),
        ensures
            r == self.joined(first_element as int, second_element as int),
    {
        if first_element >= self.parents.len() || second_element >= self.parents.len() {
            return false;
        }
        self.root_of(first_element) == self.root_of(second_element)
    }

    /// All sets, each as the list of its elements from low to high. Every
    /// element is in exactly one list; the lists come in the order of the
    /// elements that represent them.
    pub fn sets(&self) -> (r: Vec<Vec<usize>>)
        requires
            self.wf(),
        ensures
            forall|k: int| 0 <= k < r.len() ==> #[trigger] r@[k].len() > 0,
            forall|k: int, m: int|
                0 <= k < r.len() && 0 <= m < r@[k].len() ==> #[trigger] r@[k]@[m] < self.spec_len(),
            forall|k: int, m1: int, m2: int|
                0 <= k < r.len() && 0 <= m1 < m2 < r@[k].len() ==> #[trigger] r@[k]@[m1]
                    < #[trigger] r@[k]@[m2],
            forall|k: int, m1: int, m2: int|
                0 <= k < r.len() && 0 <= m1 < r@[k].len() && 0 <= m2 < r@[k].len() ==> self.joined(
                    #[trigger] r@[k]@[m1] as int,
                    #[trigger] r@[k]@[m2] as int,
                ),
            forall|k1: int, k2: int, m1: int, m2: int|
                0 <= k1 < r.len() && 0 <= k2 < r.len() && k1 != k2 && 0 <= m1 < r@[k1].len() && 0
                    <= m2 < r@[k2].len() ==> !self.joined(
                    #[trigger] r@[k1]@[m1] as int,
                    #[trigger] r@[k2]@[m2] as int,
                ),
            forall|i: int| 0 <= i < self.spec_len() ==> #[trigger] listed(r@, i),
    {
        let n = self.parents.len();
        let mut buckets: Vec<Vec<usize>> = Vec::new();
        let mut b: usize = 0;
        while b < n
            invariant
                b <= n,
                n == self.spec_len(),
                buckets@.len() == b,
                forall|r: int| 0 <= r < b ==> (#[trigger] buckets@[r])@.len() == 0,
            decreases n - b,
        {
            buckets.push(Vec::new());
            b += 1;
        }
        let mut i: usize = 0;
        while i < n
            invariant
                i <= n,
                n == self.spec_len(),
                self.wf(),
                buckets@.len() == n,
                forall|r: int, m: int|
                    0 <= r < n && 0 <= m < buckets@[r]@.len() ==> #[trigger] buckets@[r]@[m] < i
                        && self.root(buckets@[r]@[m] as int) == r,
                forall|r: int, m1: int, m2: int|
                    0 <= r < n && 0 <= m1 < m2 < buckets@[r]@.len() ==> #[trigger] buckets@[r]@[m1]
                        < #[trigger] buckets@[r]@[m2],
                forall|j: int| 0 <= j < i ==> #[trigger] in_list(buckets@[self.root(j)]@, j),
            decreases n - i,
        {
            let root = self.root_of(i);
            proof {
                lemma_find(self.parents@, self.ranks@, i as int);
            }
            let ghost before = buckets@;
            buckets[root].push(i);
            assert forall|j: int| 0 <= j < i + 1 implies #[trigger] in_list(buckets@[self.root(j)]@, j) by {
                lemma_find(self.parents@, self.ranks@, j);
                if j < i {
                    assert(in_list(before[self.root(j)]@, j));
                    let m = choose|m: int| 0 <= m < before[self.root(j)]@.len() && #[trigger] before[self.root(j)]@[m] == j;
                    assert(buckets@[self.root(j)]@[m] == j);
                } else {
                    assert(buckets@[self.root(j)]@[before[root as int]@.len() as int] == j);
                }
            }
            i += 1;
        }
        let mut result: Vec<Vec<usize>> = Vec::new();
        let ghost mut sources: Seq<int> = Seq::empty();
        let mut r: usize = 0;
        while r < n
            invariant
                r <= n,
                n == self.spec_len(),
                self.wf(),
                buckets@.len() == n,
                forall|q: int, m: int|
                    0 <= q < n && 0 <= m < buckets@[q]@.len() ==> #[trigger] buckets@[q]@[m] < n
                        && self.root(buckets@[q]@[m] as int) == q,
                forall|q: int, m1: int, m2: int|
                    0 <= q < n && 0 <= m1 < m2 < buckets@[q]@.len() ==> #[trigger] buckets@[q]@[m1]
                        < #[trigger] buckets@[q]@[m2],
                forall|j: int| 0 <= j < n ==> #[trigger] in_list(buckets@[self.root(j)]@, j),
                sources.len() == result.len(),
                forall|k: int| 0 <= k < result.len() ==> 0 <= #[trigger] sources[k] < r,
                forall|k: int|
                    0 <= k < result.len() ==> (#[trigger] result@[k])@ == buckets@[sources[k]]@
                        && result@[k]@.len() > 0,
                forall|k1: int, k2: int|
                    0 <= k1 < k2 < result.len() ==> #[trigger] sources[k1] < #[trigger] sources[k2],
                forall|q: int|
                    0 <= q < r && buckets@[q]@.len() > 0 ==> exists|k: int|
                        0 <= k < result.len() && #[trigger] sources[k] == q,
            decreases n - r,
        {
            if buckets[r].len() > 0 {
                let copy = buckets[r].clone();
                assert(copy@ =~= buckets@[r as int]@);
                let ghost old_sources = sources;
                proof {
                    sources = sources.push(r as int);
                }
                result.push(copy);
                assert forall|q: int|
                    0 <= q < r + 1 && buckets@[q]@.len() > 0 implies exists|k: int|
                        0 <= k < result.len() && #[trigger] sources[k] == q by {
                    if q == r {
                        assert(sources[sources.len() - 1] == q);
                    } else {
                        let k = choose|k: int| 0 <= k < old_sources.len() && #[trigger] old_sources[k] == q;
                        assert(sources[k] == q);
                    }
                }
            }
            r += 1;
        }
        assert forall|k: int, m1: int, m2: int|
            0 <= k < result.len() && 0 <= m1 < result@[k].len() && 0 <= m2 < result@[k].len() implies self.joined(
            #[trigger] result@[k]@[m1] as int,
            #[trigger] result@[k]@[m2] as int,
        ) by {
            assert(result@[k]@[m1] == buckets@[sources[k]]@[m1]);
            assert(result@[k]@[m2] == buckets@[sources[k]]@[m2]);
        }
        assert forall|k1: int, k2: int, m1: int, m2: int|
            0 <= k1 < result.len() && 0 <= k2 < result.len() && k1 != k2 && 0 <= m1 < result@[k1].len()
                && 0 <= m2 < result@[k2].len() implies !self.joined(
            #[trigger] result@[k1]@[m1] as int,
            #[trigger] result@[k2]@[m2] as int,
        ) by {
            assert(result@[k1]@[m1] == buckets@[sources[k1]]@[m1]);
            assert(result@[k2]@[m2] == buckets@[sources[k2]]@[m2]);
            if k1 < k2 {
                assert(sources[k1] < sources[k2]);
            } else {
                assert(sources[k2] < sources[k1]);
            }
        }
        assert forall|j: int| 0 <= j < n implies #[trigger] listed(result@, j) by {
            let q = self.root(j);
            lemma_find(self.parents@, self.ranks@, j);
            assert(in_list(buckets@[q]@, j));
            let m = choose|m: int| 0 <= m < buckets@[q]@.len() && #[trigger] buckets@[q]@[m] == j;
            let k = choose|k: int| 0 <= k < result.len() && #[trigger] sources[k] == q;
            assert(result@[k]@[m] == j);
        }
        assert forall|k: int, m: int|
            0 <= k < result.len() && 0 <= m < result@[k].len() implies #[trigger] result@[k]@[m] < self.spec_len() by {
            assert(result@[k]@[m] == buckets@[sources[k]]@[m]);
        }
        assert forall|k: int, m1: int, m2: int|
            0 <= k < result.len() && 0 <= m1 < m2 < result@[k].len() implies #[trigger] result@[k]@[m1]
                < #[trigger] result@[k]@[m2] by {
            assert(result@[k]@[m1] == buckets@[sources[k]]@[m1]);
            assert(result@[k]@[m2] == buckets@[sources[k]]@[m2]);
        }
        result
    }
}

/// Being in the same set is an equivalence relation on the elements.
pub proof fn lemma_joined_is_equivalence(ds: &DisjointSet, a: int, b: int, c: int)
    requires
        ds.wf(),
    ensures
        0 <= a < ds.spec_len() ==> ds.joined(a, a),
        ds.joined(a, b) ==> ds.joined(b, a),
        ds.joined(a, b) && ds.joined(b, c) ==> ds.joined(a, c),
{
}

} // verus!
