use vstd::prelude::*;

verus! {

/// Disjoint sets over `0..n` with union by rank and path compression.
#[derive(Debug, Clone)]
pub(crate) struct UnionFind {
    parent: Vec<usize>,
    rank: Vec<usize>,
}

/// Following parent links from `x` ends at this root. Ranks grow strictly
/// along the links, which bounds the walk.
#[verifier::opaque]
pub(crate) open spec fn root_of(parent: Seq<usize>, rank: Seq<usize>, x: int) -> int
    decreases usize::MAX - rank[x],
    when 0 <= x < parent.len() && rank.len() == parent.len() && parent[x] < parent.len()
        && (parent[x] != x ==> rank[parent[x] as int] > rank[x])
{
    if parent[x] == x {
        x
    } else {
        root_of(parent, rank, parent[x] as int)
    }
}

/// The links are in range and ranks grow strictly along them.
pub(crate) open spec fn links_ok(parent: Seq<usize>, rank: Seq<usize>) -> bool {
    &&& rank.len() == parent.len()
    &&& forall|x: int| #![trigger parent[x]] 0 <= x < parent.len() ==>
        parent[x] < parent.len() && (parent[x] != x ==> rank[parent[x] as int] > rank[x])
}

/// The elements that are their own parent.
pub(crate) open spec fn roots(parent: Seq<usize>) -> Set<int> {
    Set::new(|x: int| 0 <= x < parent.len() && parent[x] == x)
}

proof fn lemma_roots_finite(parent: Seq<usize>)
    ensures
        roots(parent).finite(),
        roots(parent).len() <= parent.len(),
{
    vstd::set_lib::lemma_int_range(0, parent.len() as int);
    assert(roots(parent).subset_of(vstd::set_lib::set_int_range(0, parent.len() as int)));
    vstd::set_lib::lemma_len_subset(roots(parent), vstd::set_lib::set_int_range(0, parent.len() as int));
}

/// The root of `x` is a root, in range, of rank at least that of `x`.
proof fn lemma_root(parent: Seq<usize>, rank: Seq<usize>, x: int)
    requires
        links_ok(parent, rank),
        0 <= x < parent.len(),
    ensures
        0 <= root_of(parent, rank, x) < parent.len(),
        parent[root_of(parent, rank, x)] == root_of(parent, rank, x),
        rank[root_of(parent, rank, x)] >= rank[x],
        (parent[x] == x) == (root_of(parent, rank, x) == x),
    decreases usize::MAX - rank[x],
{
    reveal(root_of);
    if parent[x] != x {
        lemma_root(parent, rank, parent[x] as int);
    }
}


proof fn lemma_root_unfold(parent: Seq<usize>, rank: Seq<usize>, x: int)
    requires
        links_ok(parent, rank),
        0 <= x < parent.len(),
    ensures
        root_of(parent, rank, x) == if parent[x] == x { x } else { root_of(parent, rank, parent[x] as int) },
{
    reveal(root_of);
}

/// The root does not depend on the ranks, only on the links.
proof fn lemma_root_rank_free(parent: Seq<usize>, r1: Seq<usize>, r2: Seq<usize>, x: int)
    requires
        links_ok(parent, r1),
        links_ok(parent, r2),
        0 <= x < parent.len(),
    ensures
        root_of(parent, r1, x) == root_of(parent, r2, x),
    decreases usize::MAX - r1[x],
{
    reveal(root_of);
    if parent[x] != x {
        lemma_root_rank_free(parent, r1, r2, parent[x] as int);
    }
}

/// Pointing a non-root straight at its root changes no root.
proof fn lemma_root_compress(parent: Seq<usize>, rank: Seq<usize>, x: int, y: int)
    requires
        links_ok(parent, rank),
        0 <= x < parent.len(),
        parent[x] != x,
        0 <= y < parent.len(),
        links_ok(parent.update(x, root_of(parent, rank, x) as usize), rank),
    ensures
        root_of(parent.update(x, root_of(parent, rank, x) as usize), rank, y) == root_of(parent, rank, y),
    decreases usize::MAX - rank[y],
{
    reveal(root_of);
    let p2 = parent.update(x, root_of(parent, rank, x) as usize);
    lemma_root(parent, rank, x);
    let r = root_of(parent, rank, x);
    if y == x {
        assert(p2[r] == r);
        assert(root_of(p2, rank, r) == r);
    } else if parent[y] != y {
        lemma_root_compress(parent, rank, x, parent[y] as int);
    }
}

/// Hanging root `a` under root `b` sends everything rooted at `a` to `b`.
proof fn lemma_root_link(parent: Seq<usize>, rank: Seq<usize>, rank2: Seq<usize>, a: int, b: int, y: int)
    requires
        links_ok(parent, rank),
        0 <= a < parent.len(),
        0 <= b < parent.len(),
        a != b,
        parent[a] == a,
        parent[b] == b,
        links_ok(parent.update(a, b as usize), rank2),
        forall|z: int| 0 <= z < parent.len() && z != b ==> rank2[z] == rank[z],
        rank2[b] >= rank[b],
        0 <= y < parent.len(),
    ensures
        root_of(parent.update(a, b as usize), rank2, y) == if root_of(parent, rank, y) == a { b } else { root_of(parent, rank, y) },
    decreases usize::MAX - rank[y],
{
    reveal(root_of);
    let p2 = parent.update(a, b as usize);
    assert(p2[b] == b);
    assert(root_of(p2, rank2, b) == b);
    if y == a {
        assert(p2[a] == b);
        assert(root_of(p2, rank2, a) == root_of(p2, rank2, b));
        assert(root_of(parent, rank, a) == a);
    } else if parent[y] == y {
        assert(p2[y] == y);
        assert(root_of(p2, rank2, y) == y);
    } else {
        assert(p2[y] == parent[y]);
        lemma_root_link(parent, rank, rank2, a, b, parent[y] as int);
        assert(root_of(p2, rank2, y) == root_of(p2, rank2, parent[y] as int));
        assert(root_of(parent, rank, y) == root_of(parent, rank, parent[y] as int));
    }
}

/// Pointing non-root `x` at its root keeps the links valid and changes no
/// root and no root set.
proof fn lemma_compress_ok(p1: Seq<usize>, rank: Seq<usize>, x: int)
    requires
        links_ok(p1, rank),
        0 <= x < p1.len(),
        p1[x] != x,
    ensures
        links_ok(p1.update(x, root_of(p1, rank, x) as usize), rank),
        forall|y: int| 0 <= y < p1.len() ==> #[trigger] root_of(p1.update(x, root_of(p1, rank, x) as usize), rank, y) == root_of(p1, rank, y),
        roots(p1.update(x, root_of(p1, rank, x) as usize)) == roots(p1),
{
    lemma_root(p1, rank, x);
    lemma_root(p1, rank, p1[x] as int);
    lemma_root_unfold(p1, rank, x);
    let r = root_of(p1, rank, x);
    let p2 = p1.update(x, r as usize);
    assert(r == root_of(p1, rank, p1[x] as int));
    assert forall|z: int| #![trigger p2[z]] 0 <= z < p2.len() implies
        p2[z] < p2.len() && (p2[z] != z ==> rank[p2[z] as int] > rank[z]) by {
        if z != x {
            assert(p2[z] == p1[z]);
        }
    }
    assert forall|y: int| 0 <= y < p1.len() implies #[trigger] root_of(p2, rank, y) == root_of(p1, rank, y) by {
        lemma_root_compress(p1, rank, x, y);
    }
    assert(roots(p2) =~= roots(p1));
}

/// Hanging root `child` under root `top` (raising the rank of `top` when the
/// ranks were equal) keeps the structure well formed and merges the two sets.
proof fn lemma_link_ok(p1: Seq<usize>, r1: Seq<usize>, r2: Seq<usize>, child: int, top: int, equal: bool)
    requires
        p1.len() <= usize::MAX,
        links_ok(p1, r1),
        forall|x: int| 0 <= x < p1.len() ==> #[trigger] r1[x] + roots(p1).len() <= p1.len(),
        0 <= child < p1.len(),
        0 <= top < p1.len(),
        child != top,
        p1[child] == child,
        p1[top] == top,
        equal == (r1[child] == r1[top]),
        !equal ==> r1[child] < r1[top],
        equal ==> r2 == r1.update(top, (r1[top] + 1) as usize),
        !equal ==> r2 == r1,
    ensures
        r1[top] + 1 <= usize::MAX,
        links_ok(p1.update(child, top as usize), r2),
        forall|x: int| 0 <= x < p1.len() ==> #[trigger] r2[x] + roots(p1.update(child, top as usize)).len() <= p1.len(),
        forall|y: int| 0 <= y < p1.len() ==> #[trigger] root_of(p1.update(child, top as usize), r2, y) ==
            if root_of(p1, r1, y) == child { top } else { root_of(p1, r1, y) },
{
    let p2 = p1.update(child, top as usize);
    lemma_roots_finite(p1);
    assert(roots(p1).contains(child));
    assert(roots(p1).contains(top));
    assert(roots(p1).remove(child).contains(top));
    assert(roots(p1).len() >= 2) by {
        assert(roots(p1).remove(child).len() >= 1);
    }
    assert(r1[top] + roots(p1).len() <= p1.len());
    assert(roots(p2) =~= roots(p1).remove(child));
    assert(r1[top] + 1 <= usize::MAX);
    assert forall|z: int| 0 <= z < p1.len() && z != top implies #[trigger] r2[z] == r1[z] by {}
    assert(equal ==> r2[top] == r1[top] + 1);
    assert(!equal ==> r2[top] == r1[top]);
    assert forall|x: int| #![trigger p2[x]] 0 <= x < p2.len() implies
        p2[x] < p2.len() && (p2[x] != x ==> r2[p2[x] as int] > r2[x]) by {
        if x != child {
            assert(p2[x] == p1[x]);
            if p2[x] != x {
                assert(r2[p1[x] as int] >= r1[p1[x] as int]);
                assert(x != top);
                assert(r2[x] == r1[x]);
            }
        } else {
            assert(r2[child] == r1[child]);
        }
    }
    assert forall|x: int| 0 <= x < p2.len() implies #[trigger] r2[x] + roots(p2).len() <= p2.len() by {
        assert(r1[x] + roots(p1).len() <= p1.len());
    }
    assert forall|y: int| 0 <= y < p1.len() implies #[trigger] root_of(p2, r2, y) ==
        if root_of(p1, r1, y) == child { top } else { root_of(p1, r1, y) } by {
        lemma_root_link(p1, r1, r2, child, top, y);
    }
}

impl UnionFind {
    pub(crate) closed spec fn parents(&self) -> Seq<usize> {
        self.parent@
    }

    pub(crate) closed spec fn ranks(&self) -> Seq<usize> {
        self.rank@
    }

    /// Well formed: valid links, and no rank plus the number of roots exceeds
    /// the number of elements.
    pub(crate) closed spec fn wf(&self) -> bool {
        &&& links_ok(self.parent@, self.rank@)
        &&& forall|x: int| 0 <= x < self.parent@.len() ==> #[trigger] self.rank@[x] + roots(self.parent@).len() <= self.parent@.len()
    }

    /// The number of elements.
    pub(crate) closed spec fn size(&self) -> nat {
        self.parent@.len()
    }

    /// The representative of the set of `x`.
    pub(crate) closed spec fn root(&self, x: int) -> int {
        root_of(self.parent@, self.rank@, x)
    }

    /// `x` and `y` lie in the same set.
    pub(crate) open spec fn same(&self, x: int, y: int) -> bool {
        self.root(x) == self.root(y)
    }

    /// `size` singleton sets.
    pub(crate) fn new(size: usize) -> (uf: UnionFind)
        ensures
            uf.wf(),
            uf.size() == size,
            forall|x: int| 0 <= x < size ==> #[trigger] uf.root(x) == x,
    {
        let mut parent: Vec<usize> = Vec::new();
        let mut i: usize = 0;
        while i < size
            invariant
                i <= size,
                parent@.len() == i,
                forall|x: int| 0 <= x < i ==> #[trigger] parent@[x] == x,
            decreases size - i,
        {
            parent.push(i);
            i = i + 1;
        }
        let rank: Vec<usize> = vec![0usize; size];
        let uf = UnionFind { parent, rank };
        proof {
            assert(roots(uf.parent@) =~= vstd::set_lib::set_int_range(0, size as int));
            vstd::set_lib::lemma_int_range(0, size as int);
            assert forall|x: int| 0 <= x < size implies #[trigger] uf.root(x) == x by {
                assert(uf.parent@[x] == x);
                lemma_root_unfold(uf.parent@, uf.rank@, x);
            }
        }
        uf
    }

    /// The representative of `value`'s set; links on the way are pointed
    /// straight at it.
    pub(crate) fn find(&mut self, value: usize) -> (r: usize)
        requires
            old(self).wf(),
            value < old(self).size(),
        ensures
            final(self).wf(),
            final(self).size() == old(self).size(),
            r == old(self).root(value as int),
            forall|x: int| 0 <= x < old(self).size() ==> #[trigger] final(self).root(x) == old(self).root(x),
            roots(final(self).parents()) == roots(old(self).parents()),
            final(self).ranks() == old(self).ranks(),
        decreases usize::MAX - old(self).ranks()[value as int],
    {
        proof {
            lemma_root(self.parent@, self.rank@, value as int);
        }
        if self.parent[value] != value {
            let parent = self.parent[value];
            let ghost before = *self;
            let ghost p0 = self.parent@;
            proof {
                lemma_root_unfold(p0, self.rank@, value as int);
            }
            let r = self.find(parent);
            let ghost p1 = self.parent@;
            let ghost mid = *self;
            proof {
                assert(self.root(value as int) == before.root(value as int));
                assert(self.root(parent as int) == before.root(parent as int));
                assert(roots(p1).contains(value as int) == roots(p0).contains(value as int));
                assert(p1[value as int] != value);
                lemma_compress_ok(p1, self.rank@, value as int);
            }
            self.parent.set(value, r);
            proof {
                let p2 = self.parent@;
                assert(p2 == p1.update(value as int, root_of(p1, self.rank@, value as int) as usize));
                assert forall|x: int| 0 <= x < p0.len() implies #[trigger] self.root(x) == before.root(x) by {
                    assert(root_of(p2, self.rank@, x) == root_of(p1, self.rank@, x));
                    assert(mid.root(x) == before.root(x));
                }
                lemma_root(p1, self.rank@, value as int);
                lemma_root_unfold(p2, self.rank@, value as int);
                lemma_root_unfold(p2, self.rank@, r as int);
            }
        }
        let r = self.parent[value];
        proof {
            lemma_root_unfold(self.parent@, self.rank@, value as int);
        }
        r
    }

    /// Merges the sets of `left` and `right`; `false` when they were one set already.
    /// Merges the sets of `left` and `right`; `false` when they were one set already.
    pub(crate) fn union(&mut self, left: usize, right: usize) -> (merged: bool)
        requires
            old(self).wf(),
            left < old(self).size(),
            right < old(self).size(),
        ensures
            final(self).wf(),
            final(self).size() == old(self).size(),
            merged == !old(self).same(left as int, right as int),
            forall|x: int, y: int| 0 <= x < old(self).size() && 0 <= y < old(self).size() ==>
                (#[trigger] final(self).same(x, y) <==> {
                    ||| old(self).same(x, y)
                    ||| (old(self).same(x, left as int) && old(self).same(y, right as int))
                    ||| (old(self).same(x, right as int) && old(self).same(y, left as int))
                }),
    {
        let ghost s0 = *self;
        let left_root = self.find(left);
        let ghost sa = *self;
        let right_root = self.find(right);
        let ghost s1 = *self;
        proof {
            assert(s1.root(left as int) == sa.root(left as int));
            assert(s1.root(right as int) == sa.root(right as int));
            assert(sa.root(left as int) == s0.root(left as int));
            lemma_root(s1.parent@, s1.rank@, left as int);
            lemma_root(s1.parent@, s1.rank@, right as int);
        }
        if left_root == right_root {
            proof {
                lemma_union_noop(s0, sa, s1, left as int, right as int);
            }
            return false;
        }
        let ghost p1 = self.parent@;
        let ghost r1 = self.rank@;
        let n = self.parent.len();
        let left_rank = self.rank[left_root];
        let right_rank = self.rank[right_root];
        let child: usize;
        let top: usize;
        if left_rank < right_rank {
            child = left_root;
            top = right_root;
        } else {
            child = right_root;
            top = left_root;
        }
        let equal = left_rank == right_rank;
        proof {
            assert(p1.len() == n);
            let r2 = if equal { r1.update(top as int, (r1[top as int] + 1) as usize) } else { r1 };
            lemma_link_ok(p1, r1, r2, child as int, top as int, equal);
        }
        self.parent.set(child, top);
        if equal {
            let k = self.rank[top];
            self.rank.set(top, k + 1);
        }
        proof {
            lemma_union_link(s0, sa, s1, *self, left as int, right as int, child as int, top as int, equal);
        }
        true
    }
}

/// A union of two elements already in one set changes no set.
proof fn lemma_union_noop(s0: UnionFind, sa: UnionFind, s1: UnionFind, left: int, right: int)
    requires
        s0.size() == sa.size() == s1.size(),
        forall|x: int| 0 <= x < s0.size() ==> #[trigger] sa.root(x) == s0.root(x),
        forall|x: int| 0 <= x < s0.size() ==> #[trigger] s1.root(x) == sa.root(x),
        0 <= left < s0.size(),
        0 <= right < s0.size(),
        s1.root(left) == s1.root(right),
    ensures
        s0.same(left, right),
        forall|x: int, y: int| 0 <= x < s0.size() && 0 <= y < s0.size() ==>
            (#[trigger] s1.same(x, y) <==> {
                ||| s0.same(x, y)
                ||| (s0.same(x, left) && s0.same(y, right))
                ||| (s0.same(x, right) && s0.same(y, left))
            }),
{
    assert(s1.root(left) == s0.root(left));
    assert(s1.root(right) == s0.root(right));
    assert forall|x: int, y: int| 0 <= x < s0.size() && 0 <= y < s0.size() implies
        (#[trigger] s1.same(x, y) <==> {
            ||| s0.same(x, y)
            ||| (s0.same(x, left) && s0.same(y, right))
            ||| (s0.same(x, right) && s0.same(y, left))
        }) by {
        assert(s1.root(x) == s0.root(x));
        assert(s1.root(y) == s0.root(y));
    }
}

/// The state after linking is well formed and merged the two sets.
proof fn lemma_union_link(s0: UnionFind, sa: UnionFind, s1: UnionFind, s2: UnionFind, left: int, right: int, child: int, top: int, equal: bool)
    requires
        s1.wf(),
        s0.size() == sa.size() == s1.size(),
        s1.parents().len() <= usize::MAX,
        forall|x: int| 0 <= x < s0.size() ==> #[trigger] sa.root(x) == s0.root(x),
        forall|x: int| 0 <= x < s0.size() ==> #[trigger] s1.root(x) == sa.root(x),
        0 <= left < s0.size(),
        0 <= right < s0.size(),
        (child == s1.root(left) && top == s1.root(right)) || (child == s1.root(right) && top == s1.root(left)),
        child != top,
        0 <= child < s1.size(),
        0 <= top < s1.size(),
        s1.parents()[child] == child,
        s1.parents()[top] == top,
        equal == (s1.ranks()[child] == s1.ranks()[top]),
        !equal ==> s1.ranks()[child] < s1.ranks()[top],
        s2.parents() == s1.parents().update(child, top as usize),
        equal ==> s2.ranks() == s1.ranks().update(top, (s1.ranks()[top] + 1) as usize),
        !equal ==> s2.ranks() == s1.ranks(),
    ensures
        s2.wf(),
        s2.size() == s0.size(),
        !s0.same(left, right),
        forall|x: int, y: int| 0 <= x < s0.size() && 0 <= y < s0.size() ==>
            (#[trigger] s2.same(x, y) <==> {
                ||| s0.same(x, y)
                ||| (s0.same(x, left) && s0.same(y, right))
                ||| (s0.same(x, right) && s0.same(y, left))
            }),
{
    lemma_link_ok(s1.parent@, s1.rank@, s2.rank@, child, top, equal);
    assert forall|y: int| 0 <= y < s0.size() implies #[trigger] s2.root(y) == if s1.root(y) == child { top } else { s1.root(y) } by {}
    lemma_union_effect(s0, sa, s1, s2, left, right, child, top);
}

/// The effect of a union on the sets, from the effect of its two finds and
/// of the final link.
proof fn lemma_union_effect(s0: UnionFind, sa: UnionFind, s1: UnionFind, s2: UnionFind, left: int, right: int, child: int, top: int)
    requires
        s0.size() == sa.size() == s1.size() == s2.size(),
        forall|x: int| 0 <= x < s0.size() ==> #[trigger] sa.root(x) == s0.root(x),
        forall|x: int| 0 <= x < s0.size() ==> #[trigger] s1.root(x) == sa.root(x),
        0 <= left < s0.size(),
        0 <= right < s0.size(),
        (child == s1.root(left) && top == s1.root(right)) || (child == s1.root(right) && top == s1.root(left)),
        child != top,
        forall|y: int| 0 <= y < s0.size() ==> #[trigger] s2.root(y) == if s1.root(y) == child { top } else { s1.root(y) },
    ensures
        !s0.same(left, right),
        forall|x: int, y: int| 0 <= x < s0.size() && 0 <= y < s0.size() ==>
            (#[trigger] s2.same(x, y) <==> {
                ||| s0.same(x, y)
                ||| (s0.same(x, left) && s0.same(y, right))
                ||| (s0.same(x, right) && s0.same(y, left))
            }),
{
    assert(s1.root(left) == s0.root(left));
    assert(s1.root(right) == s0.root(right));
    assert forall|x: int, y: int| 0 <= x < s0.size() && 0 <= y < s0.size() implies
        (#[trigger] s2.same(x, y) <==> {
            ||| s0.same(x, y)
            ||| (s0.same(x, left) && s0.same(y, right))
            ||| (s0.same(x, right) && s0.same(y, left))
        }) by {
        assert(s1.root(x) == s0.root(x));
        assert(s1.root(y) == s0.root(y));
        assert(s2.root(x) == if s1.root(x) == child { top } else { s1.root(x) });
        assert(s2.root(y) == if s1.root(y) == child { top } else { s1.root(y) });
    }
}

} // verus!
