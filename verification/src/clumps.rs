//! Friends-of-friends clumping of a particle field.
//!
//! Two particles are *linked* when they lie within the linking length of each other (the caller
//! measures the distances); a clump is a connected component of the link graph. Components are found
//! with a path-compressing union-find, exactly as the accretion operator and the disk statistics do.
//! A clump then accretes into one body when it has at least two members, is gravitationally
//! self-bound and lies outside the central body's Roche limit (both judged by the caller).

use vstd::prelude::*;

verus! {

/// Parent pointers form a forest: every pointer stays in range, and a ghost rank strictly increases
/// from a node to its parent (so following parents always reaches a root).
pub open spec fn forest(p: Seq<usize>, rank: Seq<int>, bound: int) -> bool {
    &&& rank.len() == p.len()
    &&& forall|i: int| 0 <= i < p.len() ==> (#[trigger] p[i] as int) < p.len()
    &&& forall|i: int| 0 <= i < p.len() ==> 0 <= #[trigger] rank[i] < bound
    &&& forall|i: int|
        0 <= i < p.len() && #[trigger] p[i] != i ==> rank[i] < rank[p[i] as int]
}

/// The root reached from `i` by following parent pointers.
pub open spec fn root(p: Seq<usize>, rank: Seq<int>, bound: int, i: int) -> int
    decreases bound - rank[i],
    when forest(p, rank, bound) && 0 <= i < p.len()
{
    if p[i] == i {
        i
    } else {
        root(p, rank, bound, p[i] as int)
    }
}

/// The root is in range, is its own parent, and has rank at least that of the node.
pub proof fn lemma_root_props(p: Seq<usize>, rank: Seq<int>, bound: int, i: int)
    requires
        forest(p, rank, bound),
        0 <= i < p.len(),
    ensures
        0 <= root(p, rank, bound, i) < p.len(),
        p[root(p, rank, bound, i)] == root(p, rank, bound, i),
        rank[i] <= rank[root(p, rank, bound, i)],
        p[i] != i ==> rank[i] < rank[root(p, rank, bound, i)],
        p[i] == i ==> root(p, rank, bound, i) == i,
        root(p, rank, bound, i) == root(p, rank, bound, p[i] as int),
    decreases bound - rank[i],
{
    assert(0 <= rank[i] < bound);
    if p[i] != i {
        assert(rank[i] < rank[p[i] as int]);
        lemma_root_props(p, rank, bound, p[i] as int);
    }
}


/// The root does not depend on which ghost ranks witness the forest.
pub proof fn lemma_root_rank_independent(
    p: Seq<usize>,
    r1: Seq<int>,
    b1: int,
    r2: Seq<int>,
    b2: int,
    i: int,
)
    requires
        forest(p, r1, b1),
        forest(p, r2, b2),
        0 <= i < p.len(),
    ensures
        root(p, r1, b1, i) == root(p, r2, b2, i),
    decreases b1 - r1[i],
{
    assert(0 <= r1[i] < b1);
    if p[i] != i {
        assert(r1[i] < r1[p[i] as int]);
        lemma_root_rank_independent(p, r1, b1, r2, b2, p[i] as int);
    }
}

/// Pointing a node straight at its own root (path compression) keeps the forest and every root.
pub proof fn lemma_compress(p: Seq<usize>, rank: Seq<int>, bound: int, c: int, x: int)
    requires
        forest(p, rank, bound),
        0 <= c < p.len(),
        0 <= x < p.len(),
    ensures
        forest(p.update(c, root(p, rank, bound, c) as usize), rank, bound),
        root(p.update(c, root(p, rank, bound, c) as usize), rank, bound, x) == root(
            p,
            rank,
            bound,
            x,
        ),
    decreases bound - rank[x],
{
    let r = root(p, rank, bound, c);
    lemma_root_props(p, rank, bound, c);
    let q = p.update(c, r as usize);
    assert(forest(q, rank, bound)) by {
        assert forall|i: int| 0 <= i < q.len() && #[trigger] q[i] != i implies rank[i] < rank[
            q[i] as int] by {
            if i == c {
                assert(p[c] != c);
            }
        }
    }
    assert(0 <= rank[x] < bound);
    lemma_root_props(p, rank, bound, x);
    lemma_root_props(q, rank, bound, x);
    if x == c {
        if p[c] != c {
            lemma_root_props(p, rank, bound, r);
            lemma_root_props(q, rank, bound, r);
        }
    } else if p[x] != x {
        assert(q[x] == p[x]);
        assert(rank[x] < rank[p[x] as int]);
        lemma_compress(p, rank, bound, c, p[x] as int);
    }
}

/// Ranks after hanging root `a` under root `b`: `b` is raised above `a` if needed.
pub open spec fn union_rank(rank: Seq<int>, a: int, b: int) -> Seq<int> {
    rank.update(b, if rank[b] > rank[a] { rank[b] } else { rank[a] + 1 })
}

/// The rank bound after hanging root `a` under root `b`.
pub open spec fn union_bound(rank: Seq<int>, bound: int, a: int, b: int) -> int {
    if union_rank(rank, a, b)[b] + 1 > bound {
        union_rank(rank, a, b)[b] + 1
    } else {
        bound
    }
}

/// Hanging root `a` under a different root `b` keeps a forest, and exactly the nodes that were
/// rooted at `a` become rooted at `b`.
pub proof fn lemma_union(p: Seq<usize>, rank: Seq<int>, bound: int, a: int, b: int, x: int)
    requires
        forest(p, rank, bound),
        0 <= a < p.len(),
        0 <= b < p.len(),
        0 <= x < p.len(),
        p[a] == a,
        p[b] == b,
        a != b,
    ensures
        forest(p.update(a, b as usize), union_rank(rank, a, b), union_bound(rank, bound, a, b)),
        root(p.update(a, b as usize), union_rank(rank, a, b), union_bound(rank, bound, a, b), x)
            == if root(p, rank, bound, x) == a {
            b
        } else {
            root(p, rank, bound, x)
        },
    decreases bound - rank[x],
{
    let q = p.update(a, b as usize);
    let r2 = union_rank(rank, a, b);
    let b2 = union_bound(rank, bound, a, b);
    assert(forest(q, r2, b2)) by {
        assert forall|i: int| 0 <= i < q.len() implies 0 <= #[trigger] r2[i] < b2 by {
            assert(0 <= rank[i] < bound);
        }
        assert forall|i: int| 0 <= i < q.len() && #[trigger] q[i] != i implies r2[i] < r2[
            q[i] as int] by {
            if i != a {
                assert(p[i] != i);
                assert(rank[i] < rank[p[i] as int]);
                assert(p[i] != b || rank[i] < r2[b]);
            }
        }
    }
    lemma_root_props(p, rank, bound, x);
    lemma_root_props(q, r2, b2, x);
    assert(0 <= rank[x] < bound);
    if x == a {
        lemma_root_props(q, r2, b2, b);
    } else if p[x] == x {
        assert(q[x] == x);
    } else {
        assert(q[x] == p[x]);
        assert(rank[x] < rank[p[x] as int]);
        lemma_union(p, rank, bound, a, b, p[x] as int);
    }
}


/// Disjoint-set forest over particle indices `0..n`, with path compression.
struct UnionFind {
    parent: Vec<usize>,
    rank: Ghost<Seq<int>>,
    bound: Ghost<int>,
}

impl UnionFind {
    spec fn inv(&self) -> bool {
        forest(self.parent@, self.rank@, self.bound@)
    }

    spec fn size(&self) -> int {
        self.parent@.len() as int
    }

    spec fn root_of(&self, x: int) -> int {
        root(self.parent@, self.rank@, self.bound@, x)
    }

    /// `n` singletons.
    fn new(n: usize) -> (uf: UnionFind)
        ensures
            uf.inv(),
            uf.size() == n,
            forall|x: int| 0 <= x < n ==> #[trigger] uf.root_of(x) == x,
    {
        let mut parent: Vec<usize> = Vec::new();
        let mut i: usize = 0;
        while i < n
            invariant
                i <= n,
                parent@.len() == i,
                forall|k: int| 0 <= k < i ==> #[trigger] parent@[k] == k,
            decreases n - i,
        {
            parent.push(i);
            i = i + 1;
        }
        let uf = UnionFind {
            parent,
            rank: Ghost(Seq::new(n as nat, |k: int| 0int)),
            bound: Ghost(1int),
        };
        assert forall|x: int| 0 <= x < n implies #[trigger] uf.root_of(x) == x by {
            lemma_root_props(uf.parent@, uf.rank@, uf.bound@, x);
        }
        uf
    }

    /// The root of `i`; every node on the way is re-pointed straight at it.
    fn find(&mut self, i: usize) -> (r: usize)
        requires
            old(self).inv(),
            i < old(self).size(),
        ensures
            final(self).inv(),
            final(self).size() == old(self).size(),
            r == old(self).root_of(i as int),
            forall|x: int| 0 <= x < old(self).size() ==> #[trigger] final(self).root_of(x) == old(self).root_of(x),
    {
        let ghost p0 = self.parent@;
        let ghost rk = self.rank@;
        let ghost bd = self.bound@;
        let n = self.parent.len();
        let mut r = i;
        while self.parent[r] != r
            invariant
                forest(self.parent@, rk, bd),
                self.parent@ == p0,
                self.rank@ == rk,
                self.bound@ == bd,
                n == p0.len(),
                r < n,
                root(p0, rk, bd, r as int) == root(p0, rk, bd, i as int),
            decreases bd - rk[r as int],
        {
            proof {
                lemma_root_props(p0, rk, bd, r as int);
            }
            r = self.parent[r];
        }
        proof {
            lemma_root_props(p0, rk, bd, r as int);
        }
        let mut c = i;
        while self.parent[c] != r
            invariant
                forest(self.parent@, rk, bd),
                self.rank@ == rk,
                self.bound@ == bd,
                self.parent@.len() == n,
                n == p0.len(),
                c < n,
                r < n,
                r as int == root(p0, rk, bd, i as int),
                root(self.parent@, rk, bd, c as int) == r,
                forall|x: int| 0 <= x < n ==> #[trigger] root(self.parent@, rk, bd, x) == root(p0, rk, bd, x),
            decreases bd - rk[c as int],
        {
            let ghost pc = self.parent@;
            proof {
                lemma_root_props(pc, rk, bd, c as int);
                assert forall|x: int| 0 <= x < n implies #[trigger] root(
                    pc.update(c as int, root(pc, rk, bd, c as int) as usize),
                    rk,
                    bd,
                    x,
                ) == root(pc, rk, bd, x) by {
                    lemma_compress(pc, rk, bd, c as int, x);
                }
                lemma_compress(pc, rk, bd, c as int, c as int);
            }
            let nx = self.parent[c];
            self.parent.set(c, r);
            proof {
                assert(self.parent@ == pc.update(c as int, root(pc, rk, bd, c as int) as usize));
                lemma_root_props(pc, rk, bd, nx as int);
            }
            c = nx;
        }
        r
    }

    /// Hang root `a` under root `b`.
    fn union_roots(&mut self, a: usize, b: usize)
        requires
            old(self).inv(),
            a < old(self).size(),
            b < old(self).size(),
            old(self).parent@[a as int] == a,
            old(self).parent@[b as int] == b,
            a != b,
        ensures
            final(self).inv(),
            final(self).size() == old(self).size(),
            forall|x: int|
                0 <= x < old(self).size() ==> #[trigger] final(self).root_of(x) == if old(self).root_of(x)
                    == a {
                    b as int
                } else {
                    old(self).root_of(x)
                },
    {
        let ghost p0 = self.parent@;
        let ghost rk = self.rank@;
        let ghost bd = self.bound@;
        self.parent.set(a, b);
        self.rank = Ghost(union_rank(rk, a as int, b as int));
        self.bound = Ghost(union_bound(rk, bd, a as int, b as int));
        proof {
            assert(self.parent@ == p0.update(a as int, b));
            lemma_union(p0, rk, bd, a as int, b as int, 0);
            assert forall|x: int| 0 <= x < p0.len() implies #[trigger] root(
                self.parent@,
                self.rank@,
                self.bound@,
                x,
            ) == if root(p0, rk, bd, x) == a {
                b as int
            } else {
                root(p0, rk, bd, x)
            } by {
                lemma_union(p0, rk, bd, a as int, b as int, x);
            }
        }
    }
}


/// Every link joins two indices below `n`.
pub open spec fn links_in_range(links: Seq<(usize, usize)>, n: int) -> bool {
    forall|k: int| 0 <= k < links.len() ==> (#[trigger] links[k]).0 < n && links[k].1 < n
}

/// A labelling puts the two ends of every link in the same class.
pub open spec fn respects(label: spec_fn(int) -> int, links: Seq<(usize, usize)>) -> bool {
    forall|k: int| 0 <= k < links.len() ==> label((#[trigger] links[k]).0 as int) == label(links[k].1 as int)
}

/// `labels` are the connected components of the link graph over `0..n`: they respect every link,
/// and they are the finest labelling that does — any labelling respecting the links that separates
/// two indices also finds them in different components.
pub open spec fn is_components(labels: Seq<usize>, n: int, links: Seq<(usize, usize)>) -> bool {
    &&& labels.len() == n
    &&& forall|i: int| 0 <= i < n ==> (#[trigger] labels[i] as int) < n
    &&& respects(|i: int| labels[i] as int, links)
    &&& forall|lab: spec_fn(int) -> int, i: int, j: int|
        #![trigger respects(lab, links), lab(i), lab(j)]
        respects(lab, links) && 0 <= i < n && 0 <= j < n && labels[i] == labels[j] ==> lab(i) == lab(j)
}

/// Friends-of-friends components: a component label (the representative index) for each of the `n`
/// particles, given the links between particles within the linking length.
pub fn link_components(n: usize, links: &Vec<(usize, usize)>) -> (labels: Vec<usize>)
    requires
        links_in_range(links@, n as int),
    ensures
        is_components(labels@, n as int, links@),
{
    let mut uf = UnionFind::new(n);
    let mut k: usize = 0;
    while k < links.len()
        invariant
            uf.inv(),
            uf.size() == n,
            k <= links@.len(),
            links_in_range(links@, n as int),
            forall|m: int| 0 <= m < k ==> uf.root_of((#[trigger] links@[m]).0 as int) == uf.root_of(links@[m].1 as int),
            forall|lab: spec_fn(int) -> int, x: int|
                #![trigger respects(lab, links@), lab(x)]
                respects(lab, links@) && 0 <= x < n ==> lab(x) == lab(uf.root_of(x)),
        decreases links@.len() - k,
    {
        let (i, j) = links[k];
        assert(links@[k as int] == (i, j));
        let ghost before = uf;
        let a = uf.find(i);
        let ghost mid = uf;
        let b = uf.find(j);
        proof {
            lemma_root_props(before.parent@, before.rank@, before.bound@, i as int);
            lemma_root_props(before.parent@, before.rank@, before.bound@, j as int);
            assert(mid.root_of(j as int) == before.root_of(j as int));
            lemma_root_props(uf.parent@, uf.rank@, uf.bound@, a as int);
            lemma_root_props(uf.parent@, uf.rank@, uf.bound@, b as int);
            assert(uf.root_of(a as int) == before.root_of(a as int));
            assert(uf.root_of(b as int) == before.root_of(b as int));
        }
        if a != b {
            let ghost pre = uf;
            uf.union_roots(a, b);
            proof {
                assert forall|lab: spec_fn(int) -> int, x: int|
                    #![trigger respects(lab, links@), lab(x)]
                    respects(lab, links@) && 0 <= x < n implies lab(x) == lab(uf.root_of(x)) by {
                    assert(lab(x) == lab(before.root_of(x)));
                    assert(pre.root_of(x) == before.root_of(x));
                    if pre.root_of(x) == a {
                        assert(lab(i as int) == lab(before.root_of(i as int)));
                        assert(lab(j as int) == lab(before.root_of(j as int)));
                        assert(lab(i as int) == lab(j as int));
                    }
                }
                assert forall|m: int| 0 <= m < k + 1 implies uf.root_of((#[trigger] links@[m]).0 as int)
                    == uf.root_of(links@[m].1 as int) by {
                    assert(pre.root_of(links@[m].0 as int) == before.root_of(links@[m].0 as int));
                    assert(pre.root_of(links@[m].1 as int) == before.root_of(links@[m].1 as int));
                }
            }
        } else {
            proof {
                assert forall|m: int| 0 <= m < k + 1 implies uf.root_of((#[trigger] links@[m]).0 as int)
                    == uf.root_of(links@[m].1 as int) by {
                    assert(uf.root_of(links@[m].0 as int) == before.root_of(links@[m].0 as int));
                    assert(uf.root_of(links@[m].1 as int) == before.root_of(links@[m].1 as int));
                }
                assert forall|lab: spec_fn(int) -> int, x: int|
                    #![trigger respects(lab, links@), lab(x)]
                    respects(lab, links@) && 0 <= x < n implies lab(x) == lab(uf.root_of(x)) by {
                    assert(lab(x) == lab(before.root_of(x)));
                }
            }
        }
        k = k + 1;
    }
    let ghost settled = uf;
    let mut labels: Vec<usize> = Vec::new();
    let mut i: usize = 0;
    while i < n
        invariant
            uf.inv(),
            uf.size() == n,
            i <= n,
            labels@.len() == i,
            forall|x: int| 0 <= x < n ==> #[trigger] uf.root_of(x) == settled.root_of(x),
            forall|x: int| 0 <= x < i ==> #[trigger] labels@[x] as int == settled.root_of(x),
        decreases n - i,
    {
        let r = uf.find(i);
        labels.push(r);
        i = i + 1;
    }
    proof {
        assert forall|x: int| 0 <= x < n implies (#[trigger] labels@[x] as int) < n by {
            lemma_root_props(settled.parent@, settled.rank@, settled.bound@, x);
        }
        assert forall|m: int| 0 <= m < links@.len() implies (|i: int| labels@[i] as int)(
            (#[trigger] links@[m]).0 as int,
        ) == (|i: int| labels@[i] as int)(links@[m].1 as int) by {
            assert(settled.root_of(links@[m].0 as int) == settled.root_of(links@[m].1 as int));
        }
        assert forall|lab: spec_fn(int) -> int, x: int, y: int|
            #![trigger respects(lab, links@), lab(x), lab(y)]
            respects(lab, links@) && 0 <= x < n && 0 <= y < n && labels@[x] == labels@[y] implies lab(
                x,
            ) == lab(y) by {
            assert(lab(x) == lab(settled.root_of(x)));
            assert(lab(y) == lab(settled.root_of(y)));
        }
    }
    labels
}


/// `groups` lists the classes of `labels` over `0..n`: each group is a non-empty, strictly
/// increasing run of indices sharing one label; different groups have different labels; every index
/// is in some group; and the groups are ordered by their smallest member.
pub open spec fn is_grouping(groups: Seq<Seq<usize>>, labels: Seq<usize>, n: int) -> bool {
    &&& forall|g: int| 0 <= g < groups.len() ==> (#[trigger] groups[g]).len() > 0
    &&& forall|g: int, k: int|
        0 <= g < groups.len() && 0 <= k < groups[g].len() ==> (#[trigger] groups[g][k] as int) < n
            && labels[groups[g][k] as int] == labels[groups[g][0] as int]
    &&& forall|g: int, k1: int, k2: int|
        0 <= g < groups.len() && 0 <= k1 < k2 < groups[g].len() ==> #[trigger] groups[g][k1]
            < #[trigger] groups[g][k2]
    &&& forall|g1: int, g2: int|
        0 <= g1 < groups.len() && 0 <= g2 < groups.len() && g1 != g2 ==> labels[#[trigger] groups[g1][0] as int]
            != labels[#[trigger] groups[g2][0] as int]
    &&& forall|g1: int, g2: int|
        0 <= g1 < g2 < groups.len() ==> #[trigger] groups[g1][0] < #[trigger] groups[g2][0]
    &&& forall|i: int| 0 <= i < n ==> #[trigger] in_some_group(groups, i)
}

/// Index `i` is a member of one of the groups.
pub open spec fn in_some_group(groups: Seq<Seq<usize>>, i: int) -> bool {
    exists|g: int, k: int| 0 <= g < groups.len() && 0 <= k < groups[g].len() && #[trigger] groups[g][k] == i
}

/// The index lists held by a vector of vectors.
pub open spec fn views(groups: Seq<Vec<usize>>) -> Seq<Seq<usize>> {
    groups.map_values(|v: Vec<usize>| v@)
}

/// Gather the members of each class of `labels` (class representatives are indices below `n`).
pub fn group_members(labels: &Vec<usize>) -> (groups: Vec<Vec<usize>>)
    requires
        forall|i: int| 0 <= i < labels@.len() ==> (#[trigger] labels@[i] as int) < labels@.len(),
    ensures
        is_grouping(views(groups@), labels@, labels@.len() as int),
{
    let n = labels.len();
    let mut slot: Vec<usize> = Vec::new();
    let mut t: usize = 0;
    while t < n
        invariant
            t <= n,
            slot@.len() == t,
            forall|r: int| 0 <= r < t ==> #[trigger] slot@[r] == n,
        decreases n - t,
    {
        slot.push(n);
        t = t + 1;
    }
    let mut groups: Vec<Vec<usize>> = Vec::new();
    let mut i: usize = 0;
    while i < n
        invariant
            n == labels@.len(),
            forall|x: int| 0 <= x < n ==> (#[trigger] labels@[x] as int) < n,
            i <= n,
            groups@.len() <= i,
            slot@.len() == n,
            // a label's slot is empty exactly when no group carries it, and otherwise names that group
            forall|r: int|
                0 <= r < n ==> (#[trigger] slot@[r] == n <==> !exists|g: int|
                    0 <= g < groups@.len() && labels@[groups@[g]@[0] as int] == r),
            forall|r: int|
                0 <= r < n && #[trigger] slot@[r] != n ==> slot@[r] < groups@.len()
                    && labels@[groups@[slot@[r] as int]@[0] as int] == r,
            forall|g: int| 0 <= g < groups@.len() ==> (#[trigger] groups@[g])@.len() > 0,
            forall|g: int, k: int|
                0 <= g < groups@.len() && 0 <= k < groups@[g]@.len() ==> (#[trigger] groups@[g]@[k]
                    as int) < i && labels@[groups@[g]@[k] as int] == labels@[groups@[g]@[0] as int],
            forall|g: int, k1: int, k2: int|
                0 <= g < groups@.len() && 0 <= k1 < k2 < groups@[g]@.len() ==> #[trigger] groups@[g]@[k1]
                    < #[trigger] groups@[g]@[k2],
            forall|g1: int, g2: int|
                0 <= g1 < groups@.len() && 0 <= g2 < groups@.len() && g1 != g2 ==> labels@[#[trigger] groups@[g1]@[0] as int]
                    != labels@[#[trigger] groups@[g2]@[0] as int],
            forall|g1: int, g2: int|
                0 <= g1 < g2 < groups@.len() ==> #[trigger] groups@[g1]@[0] < #[trigger] groups@[g2]@[0],
            forall|x: int| 0 <= x < i ==> #[trigger] in_some_group(views(groups@), x),
        decreases n - i,
    {
        let r = labels[i];
        let ghost old_groups = groups@;
        if slot[r] == n {
            let s = groups.len();
            let mut fresh: Vec<usize> = Vec::new();
            fresh.push(i);
            groups.push(fresh);
            slot.set(r, s);
            proof {
                assert(groups@[s as int]@ == seq![i]);
                assert forall|q: int|
                    0 <= q < n implies (#[trigger] slot@[q] == n <==> !exists|g: int|
                        0 <= g < groups@.len() && labels@[groups@[g]@[0] as int] == q) by {
                    if q == r {
                        assert(labels@[groups@[s as int]@[0] as int] == q);
                    } else if slot@[q] == n {
                        assert(!exists|g: int| 0 <= g < old_groups.len() && labels@[old_groups[g]@[0] as int] == q);
                        assert forall|g: int| 0 <= g < groups@.len() implies labels@[groups@[g]@[0] as int] != q by {
                            if g < old_groups.len() {
                                assert(groups@[g] == old_groups[g]);
                            }
                        }
                    } else {
                        let g = slot@[q] as int;
                        assert(groups@[g] == old_groups[g]);
                    }
                }
                assert forall|g1: int, g2: int|
                    0 <= g1 < groups@.len() && 0 <= g2 < groups@.len() && g1 != g2 implies labels@[#[trigger] groups@[g1]@[0] as int]
                        != labels@[#[trigger] groups@[g2]@[0] as int] by {
                    if g1 == s as int {
                        assert(groups@[g2] == old_groups[g2]);
                    } else if g2 == s as int {
                        assert(groups@[g1] == old_groups[g1]);
                    } else {
                        assert(groups@[g1] == old_groups[g1]);
                        assert(groups@[g2] == old_groups[g2]);
                    }
                }
                assert forall|x: int| 0 <= x < i + 1 implies #[trigger] in_some_group(
                    views(groups@),
                    x,
                ) by {
                    if x == i {
                        assert(views(groups@)[s as int][0] == i);
                    } else {
                        assert(in_some_group(views(old_groups), x));
                        let (g, k) = choose|g: int, k: int|
                            0 <= g < old_groups.len() && 0 <= k < old_groups[g]@.len()
                                && #[trigger] views(old_groups)[g][k] == x;
                        assert(views(groups@)[g][k] == x);
                    }
                }
            }
        } else {
            let s = slot[r];
            let mut grown = groups[s].clone();
            grown.push(i);
            groups.set(s, grown);
            proof {
                assert(groups@[s as int]@ == old_groups[s as int]@.push(i));
                assert forall|q: int|
                    0 <= q < n implies (#[trigger] slot@[q] == n <==> !exists|g: int|
                        0 <= g < groups@.len() && labels@[groups@[g]@[0] as int] == q) by {
                    if slot@[q] == n {
                        assert(!exists|g: int| 0 <= g < old_groups.len() && labels@[old_groups[g]@[0] as int] == q);
                        assert forall|g: int| 0 <= g < groups@.len() implies labels@[groups@[g]@[0] as int] != q by {
                            assert(groups@[g]@[0] == old_groups[g]@[0]);
                        }
                    } else {
                        let g = slot@[q] as int;
                        assert(groups@[g]@[0] == old_groups[g]@[0]);
                    }
                }
                assert forall|g: int, k: int|
                    0 <= g < groups@.len() && 0 <= k < groups@[g]@.len() implies (#[trigger] groups@[g]@[k]
                        as int) < i + 1 && labels@[groups@[g]@[k] as int] == labels@[groups@[g]@[0] as int] by {
                    if g == s as int && k == old_groups[g]@.len() {
                        assert(groups@[g]@[k] == i);
                    } else {
                        assert(groups@[g]@[k] == old_groups[g]@[k]);
                        assert(groups@[g]@[0] == old_groups[g]@[0]);
                    }
                }
                assert forall|g: int, k1: int, k2: int|
                    0 <= g < groups@.len() && 0 <= k1 < k2 < groups@[g]@.len() implies #[trigger] groups@[g]@[k1]
                        < #[trigger] groups@[g]@[k2] by {
                    assert(groups@[g]@[k1] == old_groups[g]@[k1]);
                    if !(g == s as int && k2 == old_groups[g]@.len()) {
                        assert(groups@[g]@[k2] == old_groups[g]@[k2]);
                    }
                }
                assert forall|g1: int, g2: int|
                    0 <= g1 < groups@.len() && 0 <= g2 < groups@.len() && g1 != g2 implies labels@[#[trigger] groups@[g1]@[0] as int]
                        != labels@[#[trigger] groups@[g2]@[0] as int] by {
                    assert(groups@[g1]@[0] == old_groups[g1]@[0]);
                    assert(groups@[g2]@[0] == old_groups[g2]@[0]);
                }
                assert forall|g1: int, g2: int|
                    0 <= g1 < g2 < groups@.len() implies #[trigger] groups@[g1]@[0] < #[trigger] groups@[g2]@[0] by {
                    assert(groups@[g1]@[0] == old_groups[g1]@[0]);
                    assert(groups@[g2]@[0] == old_groups[g2]@[0]);
                }
                assert forall|x: int| 0 <= x < i + 1 implies #[trigger] in_some_group(
                    views(groups@),
                    x,
                ) by {
                    if x == i {
                        let k = old_groups[s as int]@.len() as int;
                        assert(views(groups@)[s as int][k] == i);
                    } else {
                        assert(in_some_group(views(old_groups), x));
                        let (g, k) = choose|g: int, k: int|
                            0 <= g < old_groups.len() && 0 <= k < old_groups[g]@.len()
                                && #[trigger] views(old_groups)[g][k] == x;
                        assert(groups@[g]@[k] == old_groups[g]@[k]);
                        assert(views(groups@)[g][k] == x);
                    }
                }
            }
        }
        i = i + 1;
    }
    groups
}


/// Friends-of-friends clumps of `n` particles: the connected components of the link graph, each
/// listed as its increasing member indices, clumps ordered by their smallest member.
pub fn friends_of_friends(n: usize, links: &Vec<(usize, usize)>) -> (clumps: Vec<Vec<usize>>)
    requires
        links_in_range(links@, n as int),
    ensures
        exists|labels: Seq<usize>|
            #[trigger] is_components(labels, n as int, links@) && is_grouping(views(clumps@), labels, n as int),
{
    let labels = link_components(n, links);
    let clumps = group_members(&labels);
    assert(is_components(labels@, n as int, links@) && is_grouping(views(clumps@), labels@, n as int));
    clumps
}

/// A clump as the accretion gate sees it: its member particles and the two physical verdicts the
/// caller computed — gravitationally self-bound, and beyond the central body's Roche limit.
pub struct Clump {
    pub members: Vec<usize>,
    pub bound: bool,
    pub outside_roche: bool,
}

impl Clump {
    pub open spec fn accretes_spec(&self) -> bool {
        self.members@.len() >= 2 && self.bound && self.outside_roche
    }

    /// Does this clump accrete into one body? Bound, outside Roche, and more than one member.
    pub fn accretes(&self) -> (b: bool)
        ensures
            b == self.accretes_spec(),
            b <==> (self.members@.len() >= 2 && self.bound && self.outside_roche),
            !self.bound ==> !b,
            !self.outside_roche ==> !b,
            self.members@.len() < 2 ==> !b,
    {
        self.members.len() >= 2 && self.bound && self.outside_roche
    }
}

/// Particle `x` belongs to a clump that accretes.
pub open spec fn consumed_by(clumps: Seq<Clump>, x: int) -> bool {
    exists|c: int, k: int|
        0 <= c < clumps.len() && clumps[c].accretes_spec() && 0 <= k < clumps[c].members@.len()
            && #[trigger] clumps[c].members@[k] == x
}

/// Every member index is below `n`, and no particle is listed twice (across or within clumps) —
/// true of clumps that partition a particle field.
pub open spec fn clumps_disjoint_below(clumps: Seq<Clump>, n: int) -> bool {
    &&& forall|c: int, k: int|
        0 <= c < clumps.len() && 0 <= k < clumps[c].members@.len() ==> (#[trigger] clumps[c].members@[k]
            as int) < n
    &&& forall|c1: int, k1: int, c2: int, k2: int|
        0 <= c1 < clumps.len() && 0 <= k1 < clumps[c1].members@.len() && 0 <= c2 < clumps.len() && 0
            <= k2 < clumps[c2].members@.len() && (c1 != c2 || k1 != k2) ==> #[trigger] clumps[c1].members@[k1]
            != #[trigger] clumps[c2].members@[k2]
}

/// A clump accretes exactly when it has at least two members, is self-bound and lies outside the
/// Roche limit: an unbound (hot) group, a clump inside the Roche limit, or a lone particle never
/// becomes a body.
pub proof fn lemma_accretion_gate(c: Clump)
    ensures
        c.accretes_spec() <==> (c.members@.len() >= 2 && c.bound && c.outside_roche),
        !c.bound ==> !c.accretes_spec(),
        !c.outside_roche ==> !c.accretes_spec(),
        c.members@.len() < 2 ==> !c.accretes_spec(),
{
}

/// In a partition of the particles into clumps, a member is consumed exactly when its clump has at
/// least two members, is self-bound and lies outside the Roche limit: the members of an unbound
/// group, of a clump inside the Roche limit, or a lone particle stay particles.
pub proof fn lemma_consumed_exactly_by_the_gate(clumps: Seq<Clump>, n: int, c: int, k: int)
    requires
        clumps_disjoint_below(clumps, n),
        0 <= c < clumps.len(),
        0 <= k < clumps[c].members@.len(),
    ensures
        consumed_by(clumps, clumps[c].members@[k] as int) <==> (clumps[c].members@.len() >= 2
            && clumps[c].bound && clumps[c].outside_roche),
{
    let x = clumps[c].members@[k] as int;
    if consumed_by(clumps, x) {
        let (c2, k2) = choose|c2: int, k2: int|
            0 <= c2 < clumps.len() && clumps[c2].accretes_spec() && 0 <= k2 < clumps[c2].members@.len()
                && #[trigger] clumps[c2].members@[k2] == x;
        if c2 != c || k2 != k {
            assert(clumps[c2].members@[k2] != clumps[c].members@[k]);
        }
    }
    if clumps[c].members@.len() >= 2 && clumps[c].bound && clumps[c].outside_roche {
        assert(clumps[c].members@[k] == x);
    }
}

/// The particles absorbed by one accretion pass: the members of every accreting clump, sorted.
/// (Everything else remains a particle.)
pub fn consumed_indices(clumps: &Vec<Clump>, n: usize) -> (consumed: Vec<usize>)
    requires
        clumps_disjoint_below(clumps@, n as int),
    ensures
        forall|a: int, b: int| 0 <= a < b < consumed@.len() ==> #[trigger] consumed@[a] < #[trigger] consumed@[b],
        forall|a: int| 0 <= a < consumed@.len() ==> (#[trigger] consumed@[a] as int) < n,
        forall|x: int| 0 <= x < n ==> (consumed@.contains(x as usize) <==> #[trigger] consumed_by(clumps@, x)),
        forall|c: int, k: int|
            0 <= c < clumps@.len() && 0 <= k < clumps@[c].members@.len() ==> (consumed@.contains(
                #[trigger] clumps@[c].members@[k],
            ) <==> (clumps@[c].members@.len() >= 2 && clumps@[c].bound && clumps@[c].outside_roche)),
{
    let mut mask: Vec<bool> = Vec::new();
    let mut t: usize = 0;
    while t < n
        invariant
            t <= n,
            mask@.len() == t,
            forall|x: int| 0 <= x < t ==> !#[trigger] mask@[x],
        decreases n - t,
    {
        mask.push(false);
        t = t + 1;
    }
    let mut c: usize = 0;
    while c < clumps.len()
        invariant
            c <= clumps@.len(),
            mask@.len() == n,
            clumps_disjoint_below(clumps@, n as int),
            forall|x: int|
                0 <= x < n ==> (#[trigger] mask@[x] <==> exists|c2: int, k: int|
                    0 <= c2 < c && clumps@[c2].accretes_spec() && 0 <= k < clumps@[c2].members@.len()
                        && #[trigger] clumps@[c2].members@[k] == x),
        decreases clumps@.len() - c,
    {
        let clump = &clumps[c];
        if clump.accretes() {
            let mut k: usize = 0;
            let ghost before = mask@;
            while k < clump.members.len()
                invariant
                    k <= clump.members@.len(),
                    clump == clumps@[c as int],
                    c < clumps@.len(),
                    clump.accretes_spec(),
                    mask@.len() == n,
                    before.len() == n,
                    clumps_disjoint_below(clumps@, n as int),
                    forall|x: int|
                        0 <= x < n ==> (#[trigger] mask@[x] <==> (before[x] || exists|k2: int|
                            0 <= k2 < k && #[trigger] clump.members@[k2] == x)),
                decreases clump.members@.len() - k,
            {
                let m = clump.members[k];
                assert(clumps@[c as int].members@[k as int] == m);
                mask.set(m, true);
                proof {
                    assert forall|x: int| 0 <= x < n implies (#[trigger] mask@[x] <==> (before[x] || exists|k2: int|
                        0 <= k2 < k + 1 && #[trigger] clump.members@[k2] == x)) by {
                        if x == m as int {
                            assert(clump.members@[k as int] == x);
                        }
                    }
                }
                k = k + 1;
            }
            proof {
                assert forall|x: int|
                    0 <= x < n implies (#[trigger] mask@[x] <==> exists|c2: int, k2: int|
                        0 <= c2 < c + 1 && clumps@[c2].accretes_spec() && 0 <= k2 < clumps@[c2].members@.len()
                            && #[trigger] clumps@[c2].members@[k2] == x) by {
                    if mask@[x] && !before[x] {
                        let k2 = choose|k2: int| 0 <= k2 < clump.members@.len() && #[trigger] clump.members@[k2] == x;
                        assert(clumps@[c as int].members@[k2] == x);
                    }
                    if exists|c2: int, k2: int|
                        0 <= c2 < c + 1 && clumps@[c2].accretes_spec() && 0 <= k2 < clumps@[c2].members@.len()
                            && #[trigger] clumps@[c2].members@[k2] == x {
                        let (c2, k2) = choose|c2: int, k2: int|
                            0 <= c2 < c + 1 && clumps@[c2].accretes_spec() && 0 <= k2 < clumps@[c2].members@.len()
                                && #[trigger] clumps@[c2].members@[k2] == x;
                        if c2 == c as int {
                            assert(clump.members@[k2] == x);
                        }
                    }
                }
            }
        }
        c = c + 1;
    }
    let mut consumed: Vec<usize> = Vec::new();
    let mut i: usize = 0;
    while i < n
        invariant
            i <= n,
            mask@.len() == n,
            forall|a: int, b: int| 0 <= a < b < consumed@.len() ==> #[trigger] consumed@[a] < #[trigger] consumed@[b],
            forall|a: int| 0 <= a < consumed@.len() ==> (#[trigger] consumed@[a] as int) < i,
            forall|x: int| 0 <= x < i ==> (consumed@.contains(x as usize) <==> #[trigger] mask@[x]),
            forall|x: int| i <= x < n ==> !#[trigger] consumed@.contains(x as usize),
        decreases n - i,
    {
        let ghost before = consumed@;
        if mask[i] {
            consumed.push(i);
            proof {
                assert(consumed@[before.len() as int] == i);
                assert forall|x: int| 0 <= x < i + 1 implies (consumed@.contains(x as usize) <==> #[trigger] mask@[x]) by {
                    if x < i {
                        if consumed@.contains(x as usize) {
                            let a = choose|a: int| 0 <= a < consumed@.len() && consumed@[a] == x as usize;
                            if a < before.len() {
                                assert(before.contains(x as usize));
                            }
                        }
                        if before.contains(x as usize) {
                            let a = choose|a: int| 0 <= a < before.len() && before[a] == x as usize;
                            assert(consumed@[a] == x as usize);
                        }
                    }
                }
                assert forall|x: int| i + 1 <= x < n implies !#[trigger] consumed@.contains(x as usize) by {
                    if consumed@.contains(x as usize) {
                        let a = choose|a: int| 0 <= a < consumed@.len() && consumed@[a] == x as usize;
                        if a < before.len() {
                            assert(before.contains(x as usize));
                        }
                    }
                }
            }
        }
        i = i + 1;
    }
    proof {
        assert forall|x: int| 0 <= x < n implies (consumed@.contains(x as usize) <==> #[trigger] consumed_by(
            clumps@,
            x,
        )) by {
            assert(consumed@.contains(x as usize) <==> mask@[x]);
        }
        assert forall|c: int, k: int|
            0 <= c < clumps@.len() && 0 <= k < clumps@[c].members@.len() implies (consumed@.contains(
                #[trigger] clumps@[c].members@[k],
            ) <==> (clumps@[c].members@.len() >= 2 && clumps@[c].bound && clumps@[c].outside_roche)) by {
            lemma_consumed_exactly_by_the_gate(clumps@, n as int, c, k);
            let x = clumps@[c].members@[k] as int;
            assert(consumed@.contains(x as usize) <==> consumed_by(clumps@, x));
        }
    }
    consumed
}

} // verus!
