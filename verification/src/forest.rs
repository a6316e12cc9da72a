//! Disjoint-set forest over grid cells.
//!
//! The forest is a vector of parent pointers: `f[i]` is the parent of cell
//! `i`, and a cell that is its own parent is the root of its set. `find_root`
//! follows parent pointers to the root; `union` links the root of the cell
//! with the shorter path under the root of the cell with the longer one.

use vstd::prelude::*;

verus! {

/// Every parent pointer stays inside the vector.
pub open spec fn parents_in_range(f: Seq<usize>) -> bool {
    forall|i: int| 0 <= i < f.len() ==> (#[trigger] f[i]) < f.len()
}

/// Does following parent pointers from `i` hit a root within `k` hops?
pub open spec fn reaches_root(f: Seq<usize>, i: int, k: nat) -> bool
    decreases k,
{
    if f[i] as int == i {
        true
    } else if k == 0 {
        false
    } else {
        reaches_root(f, f[i] as int, (k - 1) as nat)
    }
}

/// The root reached from `i`, computed with fuel `k`; meaningful once
/// `reaches_root(f, i, k)` holds.
pub open spec fn root_within(f: Seq<usize>, i: int, k: nat) -> int
    decreases k,
{
    if f[i] as int == i || k == 0 {
        i
    } else {
        root_within(f, f[i] as int, (k - 1) as nat)
    }
}

/// Hop count from `i` to its root, computed with fuel `k`.
pub open spec fn hops_within(f: Seq<usize>, i: int, k: nat) -> nat
    decreases k,
{
    if f[i] as int == i || k == 0 {
        0
    } else {
        hops_within(f, f[i] as int, (k - 1) as nat) + 1
    }
}

/// Number of roots among the first `k` cells.
pub open spec fn roots_below(f: Seq<usize>, k: int) -> nat
    decreases k,
{
    if k <= 0 {
        0
    } else {
        roots_below(f, k - 1) + if f[k - 1] as int == k - 1 {
            1nat
        } else {
            0nat
        }
    }
}

/// Number of cells that are their own parent, i.e. the number of sets.
pub open spec fn num_roots(f: Seq<usize>) -> nat {
    roots_below(f, f.len() as int)
}

/// Fuel that always suffices to reach a root in a well-formed forest: each
/// successful `union` turns exactly one root into a non-root and lengthens
/// paths by at most one hop, so path lengths never exceed the number of
/// non-root cells.
pub open spec fn path_fuel(f: Seq<usize>) -> nat {
    (f.len() - num_roots(f)) as nat
}

/// Well-formed forest: the cell count fits the machine, parent pointers stay
/// in range, and every cell reaches a root within the path fuel.
pub open spec fn forest_wf(f: Seq<usize>) -> bool {
    &&& f.len() <= usize::MAX
    &&& parents_in_range(f)
    &&& forall|i: int| 0 <= i < f.len() ==> reaches_root(f, i, path_fuel(f))
}

/// The representative of the set containing cell `i`.
pub open spec fn root_of(f: Seq<usize>, i: int) -> int {
    root_within(f, i, path_fuel(f))
}

/// Length of the parent-pointer path from `i` to its root.
pub open spec fn hops_to_root(f: Seq<usize>, i: int) -> nat {
    hops_within(f, i, path_fuel(f))
}

proof fn lemma_reaches_mono(f: Seq<usize>, i: int, k1: nat, k2: nat)
    requires
        reaches_root(f, i, k1),
        k1 <= k2,
    ensures
        reaches_root(f, i, k2),
    decreases k1,
{
    if f[i] as int != i {
        lemma_reaches_mono(f, f[i] as int, (k1 - 1) as nat, (k2 - 1) as nat);
    }
}

proof fn lemma_hops_le_fuel(f: Seq<usize>, i: int, k: nat)
    requires
        reaches_root(f, i, k),
    ensures
        hops_within(f, i, k) <= k,
    decreases k,
{
    if f[i] as int != i {
        lemma_hops_le_fuel(f, f[i] as int, (k - 1) as nat);
    }
}

proof fn lemma_fuel_agrees(f: Seq<usize>, i: int, k1: nat, k2: nat)
    requires
        reaches_root(f, i, k1),
        reaches_root(f, i, k2),
    ensures
        root_within(f, i, k1) == root_within(f, i, k2),
        hops_within(f, i, k1) == hops_within(f, i, k2),
    decreases k1,
{
    if f[i] as int != i {
        lemma_fuel_agrees(f, f[i] as int, (k1 - 1) as nat, (k2 - 1) as nat);
    }
}

/// Stepping from a non-root cell to its parent keeps the root and shortens
/// the path by exactly one hop.
pub proof fn lemma_root_step(f: Seq<usize>, i: int)
    requires
        forest_wf(f),
        0 <= i < f.len(),
        f[i] as int != i,
    ensures
        reaches_root(f, f[i] as int, path_fuel(f)),
        root_of(f, i) == root_of(f, f[i] as int),
        hops_to_root(f, i) == hops_to_root(f, f[i] as int) + 1,
{
    let k = path_fuel(f);
    assert(reaches_root(f, i, k));
    lemma_reaches_mono(f, f[i] as int, (k - 1) as nat, k);
    lemma_fuel_agrees(f, f[i] as int, (k - 1) as nat, k);
}

/// The root of a cell is in range, is its own parent, and is its own root;
/// the path to it is no longer than the path fuel.
pub proof fn lemma_root_props(f: Seq<usize>, i: int)
    requires
        forest_wf(f),
        0 <= i < f.len(),
    ensures
        0 <= root_of(f, i) < f.len(),
        f[root_of(f, i)] as int == root_of(f, i),
        root_of(f, root_of(f, i)) == root_of(f, i),
        hops_to_root(f, i) <= path_fuel(f),
        f[i] as int == i ==> root_of(f, i) == i && hops_to_root(f, i) == 0,
        f[i] as int != i ==> hops_to_root(f, i) >= 1,
    decreases hops_to_root(f, i),
{
    assert(reaches_root(f, i, path_fuel(f)));
    lemma_hops_le_fuel(f, i, path_fuel(f));
    if f[i] as int != i {
        lemma_root_step(f, i);
        lemma_root_props(f, f[i] as int);
    }
}

proof fn lemma_roots_below_le(f: Seq<usize>, k: int)
    requires
        0 <= k,
    ensures
        roots_below(f, k) <= k,
    decreases k,
{
    if k > 0 {
        lemma_roots_below_le(f, k - 1);
    }
}

proof fn lemma_roots_below_identity(f: Seq<usize>, k: int)
    requires
        0 <= k <= f.len(),
        forall|i: int| 0 <= i < f.len() ==> f[i] as int == i,
    ensures
        roots_below(f, k) == k,
    decreases k,
{
    if k > 0 {
        lemma_roots_below_identity(f, k - 1);
    }
}

/// A forest where every cell is its own parent is well formed, every cell is
/// its own root, and every set is a singleton.
pub proof fn lemma_identity_forest(f: Seq<usize>)
    requires
        f.len() <= usize::MAX,
        forall|i: int| 0 <= i < f.len() ==> f[i] as int == i,
    ensures
        forest_wf(f),
        num_roots(f) == f.len(),
        path_fuel(f) == 0,
        forall|i: int| 0 <= i < f.len() ==> root_of(f, i) == i,
        forall|i: int| 0 <= i < f.len() ==> hops_to_root(f, i) == 0,
{
    lemma_roots_below_identity(f, f.len() as int);
}

proof fn lemma_roots_below_update(f: Seq<usize>, c: int, p: int, k: int)
    requires
        f.len() <= usize::MAX,
        0 <= c < f.len(),
        0 <= p < f.len(),
        c != p,
        f[c] as int == c,
        0 <= k <= f.len(),
    ensures
        roots_below(f.update(c, p as usize), k) + (if c < k {
            1nat
        } else {
            0nat
        }) == roots_below(f, k),
    decreases k,
{
    if k > 0 {
        lemma_roots_below_update(f, c, p, k - 1);
    }
}

proof fn lemma_update_reaches(f: Seq<usize>, c: int, p: int, x: int, k: nat)
    requires
        f.len() <= usize::MAX,
        parents_in_range(f),
        0 <= c < f.len(),
        0 <= p < f.len(),
        c != p,
        f[c] as int == c,
        f[p] as int == p,
        0 <= x < f.len(),
        reaches_root(f, x, k),
    ensures
        reaches_root(f.update(c, p as usize), x, (k + 1) as nat),
        root_within(f.update(c, p as usize), x, (k + 1) as nat) == (if root_within(f, x, k) == c {
            p
        } else {
            root_within(f, x, k)
        }),
    decreases k,
{
    let g = f.update(c, p as usize);
    if f[x] as int == x {
        if x == c {
            assert(g[x] as int == p);
            assert(g[p] as int == p);
            assert(reaches_root(g, p, k));
            assert(root_within(g, p, k) == p);
        } else {
            assert(g[x] as int == x);
        }
    } else {
        assert(f[x] < f.len());
        lemma_update_reaches(f, c, p, f[x] as int, (k - 1) as nat);
        assert(g[x] == f[x]);
        assert(reaches_root(g, f[x] as int, k));
        assert(reaches_root(g, x, (k + 1) as nat));
        assert(root_within(g, x, (k + 1) as nat) == root_within(g, f[x] as int, k));
        assert(root_within(f, x, k) == root_within(f, f[x] as int, (k - 1) as nat));
    }
}

/// Linking root `c` under root `p` keeps the forest well formed, removes one
/// root, and redirects exactly the cells whose root was `c` to `p`.
pub proof fn lemma_link_roots(f: Seq<usize>, c: int, p: int)
    requires
        forest_wf(f),
        0 <= c < f.len(),
        0 <= p < f.len(),
        c != p,
        f[c] as int == c,
        f[p] as int == p,
    ensures
        forest_wf(f.update(c, p as usize)),
        num_roots(f.update(c, p as usize)) + 1 == num_roots(f),
        path_fuel(f.update(c, p as usize)) == path_fuel(f) + 1,
        forall|x: int| 0 <= x < f.len() ==> root_of(f.update(c, p as usize), x) == (if root_of(
            f,
            x,
        ) == c {
            p
        } else {
            root_of(f, x)
        }),
{
    let g = f.update(c, p as usize);
    lemma_roots_below_update(f, c, p, f.len() as int);
    lemma_roots_below_le(f, f.len() as int);
    assert(num_roots(g) + 1 == num_roots(f));
    assert(path_fuel(g) == path_fuel(f) + 1);
    assert forall|x: int| 0 <= x < g.len() implies reaches_root(g, x, path_fuel(g)) by {
        assert(reaches_root(f, x, path_fuel(f)));
        lemma_update_reaches(f, c, p, x, path_fuel(f));
    }
    assert forall|x: int| 0 <= x < f.len() implies root_of(g, x) == (if root_of(f, x) == c {
        p
    } else {
        root_of(f, x)
    }) by {
        assert(reaches_root(f, x, path_fuel(f)));
        lemma_update_reaches(f, c, p, x, path_fuel(f));
    }
    assert(parents_in_range(g));
}

/// Which root becomes the child when merging the sets of `i` and `j`: the
/// root of the cell with the shorter path, a union-by-rank-like heuristic
/// that uses path length in place of a maintained rank.
pub open spec fn union_child(f: Seq<usize>, i: int, j: int) -> int {
    if hops_to_root(f, i) < hops_to_root(f, j) {
        root_of(f, i)
    } else {
        root_of(f, j)
    }
}

/// The root that the child root is attached under when merging the sets of
/// `i` and `j`.
pub open spec fn union_parent(f: Seq<usize>, i: int, j: int) -> int {
    if hops_to_root(f, i) < hops_to_root(f, j) {
        root_of(f, j)
    } else {
        root_of(f, i)
    }
}

/// Follows parent pointers from cell `i` until reaching a cell that is its
/// own parent; returns that root together with `ht` plus the number of hops
/// traversed.
pub fn find_root(arr: &Vec<usize>, i: usize, ht: usize) -> (r: (usize, usize))
    requires
        forest_wf(arr@),
        i < arr@.len(),
        ht + path_fuel(arr@) <= usize::MAX,
    ensures
        r.0 as int == root_of(arr@, i as int),
        r.1 as int == ht + hops_to_root(arr@, i as int),
{
    proof {
        lemma_root_props(arr@, i as int);
    }
    let mut cur: usize = i;
    let mut count: usize = ht;
    loop
        invariant
            forest_wf(arr@),
            cur < arr@.len(),
            root_of(arr@, cur as int) == root_of(arr@, i as int),
            count + hops_to_root(arr@, cur as int) == ht + hops_to_root(arr@, i as int),
            ht + hops_to_root(arr@, i as int) <= usize::MAX,
        decreases hops_to_root(arr@, cur as int),
    {
        let p = arr[cur];
        if p == cur {
            proof {
                lemma_root_props(arr@, cur as int);
            }
            return (cur, count);
        }
        proof {
            lemma_root_step(arr@, cur as int);
            lemma_root_props(arr@, cur as int);
        }
        cur = p;
        count = count + 1;
    }
}

/// Merges the sets of cells `i` and `j`. Returns `false` and leaves the
/// forest untouched when they are already in the same set; otherwise attaches
/// the root of the shorter path under the root of the longer one and returns
/// `true`, mutating exactly that one entry.
pub fn union(arr: &mut Vec<usize>, i: usize, j: usize) -> (r: bool)
    requires
        forest_wf(old(arr)@),
        i < old(arr)@.len(),
        j < old(arr)@.len(),
    ensures
        final(arr)@.len() == old(arr)@.len(),
        forest_wf(final(arr)@),
        r == (root_of(old(arr)@, i as int) != root_of(old(arr)@, j as int)),
        i == j ==> !r,
        !r ==> final(arr)@ == old(arr)@,
        r ==> final(arr)@ == old(arr)@.update(
            union_child(old(arr)@, i as int, j as int),
            union_parent(old(arr)@, i as int, j as int) as usize,
        ),
        r ==> num_roots(final(arr)@) + 1 == num_roots(old(arr)@),
        !r ==> num_roots(final(arr)@) == num_roots(old(arr)@),
        forall|x: int|
            0 <= x < old(arr)@.len() ==> root_of(final(arr)@, x) == (if r && root_of(old(arr)@, x)
                == union_child(old(arr)@, i as int, j as int) {
                union_parent(old(arr)@, i as int, j as int)
            } else {
                root_of(old(arr)@, x)
            }),
{
    proof {
        lemma_roots_below_le(arr@, arr@.len() as int);
    }
    let (i_root, i_ht) = find_root(arr, i, 0);
    let (j_root, j_ht) = find_root(arr, j, 0);
    if i_root == j_root {
        false
    } else {
        proof {
            lemma_root_props(arr@, i as int);
            lemma_root_props(arr@, j as int);
            if i_ht < j_ht {
                lemma_link_roots(arr@, i_root as int, j_root as int);
            } else {
                lemma_link_roots(arr@, j_root as int, i_root as int);
            }
        }
        if i_ht < j_ht {
            arr[i_root] = j_root;
        } else {
            arr[j_root] = i_root;
        }
        true
    }
}

proof fn lemma_roots_below_unique(f: Seq<usize>, r0: int, k: int)
    requires
        forest_wf(f),
        0 <= r0 < f.len(),
        forall|i: int| 0 <= i < f.len() ==> root_of(f, i) == r0,
        0 <= k <= f.len(),
    ensures
        roots_below(f, k) == if r0 < k {
            1nat
        } else {
            0nat
        },
    decreases k,
{
    if k > 0 {
        lemma_roots_below_unique(f, r0, k - 1);
        lemma_root_props(f, k - 1);
    }
}

/// A forest in which every cell has the same root holds exactly one set.
pub proof fn lemma_single_class(f: Seq<usize>, r0: int)
    requires
        forest_wf(f),
        0 <= r0 < f.len(),
        forall|i: int| 0 <= i < f.len() ==> root_of(f, i) == r0,
    ensures
        num_roots(f) == 1,
{
    lemma_roots_below_unique(f, r0, f.len() as int);
}

/// Law: `find_root` is idempotent — without intervening mutation, the root of
/// a cell's root is that root itself, so a second lookup returns the same
/// representative.
pub proof fn lemma_find_root_idempotent(f: Seq<usize>, i: int)
    requires
        forest_wf(f),
        0 <= i < f.len(),
    ensures
        root_of(f, root_of(f, i)) == root_of(f, i),
{
    lemma_root_props(f, i);
}

/// Law: merging is transitive — after a successful `union` of `a` with `b`
/// followed by a successful `union` of `b` with `c`, the cells `a` and `c`
/// share a root. The two forest updates are exactly those that `union`
/// performs when it returns `true`.
pub proof fn lemma_union_transitive(
    f0: Seq<usize>,
    f1: Seq<usize>,
    f2: Seq<usize>,
    a: int,
    b: int,
    c: int,
)
    requires
        forest_wf(f0),
        0 <= a < f0.len(),
        0 <= b < f0.len(),
        0 <= c < f0.len(),
        root_of(f0, a) != root_of(f0, b),
        f1 == f0.update(union_child(f0, a, b), union_parent(f0, a, b) as usize),
        root_of(f1, b) != root_of(f1, c),
        f2 == f1.update(union_child(f1, b, c), union_parent(f1, b, c) as usize),
    ensures
        root_of(f2, a) == root_of(f2, c),
{
    lemma_root_props(f0, a);
    lemma_root_props(f0, b);
    lemma_link_roots(f0, union_child(f0, a, b), union_parent(f0, a, b));
    assert(root_of(f1, a) == root_of(f1, b));
    lemma_root_props(f1, b);
    lemma_root_props(f1, c);
    lemma_link_roots(f1, union_child(f1, b, c), union_parent(f1, b, c));
    assert(root_of(f2, b) == root_of(f2, c));
}

} // verus!
