//! A union-find over names, with path compression in `find`.
//!
//! Every name gets an index; `array` holds each index's parent and a
//! `BiMap` pairs indices (left) with names (right). `union` links the root
//! of the first name's set below the root of the second's, so the second
//! root becomes the representative of the merged set.

use crate::bimap::{law_directions_inverse, BiMap};
use vstd::prelude::*;
use vstd::set_lib::{lemma_int_range, lemma_len_subset, set_int_range};

verus! {

/// Error returned by `union` when one of the names is not in the structure.
#[derive(Debug, PartialEq, Eq)]
pub enum UnionError {
    ElementNotFound,
}

/// Parent pointers that stay inside `0..len`, with a ghost rank that grows
/// strictly along every parent edge and stays below `bound`.
pub open spec fn ranked(parent: Seq<usize>, rank: Seq<nat>, bound: nat) -> bool {
    &&& rank.len() == parent.len()
    &&& forall|i: int|
        #![trigger parent[i]]
        #![trigger rank[i]]
        0 <= i < parent.len() ==> {
            &&& (parent[i] as int) < parent.len()
            &&& rank[i] < bound
            &&& parent[i] != i ==> rank[i] < rank[parent[i] as int]
        }
}

/// The root reached from `i` by following parent pointers.
pub open spec fn root(parent: Seq<usize>, rank: Seq<nat>, bound: nat, i: int) -> int
    decreases bound - rank[i],
    when ranked(parent, rank, bound) && 0 <= i < parent.len()
{
    if parent[i] == i {
        i
    } else {
        root(parent, rank, bound, parent[i] as int)
    }
}

/// The root is in range and is its own parent.
proof fn lemma_root(parent: Seq<usize>, rank: Seq<nat>, bound: nat, i: int)
    requires
        ranked(parent, rank, bound),
        0 <= i < parent.len(),
    ensures
        0 <= root(parent, rank, bound, i) < parent.len(),
        parent[root(parent, rank, bound, i)] == root(parent, rank, bound, i),
        parent[i] == i ==> root(parent, rank, bound, i) == i,
        root(parent, rank, bound, parent[i] as int) == root(parent, rank, bound, i),
    decreases bound - rank[i],
{
    if parent[i] != i {
        lemma_root(parent, rank, bound, parent[i] as int);
    }
}

/// The indices met on the way from `i` to its root by following parent
/// pointers, `i` first and the root last.
pub open spec fn path_to_root(parent: Seq<usize>, rank: Seq<nat>, bound: nat, i: int) -> Seq<int>
    decreases bound - rank[i],
    when ranked(parent, rank, bound) && 0 <= i < parent.len()
{
    if parent[i] == i {
        seq![i]
    } else {
        seq![i] + path_to_root(parent, rank, bound, parent[i] as int)
    }
}

/// The way to the root never meets an index twice, stays in range and
/// only climbs in rank.
proof fn lemma_path(parent: Seq<usize>, rank: Seq<nat>, bound: nat, i: int)
    requires
        ranked(parent, rank, bound),
        0 <= i < parent.len(),
    ensures
        path_to_root(parent, rank, bound, i).no_duplicates(),
        forall|k: int|
            0 <= k < path_to_root(parent, rank, bound, i).len() ==> {
                &&& 0 <= #[trigger] path_to_root(parent, rank, bound, i)[k] < parent.len()
                &&& rank[i] <= rank[path_to_root(parent, rank, bound, i)[k]]
                &&& k > 0 ==> rank[i] < rank[path_to_root(parent, rank, bound, i)[k]]
            },
    decreases bound - rank[i],
{
    if parent[i] != i {
        let q = parent[i] as int;
        lemma_path(parent, rank, bound, q);
        let rest = path_to_root(parent, rank, bound, q);
        let p = path_to_root(parent, rank, bound, i);
        assert(p == seq![i] + rest);
        assert forall|k: int| 0 <= k < p.len() implies {
            &&& 0 <= #[trigger] p[k] < parent.len()
            &&& rank[i] <= rank[p[k]]
            &&& k > 0 ==> rank[i] < rank[p[k]]
        } by {
            if k > 0 {
                assert(p[k] == rest[k - 1]);
            }
        }
        assert forall|a: int, b: int| 0 <= a < b < p.len() implies p[a] != p[b] by {
            assert(rank[i] < rank[p[b]]);
            if a > 0 {
                assert(p[a] == rest[a - 1] && p[b] == rest[b - 1]);
            }
        }
    }
}

/// Following parent pointers from any index reaches its root in fewer
/// steps than there are indices.
pub proof fn law_path_within_size(parent: Seq<usize>, rank: Seq<nat>, bound: nat, i: int)
    requires
        ranked(parent, rank, bound),
        0 <= i < parent.len(),
    ensures
        path_to_root(parent, rank, bound, i).len() <= parent.len(),
{
    lemma_path(parent, rank, bound, i);
    let p = path_to_root(parent, rank, bound, i);
    let n = parent.len() as int;
    p.unique_seq_to_set();
    lemma_int_range(0, n);
    assert forall|k: int| p.to_set().contains(k) implies set_int_range(0, n).contains(k) by {
        let j = choose|j: int| 0 <= j < p.len() && p[j] == k;
        assert(0 <= p[j] < n);
    }
    lemma_len_subset(p.to_set(), set_int_range(0, n));
}

/// Pointing `i` at its grandparent changes no root.
proof fn lemma_compress(parent: Seq<usize>, rank: Seq<nat>, bound: nat, i: int, x: int)
    requires
        ranked(parent, rank, bound),
        0 <= i < parent.len(),
        0 <= x < parent.len(),
    ensures
        ranked(parent.update(i, parent[parent[i] as int]), rank, bound),
        root(parent.update(i, parent[parent[i] as int]), rank, bound, x) == root(
            parent,
            rank,
            bound,
            x,
        ),
    decreases bound - rank[x],
{
    let p2 = parent.update(i, parent[parent[i] as int]);
    assert(ranked(p2, rank, bound)) by {
        assert forall|j: int| 0 <= j < p2.len() implies {
            &&& (p2[j] as int) < p2.len()
            &&& rank[j] < bound
            &&& p2[j] != j ==> rank[j] < rank[p2[j] as int]
        } by {
            if j == i {
                let p = parent[i] as int;
                assert(rank[p] < bound);
                if parent[i] != i && parent[p] != p {
                    assert(rank[i] < rank[p]);
                    assert(rank[p] < rank[parent[p] as int]);
                }
            }
        }
    }
    if parent[x] != x {
        lemma_compress(parent, rank, bound, i, parent[x] as int);
        if x == i {
            let p = parent[i] as int;
            lemma_root(parent, rank, bound, p);
            if parent[p] != p {
                lemma_compress(parent, rank, bound, i, parent[p] as int);
            }
        }
    }
}

/// Linking root `c` below root `p` (raising `p`'s rank as needed) sends
/// everything rooted at `c` to `p` and leaves every other root alone.
proof fn lemma_link(parent: Seq<usize>, rank: Seq<nat>, bound: nat, c: int, p: int, x: int)
    requires
        ranked(parent, rank, bound),
        0 <= c < parent.len(),
        0 <= p < parent.len(),
        p <= usize::MAX,
        0 <= x < parent.len(),
        parent[c] == c,
        parent[p] == p,
        c != p,
    ensures
        ranked(parent.update(c, p as usize), link_rank(rank, c, p), link_bound(rank, bound, c, p)),
        root(parent.update(c, p as usize), link_rank(rank, c, p), link_bound(rank, bound, c, p), x)
            == if root(parent, rank, bound, x) == c {
            p
        } else {
            root(parent, rank, bound, x)
        },
    decreases bound - rank[x],
{
    let p2 = parent.update(c, p as usize);
    let r2 = link_rank(rank, c, p);
    let b2 = link_bound(rank, bound, c, p);
    assert(ranked(p2, r2, b2)) by {
        assert(r2.len() == p2.len());
        assert forall|j: int| 0 <= j < p2.len() implies {
            &&& (p2[j] as int) < p2.len()
            &&& r2[j] < b2
            &&& p2[j] != j ==> r2[j] < r2[p2[j] as int]
        } by {
            assert(rank[j] < bound);
            assert(r2[p] >= rank[p] && r2[p] >= rank[c] + 1);
            assert(r2[p] < b2);
            if j != p {
                assert(r2[j] == rank[j]);
            }
            if j == c {
                assert(p2[j] == p);
            } else if p2[j] != j {
                assert(p2[j] == parent[j]);
                assert(rank[j] < rank[parent[j] as int]);
                assert(r2[parent[j] as int] >= rank[parent[j] as int]);
            }
        }
    }
    if x == c {
        lemma_root(parent, rank, bound, x);
        assert(p2[p] == p);
        assert(root(p2, r2, b2, p) == p);
        assert(root(p2, r2, b2, c) == root(p2, r2, b2, p));
    } else if parent[x] == x {
        lemma_root(parent, rank, bound, x);
        assert(root(p2, r2, b2, x) == x);
    } else {
        lemma_root(parent, rank, bound, x);
        lemma_link(parent, rank, bound, c, p, parent[x] as int);
    }
}

/// The ranks after linking root `c` below root `p`.
pub open spec fn link_rank(rank: Seq<nat>, c: int, p: int) -> Seq<nat> {
    rank.update(p, if rank[p] > rank[c] { rank[p] } else { rank[c] + 1 })
}

/// The rank bound after linking root `c` below root `p`.
pub open spec fn link_bound(rank: Seq<nat>, bound: nat, c: int, p: int) -> nat {
    let r = link_rank(rank, c, p)[p];
    if r + 1 > bound {
        (r + 1) as nat
    } else {
        bound
    }
}

/// After a merge, the two merged names share a representative.
pub proof fn law_merge_joins(m: Map<Seq<char>, Seq<char>>, a: Seq<char>, b: Seq<char>)
    requires
        m.contains_key(a),
        m.contains_key(b),
    ensures
        merged(m, a, b)[a] == merged(m, a, b)[b],
        merged(m, a, b)[a] == m[b],
        merged(m, a, b).dom() == m.dom(),
{
    assert(merged(m, a, b).dom() =~= m.dom());
}

/// A merge joins only the two sets involved: names outside both keep
/// their representatives, and two names that shared a representative
/// still do.
pub proof fn law_merge_only_joins(
    m: Map<Seq<char>, Seq<char>>,
    a: Seq<char>,
    b: Seq<char>,
    x: Seq<char>,
    y: Seq<char>,
)
    requires
        m.contains_key(a),
        m.contains_key(b),
        m.contains_key(x),
        m.contains_key(y),
    ensures
        m[x] != m[a] ==> merged(m, a, b)[x] == m[x],
        m[x] == m[y] ==> merged(m, a, b)[x] == merged(m, a, b)[y],
        (m[x] != m[a] && m[x] != m[b] && m[y] != m[a] && m[y] != m[b]) ==> (merged(m, a, b)[x]
            == merged(m, a, b)[y] <==> m[x] == m[y]),
{
}

/// The name stored at index `i`.
pub open spec fn name_at(map: BiMap, i: int) -> Seq<char> {
    map.left_map()[i as u64]
}

/// Index `i` is the one that its name is looked up by.
pub open spec fn live(map: BiMap, i: int) -> bool {
    &&& map.right_map().contains_key(name_at(map, i))
    &&& map.right_map()[name_at(map, i)] == i
}

/// Well-formedness of the parent array, the index/name map and the ranks.
pub open spec fn parts_wf(array: Seq<usize>, map: BiMap, rank: Seq<nat>, bound: nat) -> bool {
    &&& map.wf()
    &&& ranked(array, rank, bound)
    &&& array.len() <= u64::MAX
    &&& forall|i: u64| #[trigger] map.left_map().contains_key(i) ==> (i as int) < array.len()
    &&& forall|t: Seq<char>| #[trigger]
        map.right_map().contains_key(t) ==> {
            &&& (map.right_map()[t] as int) < array.len()
            &&& map.left_map()[map.right_map()[t]] == t
        }
    &&& forall|i: int| 0 <= i < array.len() && #[trigger] live(map, i) ==> live(map, array[i] as int)
}

/// For each name, the root index of its set.
pub open spec fn parts_roots(array: Seq<usize>, map: BiMap, rank: Seq<nat>, bound: nat) -> Map<
    Seq<char>,
    int,
> {
    Map::new(
        |t: Seq<char>| map.right_map().contains_key(t),
        |t: Seq<char>| root(array, rank, bound, map.right_map()[t] as int),
    )
}

/// For each name, the representative of its set.
pub open spec fn parts_view(array: Seq<usize>, map: BiMap, rank: Seq<nat>, bound: nat) -> Map<
    Seq<char>,
    Seq<char>,
> {
    Map::new(
        |t: Seq<char>| map.right_map().contains_key(t),
        |t: Seq<char>| name_at(map, root(array, rank, bound, map.right_map()[t] as int)),
    )
}

/// The partition `m` after merging the set of `a` into the set of `b`:
/// every name whose representative was that of `a` takes that of `b`.
pub open spec fn merged(m: Map<Seq<char>, Seq<char>>, a: Seq<char>, b: Seq<char>) -> Map<
    Seq<char>,
    Seq<char>,
> {
    Map::new(
        |x: Seq<char>| m.contains_key(x),
        |x: Seq<char>|
            if m[x] == m[a] {
                m[b]
            } else {
                m[x]
            },
    )
}

/// Merging the set of `a` into that of `b`, or that of `b` into that of
/// `a`, gives the same partition: `union(a, b)` and `union(b, a)` may pick
/// different representatives, but two names share a set after one exactly
/// when they share it after the other.
pub proof fn law_merge_order_same_partition(
    m: Map<Seq<char>, Seq<char>>,
    a: Seq<char>,
    b: Seq<char>,
    x: Seq<char>,
    y: Seq<char>,
)
    requires
        m.contains_key(x),
        m.contains_key(y),
    ensures
        (merged(m, a, b)[x] == merged(m, a, b)[y]) == (merged(m, b, a)[x] == merged(m, b, a)[y]),
{
}

/// The index that a known name is looked up by is live.
proof fn lemma_lookup_live(array: Seq<usize>, map: BiMap, rank: Seq<nat>, bound: nat, t: Seq<char>)
    requires
        parts_wf(array, map, rank, bound),
        map.right_map().contains_key(t),
    ensures
        0 <= map.right_map()[t] < array.len(),
        live(map, map.right_map()[t] as int),
{
    let i = map.right_map()[t];
    assert(map.left_map()[i] == t);
    assert(name_at(map, i as int) == t);
}

/// The root of a live index is live, in range, and its own parent.
proof fn lemma_root_live(array: Seq<usize>, map: BiMap, rank: Seq<nat>, bound: nat, i: int)
    requires
        parts_wf(array, map, rank, bound),
        0 <= i < array.len(),
        live(map, i),
    ensures
        0 <= root(array, rank, bound, i) < array.len(),
        array[root(array, rank, bound, i)] == root(array, rank, bound, i),
        live(map, root(array, rank, bound, i)),
    decreases bound - rank[i],
{
    lemma_root(array, rank, bound, i);
    if array[i] != i {
        lemma_root_live(array, map, rank, bound, array[i] as int);
    }
}

/// Two known names have the same representative exactly when their sets
/// have the same root index.
proof fn lemma_same_set_parts(
    array: Seq<usize>,
    map: BiMap,
    rank: Seq<nat>,
    bound: nat,
    a: Seq<char>,
    b: Seq<char>,
)
    requires
        parts_wf(array, map, rank, bound),
        map.right_map().contains_key(a),
        map.right_map().contains_key(b),
    ensures
        (parts_view(array, map, rank, bound)[a] == parts_view(array, map, rank, bound)[b]) <==> (
        parts_roots(array, map, rank, bound)[a] == parts_roots(array, map, rank, bound)[b]),
        map.right_map().contains_key(parts_view(array, map, rank, bound)[a]),
        map.right_map()[parts_view(array, map, rank, bound)[a]] == parts_roots(
            array,
            map,
            rank,
            bound,
        )[a],
        live(map, parts_roots(array, map, rank, bound)[a]),
        0 <= parts_roots(array, map, rank, bound)[a] < array.len(),
        array[parts_roots(array, map, rank, bound)[a]] == parts_roots(array, map, rank, bound)[a],
{
    lemma_lookup_live(array, map, rank, bound, a);
    lemma_lookup_live(array, map, rank, bound, b);
    lemma_root_live(array, map, rank, bound, map.right_map()[a] as int);
    lemma_root_live(array, map, rank, bound, map.right_map()[b] as int);
}

/// One step of path compression at live index `idx` keeps the structure
/// well-formed and changes no root.
proof fn lemma_compress_step(array: Seq<usize>, map: BiMap, rank: Seq<nat>, bound: nat, idx: int)
    requires
        parts_wf(array, map, rank, bound),
        0 <= idx < array.len(),
        live(map, idx),
        array[idx] != idx,
    ensures
        parts_wf(array.update(idx, array[array[idx] as int]), map, rank, bound),
        forall|x: int|
            0 <= x < array.len() ==> #[trigger] root(
                array.update(idx, array[array[idx] as int]),
                rank,
                bound,
                x,
            ) == root(array, rank, bound, x),
        parts_view(array.update(idx, array[array[idx] as int]), map, rank, bound) == parts_view(
            array,
            map,
            rank,
            bound,
        ),
        parts_roots(array.update(idx, array[array[idx] as int]), map, rank, bound) == parts_roots(
            array,
            map,
            rank,
            bound,
        ),
        live(map, array[idx] as int),
        rank[idx] < rank[array[idx] as int],
{
    let a2 = array.update(idx, array[array[idx] as int]);
    let parent = array[idx] as int;
    assert forall|x: int| 0 <= x < array.len() implies #[trigger] root(a2, rank, bound, x) == root(
        array,
        rank,
        bound,
        x,
    ) by {
        lemma_compress(array, rank, bound, idx, x);
    }
    lemma_compress(array, rank, bound, idx, 0);
    assert(live(map, parent));
    assert forall|i: int| 0 <= i < a2.len() && #[trigger] live(map, i) implies live(
        map,
        a2[i] as int,
    ) by {
        if i != idx {
            assert(a2[i] == array[i]);
        }
    }
    assert forall|t: Seq<char>| #[trigger] map.right_map().contains_key(t) implies root(
        a2,
        rank,
        bound,
        map.right_map()[t] as int,
    ) == root(array, rank, bound, map.right_map()[t] as int) by {
        lemma_lookup_live(array, map, rank, bound, t);
    }
    assert(parts_view(a2, map, rank, bound) =~= parts_view(array, map, rank, bound));
    assert(parts_roots(a2, map, rank, bound) =~= parts_roots(array, map, rank, bound));
}

/// The parent array after linking root `c` below root `p`.
pub open spec fn link_array(array: Seq<usize>, c: int, p: int) -> Seq<usize> {
    array.update(c, p as usize)
}

/// Linking the root of `t1` below the root of `t2` keeps the structure
/// well-formed and merges the two sets, with `t2`'s representative.
#[verifier::spinoff_prover]
#[verifier::rlimit(40)]
proof fn lemma_link_step(
    array: Seq<usize>,
    map: BiMap,
    rank: Seq<nat>,
    bound: nat,
    t1: Seq<char>,
    t2: Seq<char>,
)
    requires
        parts_wf(array, map, rank, bound),
        map.right_map().contains_key(t1),
        map.right_map().contains_key(t2),
    ensures
        ({
            let c = parts_roots(array, map, rank, bound)[t1];
            let p = parts_roots(array, map, rank, bound)[t2];
            let a2 = link_array(array, c, p);
            let r2 = if c != p { link_rank(rank, c, p) } else { rank };
            let b2 = if c != p { link_bound(rank, bound, c, p) } else { bound };
            &&& parts_wf(a2, map, r2, b2)
            &&& parts_view(a2, map, r2, b2) == merged(parts_view(array, map, rank, bound), t1, t2)
        }),
{
    let v = parts_view(array, map, rank, bound);
    let roots = parts_roots(array, map, rank, bound);
    let c = roots[t1];
    let p = roots[t2];
    lemma_same_set_parts(array, map, rank, bound, t1, t2);
    lemma_same_set_parts(array, map, rank, bound, t2, t1);
    let a2 = link_array(array, c, p);
    let r2 = if c != p { link_rank(rank, c, p) } else { rank };
    let b2 = if c != p { link_bound(rank, bound, c, p) } else { bound };
    if c == p {
        assert(a2 =~= array);
    } else {
        assert forall|x: int| 0 <= x < array.len() implies #[trigger] root(a2, r2, b2, x) == if root(
            array,
            rank,
            bound,
            x,
        ) == c {
            p
        } else {
            root(array, rank, bound, x)
        } by {
            lemma_link(array, rank, bound, c, p, x);
        }
        lemma_link(array, rank, bound, c, p, c);
    }
    assert(live(map, c));
    assert(live(map, p));
    assert forall|i: int| 0 <= i < a2.len() && #[trigger] live(map, i) implies live(
        map,
        a2[i] as int,
    ) by {
        if i != c {
            assert(a2[i] == array[i]);
        }
    }
    assert(parts_wf(a2, map, r2, b2));
    assert forall|x: Seq<char>| #[trigger] map.right_map().contains_key(x) implies parts_view(
        a2,
        map,
        r2,
        b2,
    )[x] == merged(v, t1, t2)[x] by {
        lemma_lookup_live(array, map, rank, bound, x);
        lemma_same_set_parts(array, map, rank, bound, x, t1);
    }
    assert(parts_view(a2, map, r2, b2) =~= merged(v, t1, t2));
}

/// A partition of names into sets, each with a representative name.
pub struct UnionFind {
    array: Vec<usize>,
    map: BiMap,
    rank: Ghost<Seq<nat>>,
    bound: Ghost<nat>,
}

impl UnionFind {
    /// The type's invariant: the parent array, the index/name map and the
    /// ranks fit together.
    #[verifier::type_invariant]
    pub closed spec fn wf(&self) -> bool {
        parts_wf(self.array@, self.map, self.rank@, self.bound@)
    }

    /// For each name, the index of the root of its set.
    pub closed spec fn root_indices(&self) -> Map<Seq<char>, int> {
        parts_roots(self.array@, self.map, self.rank@, self.bound@)
    }

    /// For each name, the representative of its set.
    pub closed spec fn view(&self) -> Map<Seq<char>, Seq<char>> {
        parts_view(self.array@, self.map, self.rank@, self.bound@)
    }

    /// Two names have the same representative exactly when their sets have
    /// the same root index.
    pub proof fn lemma_same_set(&self, a: Seq<char>, b: Seq<char>)
        requires
            self.wf(),
            self@.contains_key(a),
            self@.contains_key(b),
        ensures
            self.root_indices().contains_key(a),
            self.root_indices().contains_key(b),
            (self@[a] == self@[b]) <==> (self.root_indices()[a] == self.root_indices()[b]),
    {
        lemma_same_set_parts(self.array@, self.map, self.rank@, self.bound@, a, b);
    }

    /// The number of indices the structure holds: one for each name given
    /// to `from_iter`.
    pub closed spec fn size(&self) -> nat {
        self.array@.len()
    }

    /// How many parent pointers `find` follows from the index of `t`
    /// before it reaches the root.
    pub closed spec fn find_steps(&self, t: Seq<char>) -> int {
        path_to_root(self.array@, self.rank@, self.bound@, self.map.right_map()[t] as int).len() - 1
    }

    /// From every known name, `find` reaches the root of its set in fewer
    /// steps than the structure holds indices (as many as the names given
    /// to `from_iter`, a number that `find` and `union` keep): the parent
    /// pointers form a forest, and every walk up it ends.
    pub proof fn law_find_steps_bounded(&self, t: Seq<char>)
        requires
            self.wf(),
            self@.contains_key(t),
        ensures
            0 <= self.find_steps(t) < self.size(),
    {
        lemma_lookup_live(self.array@, self.map, self.rank@, self.bound@, t);
        law_path_within_size(self.array@, self.rank@, self.bound@, self.map.right_map()[t] as int);
        lemma_path(self.array@, self.rank@, self.bound@, self.map.right_map()[t] as int);
    }

    /// A representative is its own representative: looking it up again
    /// gives it back.
    pub proof fn lemma_representative_is_fixed(&self, x: Seq<char>)
        requires
            self.wf(),
            self@.contains_key(x),
        ensures
            self@.contains_key(self@[x]),
            self@[self@[x]] == self@[x],
    {
        lemma_same_set_parts(self.array@, self.map, self.rank@, self.bound@, x, x);
        let r = self.root_indices()[x];
        let rep = self@[x];
        lemma_lookup_live(self.array@, self.map, self.rank@, self.bound@, rep);
        lemma_root(self.array@, self.rank@, self.bound@, r);
    }

    /// A structure that holds no name.
    fn empty() -> (uf: UnionFind)
        ensures
            uf.wf(),
    {
        let array: Vec<usize> = Vec::new();
        let map = BiMap::new();
        proof {
            assert forall|t: Seq<char>| #[trigger] map.right_map().contains_key(t) implies false by {
                law_directions_inverse(map, map.right_map()[t], t);
            }
        }
        UnionFind { array, map, rank: Ghost(Seq::empty()), bound: Ghost(0nat) }
    }

    /// Builds a structure in which every given name is alone in its set.
    pub fn from_iter(items: Vec<String>) -> (uf: UnionFind)
        ensures
            uf.wf(),
            uf.size() == items@.len(),
            forall|t: Seq<char>| #[trigger]
                uf@.contains_key(t) <==> exists|j: int| 0 <= j < items@.len() && items@[j]@ == t,
            forall|t: Seq<char>| #[trigger] uf@.contains_key(t) ==> uf@[t] == t,
    {
        let mut array: Vec<usize> = Vec::new();
        let mut map = BiMap::new();
        let mut i: usize = 0;
        while i < items.len()
            invariant
                i <= items@.len(),
                array@.len() == i,
                forall|j: int| 0 <= j < i ==> array@[j] == j,
                map.wf(),
                forall|k: u64| #[trigger]
                    map.left_map().contains_key(k) ==> (k as int) < i && map.left_map()[k]
                        == items@[k as int]@,
                forall|j: int| 0 <= j < i ==> map.right_map().contains_key(#[trigger] items@[j]@),
            decreases items.len() - i,
        {
            array.push(i);
            let name = items[i].clone();
            let ghost old_map = map;
            map.insert(i as u64, name);
            proof {
                assert forall|j: int| 0 <= j < i + 1 implies map.right_map().contains_key(
                    #[trigger] items@[j]@,
                ) by {
                    if j < i && items@[j]@ != items@[i as int]@ {
                        let t = items@[j]@;
                        let k = old_map.right_map()[t];
                        law_directions_inverse(old_map, k, t);
                        assert(map.left_map().contains_key(k));
                        law_directions_inverse(map, k, t);
                    }
                }
            }
            i = i + 1;
        }
        let rank: Ghost<Seq<nat>> = Ghost(Seq::new(i as nat, |j: int| 0nat));
        let bound: Ghost<nat> = Ghost(1nat);
        proof {
            assert forall|j: int| 0 <= j < array@.len() implies #[trigger] root(
                array@,
                rank@,
                bound@,
                j,
            ) == j by {
                lemma_root(array@, rank@, bound@, j);
            }
            assert forall|t: Seq<char>| #[trigger]
                map.right_map().contains_key(t) implies (map.right_map()[t] as int)
                < array@.len() && map.left_map()[map.right_map()[t]] == t by {
                let k = map.right_map()[t];
                law_directions_inverse(map, k, t);
            }
            assert(parts_wf(array@, map, rank@, bound@));
        }
        let uf = UnionFind { array, map, rank, bound };
        proof {
            assert forall|t: Seq<char>| #[trigger]
                uf@.contains_key(t) <==> exists|j: int| 0 <= j < items@.len() && items@[j]@ == t by {
                if uf@.contains_key(t) {
                    let k = uf.map.right_map()[t];
                    law_directions_inverse(uf.map, k, t);
                    assert(items@[k as int]@ == t);
                }
                if exists|j: int| 0 <= j < items@.len() && items@[j]@ == t {
                    let j = choose|j: int| 0 <= j < items@.len() && items@[j]@ == t;
                    assert(uf.map.right_map().contains_key(items@[j]@));
                }
            }
            assert forall|t: Seq<char>| #[trigger] uf@.contains_key(t) implies uf@[t] == t by {
                let k = uf.map.right_map()[t];
                law_directions_inverse(uf.map, k, t);
                assert(root(uf.array@, uf.rank@, uf.bound@, k as int) == k);
            }
        }
        uf
    }

    /// Finds the root index of the set of `t`, pointing every index on the
    /// way at its grandparent. The partition and every root stay the same.
    pub fn find_index(&mut self, t: &str) -> (r: Option<usize>)
        ensures
            final(self).wf(),
            final(self)@ == old(self)@,
            final(self).size() == old(self).size(),
            final(self).root_indices() == old(self).root_indices(),
            r is Some == old(self)@.contains_key(t@),
            r matches Some(i) ==> i == old(self).root_indices()[t@],
    {
        proof {
            use_type_invariant(&*self);
        }
        let found: u64 = match self.map.get_by_right(t) {
            Some(i) => *i,
            None => return None,
        };
        proof {
            lemma_lookup_live(self.array@, self.map, self.rank@, self.bound@, t@);
        }
        let n = self.array.len();
        assert(found < n);
        let mut taken = UnionFind::empty();
        std::mem::swap(self, &mut taken);
        let UnionFind { mut array, map, rank, bound } = taken;
        let mut idx: usize = found as usize;
        loop
            invariant
                parts_wf(array@, map, rank@, bound@),
                map == old(self).map,
                rank == old(self).rank,
                bound == old(self).bound,
                array@.len() == old(self).array@.len(),
                old(self).map.right_map().contains_key(t@),
                parts_view(array@, map, rank@, bound@) == old(self)@,
                parts_roots(array@, map, rank@, bound@) == old(self).root_indices(),
                0 <= idx < array@.len(),
                live(map, idx as int),
                root(array@, rank@, bound@, idx as int) == old(self).root_indices()[t@],
            decreases bound@ - rank@[idx as int],
        {
            proof {
                lemma_root(array@, rank@, bound@, idx as int);
            }
            let parent = array[idx];
            if parent == idx {
                *self = UnionFind { array, map, rank, bound };
                return Some(idx);
            }
            let grandparent = array[parent];
            proof {
                lemma_compress_step(array@, map, rank@, bound@, idx as int);
            }
            array.set(idx, grandparent);
            idx = parent;
        }
    }

    /// Finds the representative of the set of `t`, if `t` is known.
    pub fn find(&mut self, t: &str) -> (r: Option<String>)
        ensures
            final(self).wf(),
            final(self)@ == old(self)@,
            final(self).size() == old(self).size(),
            final(self).root_indices() == old(self).root_indices(),
            r is Some == old(self)@.contains_key(t@),
            r matches Some(s) ==> s@ == old(self)@[t@],
    {
        let i = match self.find_index(t) {
            Some(i) => i,
            None => return None,
        };
        proof {
            use_type_invariant(&*self);
            lemma_same_set_parts(self.array@, self.map, self.rank@, self.bound@, t@, t@);
        }
        match self.map.get_by_left(&(i as u64)) {
            Some(s) => Some(s.clone()),
            None => None,
        }
    }

    /// `find`, with an unknown name reported as an error.
    fn find_to_result(&mut self, t: &str) -> (r: Result<String, UnionError>)
        ensures
            final(self).wf(),
            final(self)@ == old(self)@,
            final(self).size() == old(self).size(),
            final(self).root_indices() == old(self).root_indices(),
            r is Ok == old(self)@.contains_key(t@),
            r matches Ok(s) ==> s@ == old(self)@[t@],
    {
        match self.find(t) {
            Some(s) => Ok(s),
            None => Err(UnionError::ElementNotFound),
        }
    }

    /// Merges the sets of `t1` and `t2`; the representative of the merged
    /// set is that of `t2`.
    pub fn union(&mut self, t1: &str, t2: &str) -> (r: Result<(), UnionError>)
        ensures
            final(self).wf(),
            r is Ok == (old(self)@.contains_key(t1@) && old(self)@.contains_key(t2@)),
            final(self).size() == old(self).size(),
            r is Err ==> final(self)@ == old(self)@,
            r is Ok ==> final(self)@ == merged(old(self)@, t1@, t2@),
    {
        let r1 = self.find_to_result(t1)?;
        let r2 = self.find_to_result(t2)?;
        proof {
            use_type_invariant(&*self);
        }
        let ghost a0 = self.array@;
        let ghost rk0 = self.rank@;
        let ghost b0 = self.bound@;
        let ghost c = self.root_indices()[t1@];
        let ghost p = self.root_indices()[t2@];
        proof {
            lemma_same_set_parts(a0, self.map, rk0, b0, t1@, t2@);
            lemma_same_set_parts(a0, self.map, rk0, b0, t2@, t1@);
            lemma_link_step(a0, self.map, rk0, b0, t1@, t2@);
        }
        let child: u64 = match self.map.get_by_right(r1.as_str()) {
            Some(i) => *i,
            None => return Ok(()),
        };
        let parent: u64 = match self.map.get_by_right(r2.as_str()) {
            Some(i) => *i,
            None => return Ok(()),
        };
        assert(child == c && parent == p);
        let child_idx = child as usize;
        let parent_idx = parent as usize;
        let mut taken = UnionFind::empty();
        std::mem::swap(self, &mut taken);
        let UnionFind { mut array, map, mut rank, mut bound } = taken;
        if child_idx != parent_idx {
            rank = Ghost(link_rank(rk0, c, p));
            bound = Ghost(link_bound(rk0, b0, c, p));
        }
        array.set(child_idx, parent_idx);
        assert(array@ == link_array(a0, c, p));
        *self = UnionFind { array, map, rank, bound };
        Ok(())
    }
}

} // verus!
