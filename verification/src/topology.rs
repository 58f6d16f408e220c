//! The topology engine: the overlay adjacency and the deterministic
//! next-hop selection used by the broadcast workload. Cycles of the
//! overlay are enumerated by a depth-first traversal from the smallest
//! node, cycles contained in other cycles are pruned, and each node
//! forwards along the surviving cycles only.

use vstd::prelude::*;
use vstd::multiset::Multiset;
use crate::ids::NodeId;

verus! {

/// The overlay adjacency: an association list sorted by node id with
/// unique keys, each neighbour list sorted as well. Built by `from_pairs`,
/// which establishes that shape from arbitrary input.
#[derive(Debug)]
pub struct Topology(pub Vec<(NodeId, Vec<NodeId>)>);

impl View for Topology {
    type V = Seq<(NodeId, Seq<NodeId>)>;

    open spec fn view(&self) -> Seq<(NodeId, Seq<NodeId>)> {
        pairs_view(self.0@)
    }
}

/// The mathematical shape of an adjacency list.
pub open spec fn pairs_view(s: Seq<(NodeId, Vec<NodeId>)>) -> Seq<(NodeId, Seq<NodeId>)> {
    s.map_values(|p: (NodeId, Vec<NodeId>)| (p.0, p.1@))
}

/// The keys of an association list, in order.
pub open spec fn pair_keys(t: Seq<(NodeId, Seq<NodeId>)>) -> Seq<NodeId> {
    t.map_values(|p: (NodeId, Seq<NodeId>)| p.0)
}

/// Keys strictly increase.
pub open spec fn key_sorted(t: Seq<(NodeId, Seq<NodeId>)>) -> bool {
    forall|i: int, j: int| 0 <= i < j < t.len() ==> t[i].0.0 < t[j].0.0
}

/// Node ids in non-decreasing order.
pub open spec fn ids_sorted(s: Seq<NodeId>) -> bool {
    forall|i: int, j: int| 0 <= i < j < s.len() ==> s[i].0 <= s[j].0
}

/// The well-formedness of a topology: sorted unique keys and sorted
/// neighbour lists. This makes the representation canonical: two
/// well-formed topologies over the same map are equal.
pub open spec fn topo_wf(t: Seq<(NodeId, Seq<NodeId>)>) -> bool {
    &&& key_sorted(t)
    &&& forall|i: int| 0 <= i < t.len() ==> ids_sorted(#[trigger] t[i].1)
}

/// The neighbour list bound to `n`: the list of the first pair whose key
/// is `n`, or the empty list when no pair has that key.
pub open spec fn spec_neighbors(t: Seq<(NodeId, Seq<NodeId>)>, n: NodeId) -> Seq<NodeId>
    decreases t.len(),
{
    if t.len() == 0 {
        Seq::empty()
    } else if t[0].0 == n {
        t[0].1
    } else {
        spec_neighbors(t.drop_first(), n)
    }
}

/// `t` has a pair keyed by `n`.
pub open spec fn topo_has(t: Seq<(NodeId, Seq<NodeId>)>, n: NodeId) -> bool {
    exists|i: int| 0 <= i < t.len() && t[i].0 == n
}

/// Strictly increasing keys are distinct.
proof fn lemma_key_sorted_unique(t: Seq<(NodeId, Seq<NodeId>)>)
    requires
        key_sorted(t),
    ensures
        pair_keys(t).no_duplicates(),
{
    assert forall|i: int, j: int| 0 <= i < j < pair_keys(t).len() implies pair_keys(t)[i]
        != pair_keys(t)[j] by {
        assert(t[i].0.0 < t[j].0.0);
    }
}

/// With distinct keys, looking a key up yields the list it is paired
/// with.
proof fn lemma_lookup_at_index(t: Seq<(NodeId, Seq<NodeId>)>, i: int)
    requires
        pair_keys(t).no_duplicates(),
        0 <= i < t.len(),
    ensures
        spec_neighbors(t, t[i].0) == t[i].1,
    decreases t.len(),
{
    if i == 0 {
    } else {
        assert(pair_keys(t)[0] != pair_keys(t)[i]);
        assert(t[0].0 != t[i].0);
        let rest = t.drop_first();
        assert(pair_keys(rest) =~= pair_keys(t).drop_first());
        lemma_lookup_at_index(rest, i - 1);
        assert(rest[i - 1] == t[i]);
    }
}

/// A key bound to no pair looks up to the empty list.
proof fn lemma_lookup_missing(t: Seq<(NodeId, Seq<NodeId>)>, n: NodeId)
    requires
        !topo_has(t, n),
    ensures
        spec_neighbors(t, n) == Seq::<NodeId>::empty(),
    decreases t.len(),
{
    if t.len() == 0 {
    } else {
        assert(t[0].0 != n);
        let rest = t.drop_first();
        assert forall|i: int| 0 <= i < rest.len() implies rest[i].0 != n by {
            assert(rest[i] == t[i + 1]);
        }
        lemma_lookup_missing(rest, n);
    }
}

/// A key with a non-empty neighbour list is present in the topology.
proof fn lemma_nonempty_lookup_has(t: Seq<(NodeId, Seq<NodeId>)>, n: NodeId)
    requires
        spec_neighbors(t, n).len() > 0,
    ensures
        topo_has(t, n),
{
    if !topo_has(t, n) {
        lemma_lookup_missing(t, n);
    }
}

/// Reports whether `v` holds `x`.
pub fn contains_id(v: &Vec<NodeId>, x: NodeId) -> (r: bool)
    ensures
        r == v@.contains(x),
{
    let n = v.len();
    let mut i: usize = 0;
    while i < n
        invariant
            0 <= i <= n,
            n == v@.len(),
            forall|k: int| 0 <= k < i ==> v@[k] != x,
        decreases n - i,
    {
        if v[i].0 == x.0 {
            assert(v@[i as int] == x);
            return true;
        }
        i = i + 1;
    }
    assert(!v@.contains(x));
    false
}

/// Sorts a list of node ids into non-decreasing order; the result is a
/// permutation of the input.
fn sort_ids(v: Vec<NodeId>) -> (r: Vec<NodeId>)
    ensures
        ids_sorted(r@),
        r@.to_multiset() == v@.to_multiset(),
{
    broadcast use vstd::seq_lib::group_to_multiset_ensures;

    let ghost orig = v@;
    let mut rest = v;
    let mut out: Vec<NodeId> = Vec::new();
    while rest.len() > 0
        invariant
            out@.to_multiset().add(rest@.to_multiset()) =~= orig.to_multiset(),
            ids_sorted(out@),
            forall|i: int, j: int|
                0 <= i < out@.len() && 0 <= j < rest@.len() ==> out@[i].0 <= rest@[j].0,
        decreases rest.len(),
    {
        broadcast use vstd::seq_lib::group_to_multiset_ensures;

        let m = min_index(&rest);
        let ghost pre_rest = rest@;
        let ghost prev_out = out@;
        let x = rest.remove(m);
        out.push(x);
        proof {
            assert(rest@ == pre_rest.remove(m as int));
            assert(pre_rest.contains(x)) by {
                assert(pre_rest[m as int] == x);
            }
            assert(pre_rest.to_multiset().count(x) > 0);
            assert(rest@.to_multiset() =~= pre_rest.to_multiset().remove(x)) by {
                assert(pre_rest.remove(m as int).to_multiset() =~= pre_rest.to_multiset().remove(
                    pre_rest[m as int],
                ));
            }
            assert(out@ == prev_out.push(x));
            assert(out@.to_multiset() =~= prev_out.to_multiset().insert(x));
            assert(out@.to_multiset().add(rest@.to_multiset()) =~= orig.to_multiset());
            assert forall|i: int, j: int|
                0 <= i < out@.len() && 0 <= j < rest@.len() implies out@[i].0 <= rest@[j].0 by {
                assert(rest@[j] == if j < m { pre_rest[j] } else { pre_rest[j + 1] });
            }
        }
    }
    proof {
        assert(rest@.to_multiset() =~= Multiset::<NodeId>::empty());
        assert(out@.to_multiset() =~= orig.to_multiset());
    }
    out
}

/// The index of a least element of a non-empty list.
fn min_index(v: &Vec<NodeId>) -> (m: usize)
    requires
        v@.len() > 0,
    ensures
        0 <= m < v@.len(),
        forall|k: int| 0 <= k < v@.len() ==> v@[m as int].0 <= #[trigger] v@[k].0,
{
    let n = v.len();
    let mut m: usize = 0;
    let mut i: usize = 1;
    while i < n
        invariant
            0 <= m < i <= n,
            n == v@.len(),
            forall|k: int| 0 <= k < i ==> v@[m as int].0 <= #[trigger] v@[k].0,
        decreases n - i,
    {
        if v[i].0 < v[m].0 {
            m = i;
        }
        i = i + 1;
    }
    m
}

impl Default for Topology {
    /// The empty topology.
    fn default() -> (r: Self)
        ensures
            r@ =~= Seq::<(NodeId, Seq<NodeId>)>::empty(),
    {
        Topology(Vec::new())
    }
}

impl Topology {
    /// Whether this value is in the canonical sorted shape.
    pub open spec fn wf(&self) -> bool {
        topo_wf(self@)
    }

    /// Builds a topology from adjacency pairs with distinct keys: the
    /// pairs are sorted by key and each neighbour list is sorted, so the
    /// result depends only on the map the pairs describe.
    pub fn from_pairs(pairs: Vec<(NodeId, Vec<NodeId>)>) -> (t: Topology)
        requires
            pair_keys(pairs_view(pairs@)).no_duplicates(),
        ensures
            t.wf(),
            pair_keys(t@).to_set() == pair_keys(pairs_view(pairs@)).to_set(),
            forall|k: NodeId|
                #[trigger] spec_neighbors(t@, k).to_multiset() == spec_neighbors(
                    pairs_view(pairs@),
                    k,
                ).to_multiset(),
    {
        broadcast use vstd::seq_lib::group_to_multiset_ensures;

        let ghost orig = pairs_view(pairs@);
        proof {
            assert forall|j: int| 0 <= j < orig.len() implies spec_neighbors(
                orig,
                #[trigger] orig[j].0,
            ) == orig[j].1 by {
                lemma_lookup_at_index(orig, j);
            }
        }
        let mut rest = pairs;
        let mut out: Vec<(NodeId, Vec<NodeId>)> = Vec::new();
        while rest.len() > 0
            invariant
                pair_keys(pairs_view(out@)).to_multiset().add(
                    pair_keys(pairs_view(rest@)).to_multiset(),
                ) =~= pair_keys(orig).to_multiset(),
                pair_keys(orig).no_duplicates(),
                key_sorted(pairs_view(out@)),
                forall|i: int, j: int|
                    0 <= i < out@.len() && 0 <= j < rest@.len() ==> out@[i].0.0 <= rest@[j].0.0,
                forall|j: int|
                    0 <= j < pairs_view(rest@).len() ==> spec_neighbors(
                        orig,
                        #[trigger] pairs_view(rest@)[j].0,
                    ) == pairs_view(rest@)[j].1,
                forall|i: int|
                    0 <= i < pairs_view(out@).len() ==> spec_neighbors(
                        orig,
                        #[trigger] pairs_view(out@)[i].0,
                    ).to_multiset() == pairs_view(out@)[i].1.to_multiset(),
                forall|i: int| 0 <= i < out@.len() ==> ids_sorted(#[trigger] out@[i].1@),
            decreases rest.len(),
        {
            broadcast use vstd::seq_lib::group_to_multiset_ensures;

            let m = min_pair_index(&rest);
            let ghost pre_rest = pairs_view(rest@);
            let p = rest.remove(m);
            let k = p.0;
            let ghost kseq_pre = pair_keys(pre_rest);
            proof {
                assert(pairs_view(rest@) =~= pre_rest.remove(m as int));
                assert(pair_keys(pairs_view(rest@)) =~= kseq_pre.remove(m as int));
                assert(kseq_pre[m as int] == k);
                assert(kseq_pre.contains(k)) by {
                    assert(kseq_pre[m as int] == k);
                }
                assert(kseq_pre.to_multiset().count(k) > 0);
                assert(pair_keys(pairs_view(rest@)).to_multiset() =~= kseq_pre.to_multiset()
                    .remove(k)) by {
                    assert(kseq_pre.remove(m as int).to_multiset() =~= kseq_pre.to_multiset()
                        .remove(kseq_pre[m as int]));
                }
            }
            let sorted = sort_ids(p.1);
            let ghost pre_out = pairs_view(out@);
            let ghost pre_out_raw = out@;
            out.push((k, sorted));
            proof {
                assert forall|i: int| 0 <= i < out@.len() implies ids_sorted(
                    #[trigger] out@[i].1@,
                ) by {
                    if i < pre_out_raw.len() {
                        assert(out@[i] == pre_out_raw[i]);
                        assert(ids_sorted(pre_out_raw[i].1@));
                        assert(out@[i].1@ == pre_out_raw[i].1@);
                    } else {
                        assert(out@[i].1 == sorted);
                        assert(out@[i].1@ == sorted@);
                    }
                }
                assert(pairs_view(out@) =~= pre_out.push((k, sorted@)));
                assert(pair_keys(pairs_view(out@)) =~= pair_keys(pre_out).push(k));
                assert(pair_keys(pairs_view(out@)).to_multiset() =~= pair_keys(
                    pre_out,
                ).to_multiset().insert(k));
                assert(pair_keys(pairs_view(out@)).to_multiset().add(
                    pair_keys(pairs_view(rest@)).to_multiset(),
                ) =~= pair_keys(orig).to_multiset());
                // the new key is at least every key left in `rest`
                assert forall|i: int, j: int|
                    0 <= i < out@.len() && 0 <= j < rest@.len() implies out@[i].0.0
                    <= rest@[j].0.0 by {
                    assert(pairs_view(rest@)[j] == if j < m {
                        pre_rest[j]
                    } else {
                        pre_rest[j + 1]
                    });
                    assert(rest@[j].0 == pairs_view(rest@)[j].0);
                    if i < pre_out.len() {
                        assert(out@[i].0 == pre_out[i].0);
                    } else {
                        assert(out@[i].0 == k);
                        assert(k.0 <= pre_rest[m as int].0.0);
                    }
                }
                // the new key is strictly greater than the old `out` keys,
                // because the key multisets split the duplicate-free original
                assert forall|i: int, j: int|
                    0 <= i < j < pairs_view(out@).len() implies pairs_view(out@)[i].0.0
                    < pairs_view(out@)[j].0.0 by {
                    if j == pairs_view(out@).len() - 1 {
                        let ks = pair_keys(pre_out);
                        assert(ks[i] == pre_out[i].0);
                        assert(ks.contains(pre_out[i].0));
                        assert(ks.to_multiset().count(pre_out[i].0) > 0);
                        assert(kseq_pre.to_multiset().count(k) > 0);
                        lemma_split_no_dup(pair_keys(orig), ks, kseq_pre, pre_out[i].0, k);
                        assert(pre_out[i].0 != k);
                        assert(pre_out[i].0.0 <= pre_rest[m as int].0.0);
                        assert(pairs_view(out@)[i] == pre_out[i]);
                        assert(pairs_view(out@)[j].0 == k);
                    }
                }
            }
        }
        proof {
            let tv = pairs_view(out@);
            assert(pairs_view(rest@) =~= Seq::<(NodeId, Seq<NodeId>)>::empty());
            assert(pair_keys(tv).to_multiset() =~= pair_keys(orig).to_multiset());
            lemma_key_sorted_unique(tv);
            assert forall|k: NodeId| #[trigger] spec_neighbors(tv, k).to_multiset()
                == spec_neighbors(orig, k).to_multiset() by {
                if topo_has(tv, k) {
                    let i = choose|i: int| 0 <= i < tv.len() && tv[i].0 == k;
                    lemma_lookup_at_index(tv, i);
                    assert(spec_neighbors(orig, tv[i].0).to_multiset() == tv[i].1.to_multiset());
                } else {
                    lemma_lookup_missing(tv, k);
                    if topo_has(orig, k) {
                        let j = choose|j: int| 0 <= j < orig.len() && orig[j].0 == k;
                        assert(pair_keys(orig).to_multiset().contains(k)) by {
                            assert(pair_keys(orig)[j] == k);
                        }
                        assert(pair_keys(tv).to_multiset().contains(k));
                        let ghost w = choose|w: int|
                            0 <= w < pair_keys(tv).len() && pair_keys(tv)[w] == k;
                        assert(tv[w].0 == k);
                        assert(false);
                    } else {
                        lemma_lookup_missing(orig, k);
                    }
                }
            }
            assert forall|k: NodeId|
                pair_keys(tv).to_set().contains(k) <==> pair_keys(orig).to_set().contains(
                    k,
                ) by {
                if pair_keys(tv).contains(k) {
                    assert(pair_keys(tv).to_multiset().contains(k));
                }
                if pair_keys(orig).contains(k) {
                    assert(pair_keys(orig).to_multiset().contains(k));
                }
            }
            assert(pair_keys(tv).to_set() =~= pair_keys(orig).to_set());
        }
        Topology(out)
    }

    /// The neighbours of `node_id`, or the empty list for an unknown node.
    pub fn get_neighbors(&self, node_id: &NodeId) -> (r: Vec<NodeId>)
        ensures
            r@ == spec_neighbors(self@, *node_id),
    {
        let n = self.0.len();
        proof {
            assert(self@.subrange(0, n as int) =~= self@);
        }
        let mut i: usize = 0;
        while i < n
            invariant
                0 <= i <= n,
                n == self.0@.len(),
                forall|k: int| 0 <= k < i ==> self@[k].0 != *node_id,
                spec_neighbors(self@, *node_id) == spec_neighbors(
                    self@.subrange(i as int, n as int),
                    *node_id,
                ),
            decreases n - i,
        {
            proof {
                assert(self@.subrange(i as int, n as int)[0] == self@[i as int]);
            }
            if self.0[i].0.0 == node_id.0 {
                assert(self@[i as int].0 == *node_id);
                let r = clone_ids(&self.0[i].1);
                proof {
                    assert(self@[i as int].1 == spec_neighbors(
                        self@.subrange(i as int, n as int),
                        *node_id,
                    ));
                }
                return r;
            }
            proof {
                assert(self@.subrange(i as int, n as int).drop_first() =~= self@.subrange(
                    i as int + 1,
                    n as int,
                ));
            }
            i = i + 1;
        }
        proof {
            assert(self@.subrange(n as int, n as int).len() == 0);
        }
        Vec::new()
    }

    /// Reports whether every id of `slice` occurs in `container`: the
    /// vertex-containment test used to prune redundant cycles.
    pub fn contains_cycle(container: &Vec<NodeId>, slice: &Vec<NodeId>) -> (r: bool)
        ensures
            r == cycle_contained(slice@, container@),
    {
        let n = slice.len();
        let mut i: usize = 0;
        while i < n
            invariant
                0 <= i <= n,
                n == slice@.len(),
                forall|k: int| 0 <= k < i ==> container@.contains(#[trigger] slice@[k]),
            decreases n - i,
        {
            if !contains_id(container, slice[i]) {
                return false;
            }
            i = i + 1;
        }
        true
    }
}

/// Every element of `sub` occurs in `sup`.
pub open spec fn cycle_contained(sub: Seq<NodeId>, sup: Seq<NodeId>) -> bool {
    forall|i: int| 0 <= i < sub.len() ==> sup.contains(#[trigger] sub[i])
}

/// Clones a list of node ids.
fn clone_ids(v: &Vec<NodeId>) -> (r: Vec<NodeId>)
    ensures
        r@ == v@,
{
    let n = v.len();
    let mut out: Vec<NodeId> = Vec::new();
    let mut i: usize = 0;
    while i < n
        invariant
            0 <= i <= n,
            n == v@.len(),
            out@ == v@.subrange(0, i as int),
        decreases n - i,
    {
        out.push(v[i]);
        proof {
            assert(out@ =~= v@.subrange(0, i as int + 1));
        }
        i = i + 1;
    }
    proof {
        assert(v@.subrange(0, n as int) =~= v@);
    }
    out
}

/// The index of a pair with a least key in a non-empty list.
fn min_pair_index(v: &Vec<(NodeId, Vec<NodeId>)>) -> (m: usize)
    requires
        v@.len() > 0,
    ensures
        0 <= m < v@.len(),
        forall|k: int| 0 <= k < v@.len() ==> v@[m as int].0.0 <= #[trigger] v@[k].0.0,
{
    let n = v.len();
    let mut m: usize = 0;
    let mut i: usize = 1;
    while i < n
        invariant
            0 <= m < i <= n,
            n == v@.len(),
            forall|k: int| 0 <= k < i ==> v@[m as int].0.0 <= #[trigger] v@[k].0.0,
        decreases n - i,
    {
        if v[i].0.0 < v[m].0.0 {
            m = i;
        }
        i = i + 1;
    }
    m
}

/// The shape of a list of cycles.
pub open spec fn cycles_view(s: Seq<Vec<NodeId>>) -> Seq<Seq<NodeId>> {
    s.map_values(|c: Vec<NodeId>| c@)
}

/// The position of the first occurrence of `x` in `s`.
pub open spec fn first_index<A>(s: Seq<A>, x: A) -> int
    decreases s.len(),
{
    if s.len() == 0 {
        0
    } else if s[0] == x {
        0
    } else {
        1 + first_index(s.drop_first(), x)
    }
}

pub proof fn lemma_first_index<A>(s: Seq<A>, x: A)
    requires
        s.contains(x),
    ensures
        0 <= first_index(s, x) < s.len(),
        s[first_index(s, x)] == x,
        forall|j: int| 0 <= j < first_index(s, x) ==> s[j] != x,
    decreases s.len(),
{
    if s[0] == x {
    } else {
        let rest = s.drop_first();
        assert(rest.contains(x)) by {
            let i = choose|i: int| 0 <= i < s.len() && s[i] == x;
            assert(rest[i - 1] == x);
        }
        lemma_first_index(rest, x);
        assert forall|j: int| 0 <= j < first_index(s, x) implies s[j] != x by {
            if j > 0 {
                assert(rest[j - 1] == s[j]);
            }
        }
    }
}

/// A position whose earlier elements all differ from `x` is the first
/// occurrence.
pub proof fn lemma_first_index_is<A>(s: Seq<A>, x: A, p: int)
    requires
        0 <= p < s.len(),
        s[p] == x,
        forall|j: int| 0 <= j < p ==> s[j] != x,
    ensures
        first_index(s, x) == p,
    decreases s.len(),
{
    if p == 0 {
    } else {
        let rest = s.drop_first();
        assert forall|j: int| 0 <= j < p - 1 implies rest[j] != x by {
            assert(rest[j] == s[j + 1]);
        }
        assert(rest[p - 1] == x);
        lemma_first_index_is(rest, x, p - 1);
    }
}

/// What one popped entry contributes, scanning the first `j` neighbours:
/// the cycles recorded and the entries pushed, in order. A neighbour on
/// the current path closes a cycle (the path suffix from its first
/// occurrence); an unvisited neighbour extends the path.
pub open spec fn step_neighbors(
    nbrs: Seq<NodeId>,
    path: Seq<NodeId>,
    visited: Set<NodeId>,
    j: int,
) -> (Seq<Seq<NodeId>>, Seq<(NodeId, Seq<NodeId>)>)
    decreases j,
{
    if j <= 0 {
        (Seq::empty(), Seq::empty())
    } else {
        let prev = step_neighbors(nbrs, path, visited, j - 1);
        let nb = nbrs[j - 1];
        if path.contains(nb) {
            (prev.0.push(path.subrange(first_index(path, nb), path.len() as int)), prev.1)
        } else if !visited.contains(nb) {
            (prev.0, prev.1.push((nb, path.push(nb))))
        } else {
            prev
        }
    }
}

/// The depth-first cycle enumeration, driven by an explicit stack and a
/// fuel bound: `None` when the fuel runs out, else the cycles recorded,
/// in order. The result does not depend on the fuel once it suffices.
pub open spec fn dfs_fuel(
    t: Seq<(NodeId, Seq<NodeId>)>,
    stack: Seq<(NodeId, Seq<NodeId>)>,
    visited: Set<NodeId>,
    acc: Seq<Seq<NodeId>>,
    fuel: nat,
) -> Option<Seq<Seq<NodeId>>>
    decreases fuel,
{
    if stack.len() == 0 {
        Some(acc)
    } else if fuel == 0 {
        None
    } else {
        let e = stack.last();
        let visited2 = visited.insert(e.0);
        let nbrs = spec_neighbors(t, e.0);
        let step = step_neighbors(nbrs, e.1, visited2, nbrs.len() as int);
        dfs_fuel(t, stack.drop_last() + step.1, visited2, acc + step.0, (fuel - 1) as nat)
    }
}

/// The initial stack: the smallest node, with the path holding it alone.
pub open spec fn init_stack(t: Seq<(NodeId, Seq<NodeId>)>) -> Seq<(NodeId, Seq<NodeId>)> {
    seq![(t[0].0, seq![t[0].0])]
}

/// Enough fuel never changes a completed enumeration.
pub proof fn lemma_dfs_fuel_mono(
    t: Seq<(NodeId, Seq<NodeId>)>,
    stack: Seq<(NodeId, Seq<NodeId>)>,
    visited: Set<NodeId>,
    acc: Seq<Seq<NodeId>>,
    f1: nat,
    f2: nat,
)
    requires
        f1 <= f2,
        dfs_fuel(t, stack, visited, acc, f1) is Some,
    ensures
        dfs_fuel(t, stack, visited, acc, f2) == dfs_fuel(t, stack, visited, acc, f1),
    decreases f1,
{
    if stack.len() == 0 {
    } else {
        let e = stack.last();
        let visited2 = visited.insert(e.0);
        let nbrs = spec_neighbors(t, e.0);
        let step = step_neighbors(nbrs, e.1, visited2, nbrs.len() as int);
        lemma_dfs_fuel_mono(
            t,
            stack.drop_last() + step.1,
            visited2,
            acc + step.0,
            (f1 - 1) as nat,
            (f2 - 1) as nat,
        );
    }
}

/// A well-formed traversal entry: a non-empty duplicate-free path ending
/// at the entry's node, every vertex before the last being a key of the
/// topology.
pub open spec fn wf_entry(t: Seq<(NodeId, Seq<NodeId>)>, e: (NodeId, Seq<NodeId>)) -> bool {
    &&& e.1.len() >= 1
    &&& e.1.last() == e.0
    &&& e.1.no_duplicates()
    &&& forall|i: int| 0 <= i < e.1.len() - 1 ==> topo_has(t, #[trigger] e.1[i])
}

pub open spec fn wf_stack(t: Seq<(NodeId, Seq<NodeId>)>, s: Seq<(NodeId, Seq<NodeId>)>) -> bool {
    forall|i: int| 0 <= i < s.len() ==> wf_entry(t, #[trigger] s[i])
}

/// The largest neighbour-list length of the topology.
pub open spec fn max_deg(t: Seq<(NodeId, Seq<NodeId>)>) -> int
    decreases t.len(),
{
    if t.len() == 0 {
        0
    } else {
        let r = max_deg(t.drop_first());
        if t[0].1.len() > r {
            t[0].1.len() as int
        } else {
            r
        }
    }
}

proof fn lemma_max_deg_bound(t: Seq<(NodeId, Seq<NodeId>)>, n: NodeId)
    ensures
        max_deg(t) >= 0,
        spec_neighbors(t, n).len() <= max_deg(t),
    decreases t.len(),
{
    if t.len() == 0 {
    } else {
        lemma_max_deg_bound(t.drop_first(), n);
    }
}

/// The termination weight of one entry: longer paths weigh exponentially
/// less, so that replacing an entry by its extensions shrinks the total.
pub open spec fn entry_weight(e: (NodeId, Seq<NodeId>), base: int, cap: int) -> int {
    vstd::arithmetic::power::pow(base, (cap - e.1.len()) as nat)
}

/// The total termination weight of a stack.
pub open spec fn stack_measure(s: Seq<(NodeId, Seq<NodeId>)>, base: int, cap: int) -> int
    decreases s.len(),
{
    if s.len() == 0 {
        0
    } else {
        stack_measure(s.drop_last(), base, cap) + entry_weight(s.last(), base, cap)
    }
}

proof fn lemma_measure_add(
    a: Seq<(NodeId, Seq<NodeId>)>,
    b: Seq<(NodeId, Seq<NodeId>)>,
    base: int,
    cap: int,
)
    ensures
        stack_measure(a + b, base, cap) == stack_measure(a, base, cap) + stack_measure(
            b,
            base,
            cap,
        ),
    decreases b.len(),
{
    if b.len() == 0 {
        assert(a + b =~= a);
    } else {
        assert((a + b).drop_last() =~= a + b.drop_last());
        assert((a + b).last() == b.last());
        lemma_measure_add(a, b.drop_last(), base, cap);
    }
}

proof fn lemma_measure_nonneg(s: Seq<(NodeId, Seq<NodeId>)>, base: int, cap: int)
    requires
        base >= 1,
    ensures
        stack_measure(s, base, cap) >= 0,
    decreases s.len(),
{
    if s.len() > 0 {
        lemma_measure_nonneg(s.drop_last(), base, cap);
        vstd::arithmetic::power::lemma_pow_positive(base, (cap - s.last().1.len()) as nat);
    }
}

/// A stack whose entries all weigh `w` weighs `len * w`.
proof fn lemma_measure_uniform(s: Seq<(NodeId, Seq<NodeId>)>, base: int, cap: int, w: int)
    requires
        forall|i: int| 0 <= i < s.len() ==> entry_weight(#[trigger] s[i], base, cap) == w,
    ensures
        stack_measure(s, base, cap) == s.len() * w,
    decreases s.len(),
{
    if s.len() == 0 {
    } else {
        let p = s.drop_last();
        assert forall|i: int| 0 <= i < p.len() implies entry_weight(
            #[trigger] p[i],
            base,
            cap,
        ) == w by {
            assert(p[i] == s[i]);
        }
        lemma_measure_uniform(p, base, cap, w);
        assert(entry_weight(s.last(), base, cap) == w) by {
            assert(s[s.len() - 1] == s.last());
        }
        assert(p.len() * w + w == s.len() * w) by (nonlinear_arith)
            requires p.len() == s.len() - 1;
    }
}

/// A well-formed path cannot be longer than the number of keys plus one:
/// all vertices but the last are distinct keys.
proof fn lemma_entry_len_bound(t: Seq<(NodeId, Seq<NodeId>)>, e: (NodeId, Seq<NodeId>))
    requires
        wf_entry(t, e),
        key_sorted(t),
    ensures
        e.1.len() <= t.len() + 1,
{
    broadcast use vstd::seq_lib::seq_to_set_is_finite;

    let prefix = e.1.drop_last();
    assert(prefix.no_duplicates()) by {
        assert forall|i: int, j: int|
            0 <= i < prefix.len() && 0 <= j < prefix.len() && i != j implies prefix[i]
            != prefix[j] by {
            assert(prefix[i] == e.1[i] && prefix[j] == e.1[j]);
        }
    }
    let keys = pair_keys(t);
    assert forall|i: int| 0 <= i < prefix.len() implies keys.to_set().contains(
        #[trigger] prefix[i],
    ) by {
        assert(topo_has(t, e.1[i]));
        let w = choose|w: int| 0 <= w < t.len() && t[w].0 == e.1[i];
        assert(keys[w] == e.1[i]);
        assert(keys.contains(e.1[i]));
    }
    prefix.unique_seq_to_set();
    assert(prefix.to_set().subset_of(keys.to_set()));
    vstd::set_lib::lemma_len_subset(prefix.to_set(), keys.to_set());
    keys.lemma_cardinality_of_set();
}

/// What the neighbour scan contributes is bounded and well-formed: at
/// most one push per neighbour, each pushed path one longer than the
/// parent's.
proof fn lemma_step_props(
    t: Seq<(NodeId, Seq<NodeId>)>,
    nbrs: Seq<NodeId>,
    path: Seq<NodeId>,
    visited: Set<NodeId>,
    j: int,
)
    requires
        0 <= j <= nbrs.len(),
        path.len() >= 1,
        path.no_duplicates(),
        forall|i: int| 0 <= i < path.len() - 1 ==> topo_has(t, #[trigger] path[i]),
        j > 0 ==> topo_has(t, path.last()),
    ensures
        step_neighbors(nbrs, path, visited, j).1.len() <= j,
        forall|i: int|
            0 <= i < step_neighbors(nbrs, path, visited, j).1.len() ==> wf_entry(
                t,
                #[trigger] step_neighbors(nbrs, path, visited, j).1[i],
            ) && step_neighbors(nbrs, path, visited, j).1[i].1.len() == path.len() + 1,
    decreases j,
{
    if j > 0 {
        lemma_step_props(t, nbrs, path, visited, j - 1);
        let prev = step_neighbors(nbrs, path, visited, j - 1);
        let nb = nbrs[j - 1];
        if !path.contains(nb) && !visited.contains(nb) {
            let child = (nb, path.push(nb));
            assert(wf_entry(t, child)) by {
                let p2 = path.push(nb);
                assert(p2.last() == nb);
                assert(p2.no_duplicates()) by {
                    assert forall|a: int, b: int|
                        0 <= a < p2.len() && 0 <= b < p2.len() && a != b implies p2[a] != p2[b] by {
                        if a < path.len() && b < path.len() {
                        } else if a < path.len() {
                            assert(p2[b] == nb);
                            assert(p2[a] == path[a]);
                            assert(!path.contains(nb));
                            if path[a] == nb {
                                assert(path.contains(nb));
                            }
                        } else {
                            assert(p2[a] == nb);
                            assert(p2[b] == path[b]);
                            if path[b] == nb {
                                assert(path.contains(nb));
                            }
                        }
                    }
                }
                assert forall|i: int| 0 <= i < p2.len() - 1 implies topo_has(
                    t,
                    #[trigger] p2[i],
                ) by {
                    assert(p2[i] == path[i]);
                    if i == path.len() - 1 {
                        assert(path[i] == path.last());
                    }
                }
            }
            assert(step_neighbors(nbrs, path, visited, j).1 == prev.1.push(child));
        }
    }
}

/// Pushing onto a sequence inserts into its set.
pub proof fn lemma_to_set_push<A>(s: Seq<A>, x: A)
    ensures
        s.push(x).to_set() =~= s.to_set().insert(x),
{
    assert forall|y: A| s.push(x).contains(y) implies (s.contains(y) || y == x) by {
        let i = choose|i: int| 0 <= i < s.push(x).len() && s.push(x)[i] == y;
        if i < s.len() {
            assert(s[i] == y);
        }
    }
    assert forall|y: A| s.contains(y) implies s.push(x).contains(y) by {
        let i = choose|i: int| 0 <= i < s.len() && s[i] == y;
        assert(s.push(x)[i] == y);
    }
    assert(s.push(x).contains(x)) by {
        assert(s.push(x)[s.len() as int] == x);
    }
}

/// The position of the first occurrence of `x` in `v`.
fn first_pos(v: &Vec<NodeId>, x: NodeId) -> (p: usize)
    requires
        v@.contains(x),
    ensures
        0 <= p < v@.len(),
        p as int == first_index(v@, x),
{
    let n = v.len();
    let mut i: usize = 0;
    while i < n
        invariant
            0 <= i <= n,
            n == v@.len(),
            forall|k: int| 0 <= k < i ==> v@[k] != x,
        decreases n - i,
    {
        if v[i].0 == x.0 {
            assert(v@[i as int] == x);
            proof {
                lemma_first_index_is(v@, x, i as int);
            }
            return i;
        }
        i = i + 1;
    }
    proof {
        let w = choose|w: int| 0 <= w < v@.len() && v@[w] == x;
        assert(false);
    }
    0
}

/// The suffix of `v` from `from` onward, as a fresh list.
fn suffix_ids(v: &Vec<NodeId>, from: usize) -> (r: Vec<NodeId>)
    requires
        from <= v@.len(),
    ensures
        r@ == v@.subrange(from as int, v@.len() as int),
{
    let n = v.len();
    let mut out: Vec<NodeId> = Vec::new();
    let mut i: usize = from;
    while i < n
        invariant
            from <= i <= n,
            n == v@.len(),
            out@ == v@.subrange(from as int, i as int),
        decreases n - i,
    {
        out.push(v[i]);
        proof {
            assert(out@ =~= v@.subrange(from as int, i as int + 1));
        }
        i = i + 1;
    }
    out
}

impl Topology {
    /// Enumerates cycles of the overlay by a depth-first traversal
    /// starting from the smallest node; the result is exactly what the
    /// fuelled enumeration yields once given enough fuel.
    fn find_cycles(&self) -> (r: Vec<Vec<NodeId>>)
        requires
            self.wf(),
            self.0@.len() > 0,
        ensures
            exists|f: nat|
                dfs_fuel(self@, init_stack(self@), Set::empty(), Seq::empty(), f) == Some(
                    cycles_view(r@),
                ),
    {
        let ghost t = self@;
        let ghost base = max_deg(t) + 2;
        let ghost cap = t.len() as int + 2;
        let start = self.0[0].0;
        let mut path0: Vec<NodeId> = Vec::new();
        path0.push(start);
        let mut stack: Vec<(NodeId, Vec<NodeId>)> = Vec::new();
        stack.push((start, path0));
        let mut visited: Vec<NodeId> = Vec::new();
        let mut cycles: Vec<Vec<NodeId>> = Vec::new();
        proof {
            assert(pairs_view(stack@) =~= init_stack(t)) by {
                assert(pairs_view(stack@)[0] == (start, seq![start]));
                assert(init_stack(t)[0] == (t[0].0, seq![t[0].0]));
                assert(t[0].0 == start);
            }
            assert(visited@.to_set() =~= Set::<NodeId>::empty());
            assert(cycles_view(cycles@) =~= Seq::<Seq<NodeId>>::empty());
            assert(wf_stack(t, pairs_view(stack@))) by {
                let e = pairs_view(stack@)[0];
                assert(e == (start, seq![start]));
                assert(e.1.len() == 1 && e.1.last() == start && e.1.no_duplicates());
            }
        }
        while stack.len() > 0
            invariant
                t == self@,
                topo_wf(t),
                wf_stack(t, pairs_view(stack@)),
                base == max_deg(t) + 2,
                cap == t.len() as int + 2,
                forall|f: nat|
                    (#[trigger] dfs_fuel(
                        t,
                        pairs_view(stack@),
                        visited@.to_set(),
                        cycles_view(cycles@),
                        f,
                    )) is Some ==> exists|f0: nat|
                        dfs_fuel(t, init_stack(t), Set::empty(), Seq::empty(), f0) == dfs_fuel(
                            t,
                            pairs_view(stack@),
                            visited@.to_set(),
                            cycles_view(cycles@),
                            f,
                        ),
            decreases stack_measure(pairs_view(stack@), max_deg(t) + 2, t.len() as int + 2),
        {
            let ghost old_sv = pairs_view(stack@);
            let ghost old_vset = visited@.to_set();
            let ghost old_cv = cycles_view(cycles@);
            let ghost pre_pop_raw = stack@;
            let e = stack.pop().unwrap();
            let node = e.0;
            let path = e.1;
            proof {
                assert(old_sv.last() == (node, path@)) by {
                    assert(old_sv[old_sv.len() - 1] == (pre_pop_raw.last().0, pre_pop_raw.last().1@));
                }
                assert(pairs_view(stack@) =~= old_sv.drop_last()) by {
                    assert(stack@ == pre_pop_raw.drop_last());
                    assert forall|i: int| 0 <= i < stack@.len() implies pairs_view(stack@)[i]
                        == old_sv.drop_last()[i] by {
                        assert(stack@[i] == pre_pop_raw[i]);
                    }
                }
            }
            let ghost pre_visited = visited@;
            visited.push(node);
            proof {
                lemma_to_set_push(pre_visited, node);
            }
            let ghost vset2 = visited@.to_set();
            let nbrs = self.get_neighbors(&node);
            let ghost pre_stack = pairs_view(stack@);
            let ghost pre_cycles = cycles_view(cycles@);
            let ghost pathv = path@;
            let n_nb = nbrs.len();
            let mut j: usize = 0;
            proof {
                assert(cycles_view(cycles@) =~= pre_cycles + step_neighbors(
                    nbrs@,
                    pathv,
                    vset2,
                    0,
                ).0);
                assert(pairs_view(stack@) =~= pre_stack + step_neighbors(nbrs@, pathv, vset2, 0).1);
            }
            while j < n_nb
                invariant
                    0 <= j <= n_nb,
                    n_nb == nbrs@.len(),
                    nbrs@ == spec_neighbors(t, node),
                    path@ == pathv,
                    visited@.to_set() == vset2,
                    cycles_view(cycles@) == pre_cycles + step_neighbors(
                        nbrs@,
                        pathv,
                        vset2,
                        j as int,
                    ).0,
                    pairs_view(stack@) == pre_stack + step_neighbors(
                        nbrs@,
                        pathv,
                        vset2,
                        j as int,
                    ).1,
                decreases n_nb - j,
            {
                let ghost stepj = step_neighbors(nbrs@, pathv, vset2, j as int);
                let ghost stepj1 = step_neighbors(nbrs@, pathv, vset2, j as int + 1);
                let nb = nbrs[j];
                if contains_id(&path, nb) {
                    let pos = first_pos(&path, nb);
                    let cyc = suffix_ids(&path, pos);
                    let ghost pre_cyc_raw = cycles@;
                    cycles.push(cyc);
                    proof {
                        assert(cycles_view(cycles@) =~= cycles_view(pre_cyc_raw).push(cyc@));
                        assert(cyc@ == pathv.subrange(first_index(pathv, nb), pathv.len() as int));
                        assert(stepj1.0 == stepj.0.push(
                            pathv.subrange(first_index(pathv, nb), pathv.len() as int),
                        ) && stepj1.1 == stepj.1);
                        assert(cycles_view(cycles@) =~= pre_cycles + stepj1.0);
                    }
                } else if !contains_id(&visited, nb) {
                    let mut p2 = clone_ids(&path);
                    p2.push(nb);
                    let ghost pre_stack_raw = stack@;
                    stack.push((nb, p2));
                    proof {
                        assert(!vset2.contains(nb)) by {
                            assert(!visited@.contains(nb));
                        }
                        assert(pairs_view(stack@) =~= pairs_view(pre_stack_raw).push((nb, p2@)));
                        assert(p2@ == pathv.push(nb));
                        assert(stepj1.0 == stepj.0 && stepj1.1 == stepj.1.push((
                            nb,
                            pathv.push(nb),
                        )));
                        assert(pairs_view(stack@) =~= pre_stack + stepj1.1);
                    }
                } else {
                    proof {
                        assert(vset2.contains(nb)) by {
                            assert(visited@.contains(nb));
                        }
                        assert(stepj1 == stepj);
                    }
                }
                j = j + 1;
            }
            proof {
                let stepn = step_neighbors(nbrs@, pathv, vset2, n_nb as int);
                // correspondence with the fuelled enumeration: one unfolding
                assert forall|f: nat|
                    (#[trigger] dfs_fuel(
                        t,
                        pairs_view(stack@),
                        visited@.to_set(),
                        cycles_view(cycles@),
                        f,
                    )) is Some implies exists|f0: nat|
                    dfs_fuel(t, init_stack(t), Set::empty(), Seq::empty(), f0) == dfs_fuel(
                        t,
                        pairs_view(stack@),
                        visited@.to_set(),
                        cycles_view(cycles@),
                        f,
                    ) by {
                    let fh: nat = f + 1;
                    assert(old_vset.insert(node) == vset2);
                    assert(pairs_view(stack@) == old_sv.drop_last() + stepn.1);
                    assert(cycles_view(cycles@) == old_cv + stepn.0);
                    assert(dfs_fuel(t, old_sv, old_vset, old_cv, fh) == dfs_fuel(
                        t,
                        pairs_view(stack@),
                        vset2,
                        cycles_view(cycles@),
                        f,
                    ));
                }
                // well-formedness of the new stack
                assert(wf_entry(t, (node, pathv))) by {
                    assert(old_sv[old_sv.len() - 1] == (node, pathv));
                }
                if n_nb > 0 {
                    lemma_nonempty_lookup_has(t, node);
                    assert(topo_has(t, pathv.last()));
                }
                lemma_step_props(t, nbrs@, pathv, vset2, n_nb as int);
                assert(wf_stack(t, pairs_view(stack@))) by {
                    assert forall|i: int| 0 <= i < pairs_view(stack@).len() implies wf_entry(
                        t,
                        #[trigger] pairs_view(stack@)[i],
                    ) by {
                        if i < pre_stack.len() {
                            assert(pairs_view(stack@)[i] == pre_stack[i]);
                            assert(pre_stack[i] == old_sv.drop_last()[i]);
                            assert(old_sv[i] == old_sv.drop_last()[i]);
                        } else {
                            assert(pairs_view(stack@)[i] == stepn.1[i - pre_stack.len()]);
                        }
                    }
                }
                // the measure shrinks: the popped entry outweighs what the
                // scan pushed
                let el: int = pathv.len() as int;
                lemma_entry_len_bound(t, (node, pathv));
                assert(1 <= el && el <= cap - 1);
                let w_child = vstd::arithmetic::power::pow(base, (cap - el - 1) as nat);
                let w = vstd::arithmetic::power::pow(base, (cap - el) as nat);
                vstd::arithmetic::power::lemma_pow_positive(base, (cap - el - 1) as nat);
                assert(w == base * w_child) by {
                    vstd::arithmetic::power::lemma_pow_adds(base, 1, (cap - el - 1) as nat);
                    vstd::arithmetic::power::lemma_pow1(base);
                }
                lemma_measure_add(pre_stack, stepn.1, base, cap);
                assert forall|i: int| 0 <= i < stepn.1.len() implies entry_weight(
                    #[trigger] stepn.1[i],
                    base,
                    cap,
                ) == w_child by {
                    assert(stepn.1[i].1.len() == el + 1);
                }
                lemma_measure_uniform(stepn.1, base, cap, w_child);
                lemma_max_deg_bound(t, node);
                assert(stepn.1.len() <= n_nb <= base - 2);
                assert(stack_measure(old_sv, base, cap) == stack_measure(pre_stack, base, cap)
                    + w) by {
                    assert(old_sv.drop_last() == pre_stack);
                    assert(entry_weight(old_sv.last(), base, cap) == w);
                }
                assert(stepn.1.len() * w_child <= (base - 2) * w_child) by (nonlinear_arith)
                    requires stepn.1.len() <= base - 2 && w_child >= 1;
                assert((base - 2) * w_child == base * w_child - 2 * w_child) by (nonlinear_arith);
                assert(stack_measure(pairs_view(stack@), base, cap) < stack_measure(
                    old_sv,
                    base,
                    cap,
                ));
                lemma_measure_nonneg(pairs_view(stack@), base, cap);
            }
        }
        proof {
            assert(dfs_fuel(t, pairs_view(stack@), visited@.to_set(), cycles_view(cycles@), 0)
                == Some(cycles_view(cycles@)));
        }
        cycles
    }
}

/// Whether a different cycle of `cur` contains every vertex of `cy`.
pub open spec fn absorbed(cur: Seq<Seq<NodeId>>, cy: Seq<NodeId>) -> bool {
    exists|j: int| 0 <= j < cur.len() && cur[j] != cy && cycle_contained(cy, #[trigger] cur[j])
}

/// The pruning pass from position `i` of the snapshot: a cycle of the
/// snapshot absorbed by a different cycle still current is dropped, every
/// copy of it at once.
pub open spec fn prune_from(snap: Seq<Seq<NodeId>>, i: int, cur: Seq<Seq<NodeId>>) -> Seq<
    Seq<NodeId>,
>
    decreases snap.len() - i,
{
    if i < 0 || i >= snap.len() {
        cur
    } else {
        let cy = snap[i];
        let cur2 = if absorbed(cur, cy) {
            drop_eq(cur, cy)
        } else {
            cur
        };
        prune_from(snap, i + 1, cur2)
    }
}

/// `s` with every cycle equal to `cy` dropped.
pub open spec fn drop_eq(s: Seq<Seq<NodeId>>, cy: Seq<NodeId>) -> Seq<Seq<NodeId>>
    decreases s.len(),
{
    if s.len() == 0 {
        s
    } else {
        let d = drop_eq(s.drop_last(), cy);
        if s.last() != cy {
            d.push(s.last())
        } else {
            d
        }
    }
}

/// What one cycle contributes to the next-hop list of `n`: the vertex
/// after `n`'s first occurrence, wrapping to the front at the end, and
/// nothing from cycles of one vertex or cycles that avoid `n`.
pub open spec fn emit_of(c: Seq<NodeId>, n: NodeId) -> Seq<NodeId> {
    if !c.contains(n) {
        Seq::empty()
    } else {
        let pos = first_index(c, n);
        if c.len() == 1 {
            Seq::empty()
        } else if pos == c.len() - 1 {
            seq![c[0]]
        } else {
            seq![c[pos + 1]]
        }
    }
}

/// The concatenated contributions of the first `i` cycles.
pub open spec fn emit_upto(cycles: Seq<Seq<NodeId>>, n: NodeId, i: int) -> Seq<NodeId>
    decreases i,
{
    if i <= 0 {
        Seq::empty()
    } else {
        emit_upto(cycles, n, i - 1) + emit_of(cycles[i - 1], n)
    }
}

/// The first `i` elements with repeats dropped, keeping first occurrences.
pub open spec fn dedup_upto(s: Seq<NodeId>, i: int) -> Seq<NodeId>
    decreases i,
{
    if i <= 0 {
        Seq::empty()
    } else {
        let d = dedup_upto(s, i - 1);
        if d.contains(s[i - 1]) {
            d
        } else {
            d.push(s[i - 1])
        }
    }
}

/// The next-hop list computed from the enumerated cycles: the pruned
/// cycles' contributions deduplicated, or the plain neighbour list when
/// no cycle survives.
pub open spec fn next_from_cycles(
    t: Seq<(NodeId, Seq<NodeId>)>,
    cycles: Seq<Seq<NodeId>>,
    n: NodeId,
) -> Seq<NodeId> {
    let pruned = prune_from(cycles, 0, cycles);
    if pruned.len() == 0 {
        spec_neighbors(t, n)
    } else {
        let es = emit_upto(pruned, n, pruned.len() as int);
        dedup_upto(es, es.len() as int)
    }
}

/// What `next` returns, given fuel `f` for the cycle enumeration: `None`
/// only when the fuel does not suffice, and one fixed list otherwise.
pub open spec fn spec_next_fuel(t: Seq<(NodeId, Seq<NodeId>)>, n: NodeId, f: nat) -> Option<
    Seq<NodeId>,
> {
    if t.len() == 0 {
        Some(Seq::empty())
    } else {
        match dfs_fuel(t, init_stack(t), Set::empty(), Seq::empty(), f) {
            Some(cycles) => Some(next_from_cycles(t, cycles, n)),
            None => None,
        }
    }
}

/// Reports whether the two lists hold the same ids in the same order.
fn eq_ids(a: &Vec<NodeId>, b: &Vec<NodeId>) -> (r: bool)
    ensures
        r == (a@ == b@),
{
    if a.len() != b.len() {
        assert(a@ != b@) by {
            assert(a@.len() != b@.len());
        }
        return false;
    }
    let n = a.len();
    let mut i: usize = 0;
    while i < n
        invariant
            0 <= i <= n,
            n == a@.len() && n == b@.len(),
            forall|k: int| 0 <= k < i ==> a@[k] == b@[k],
        decreases n - i,
    {
        if a[i].0 != b[i].0 {
            assert(a@[i as int] != b@[i as int]);
            return false;
        }
        assert(a@[i as int] == b@[i as int]);
        i = i + 1;
    }
    proof {
        assert(a@ =~= b@);
    }
    true
}

/// Clones a list of cycles.
fn clone_cycles(v: &Vec<Vec<NodeId>>) -> (r: Vec<Vec<NodeId>>)
    ensures
        cycles_view(r@) == cycles_view(v@),
{
    let n = v.len();
    let mut out: Vec<Vec<NodeId>> = Vec::new();
    let mut i: usize = 0;
    while i < n
        invariant
            0 <= i <= n,
            n == v@.len(),
            cycles_view(out@) == cycles_view(v@).subrange(0, i as int),
        decreases n - i,
    {
        let ghost pre = out@;
        out.push(clone_ids(&v[i]));
        proof {
            assert(cycles_view(out@) =~= cycles_view(pre).push(v@[i as int]@));
            assert(cycles_view(out@) =~= cycles_view(v@).subrange(0, i as int + 1));
        }
        i = i + 1;
    }
    proof {
        assert(cycles_view(v@).subrange(0, n as int) =~= cycles_view(v@));
    }
    out
}

/// Whether some other cycle of `cur` contains every vertex of `cy`.
fn absorbed_exec(cur: &Vec<Vec<NodeId>>, cy: &Vec<NodeId>) -> (r: bool)
    ensures
        r == absorbed(cycles_view(cur@), cy@),
{
    let n = cur.len();
    let mut j: usize = 0;
    while j < n
        invariant
            0 <= j <= n,
            n == cur@.len(),
            forall|k: int|
                0 <= k < j ==> !(cycles_view(cur@)[k] != cy@ && cycle_contained(
                    cy@,
                    #[trigger] cycles_view(cur@)[k],
                )),
        decreases n - j,
    {
        if !eq_ids(&cur[j], cy) && Topology::contains_cycle(&cur[j], cy) {
            assert(cycles_view(cur@)[j as int] == cur@[j as int]@);
            return true;
        }
        assert(cycles_view(cur@)[j as int] == cur@[j as int]@);
        j = j + 1;
    }
    false
}

/// Drops every cycle equal to `cy`.
fn remove_equal(cur: Vec<Vec<NodeId>>, cy: &Vec<NodeId>) -> (r: Vec<Vec<NodeId>>)
    ensures
        cycles_view(r@) == drop_eq(cycles_view(cur@), cy@),
{
    let ghost fv = cycles_view(cur@);
    let n = cur.len();
    let mut out: Vec<Vec<NodeId>> = Vec::new();
    let mut i: usize = 0;
    while i < n
        invariant
            0 <= i <= n,
            n == cur@.len(),
            fv == cycles_view(cur@),
            cycles_view(out@) == drop_eq(fv.subrange(0, i as int), cy@),
        decreases n - i,
    {
        let ghost pre = cycles_view(out@);
        let keep = !eq_ids(&cur[i], cy);
        proof {
            assert(fv.subrange(0, i as int + 1).drop_last() =~= fv.subrange(0, i as int));
            assert(fv.subrange(0, i as int + 1).last() == fv[i as int]);
            assert(fv[i as int] == cur@[i as int]@);
        }
        if keep {
            out.push(clone_ids(&cur[i]));
            proof {
                assert(cycles_view(out@) =~= pre.push(cur@[i as int]@));
                assert(cycles_view(out@) == drop_eq(fv.subrange(0, i as int + 1), cy@));
            }
        } else {
            proof {
                assert(cycles_view(out@) == drop_eq(fv.subrange(0, i as int + 1), cy@));
            }
        }
        i = i + 1;
    }
    proof {
        assert(fv.subrange(0, n as int) =~= fv);
    }
    out
}

/// The pruning pass over a snapshot of the enumerated cycles.
fn prune(snap: &Vec<Vec<NodeId>>) -> (r: Vec<Vec<NodeId>>)
    ensures
        cycles_view(r@) == prune_from(cycles_view(snap@), 0, cycles_view(snap@)),
{
    let ghost sv = cycles_view(snap@);
    let mut cur = clone_cycles(snap);
    let n = snap.len();
    let mut i: usize = 0;
    while i < n
        invariant
            0 <= i <= n,
            n == snap@.len(),
            sv == cycles_view(snap@),
            prune_from(sv, 0, sv) == prune_from(sv, i as int, cycles_view(cur@)),
        decreases n - i,
    {
        let ghost pre = cycles_view(cur@);
        proof {
            assert(snap@[i as int]@ == sv[i as int]);
        }
        if absorbed_exec(&cur, &snap[i]) {
            cur = remove_equal(cur, &snap[i]);
            proof {
                assert(absorbed(pre, sv[i as int]));
                assert(cycles_view(cur@) == drop_eq(pre, sv[i as int]));
            }
        } else {
            proof {
                assert(!absorbed(pre, sv[i as int]));
            }
        }
        proof {
            assert(prune_from(sv, i as int, pre) == prune_from(sv, i as int + 1, cycles_view(cur@)));
        }
        i = i + 1;
    }
    proof {
        assert(prune_from(sv, n as int, cycles_view(cur@)) == cycles_view(cur@));
    }
    cur
}

/// The concatenated contributions of the pruned cycles to `node_id`.
fn emit_targets(cycles: &Vec<Vec<NodeId>>, node_id: NodeId) -> (r: Vec<NodeId>)
    ensures
        r@ == emit_upto(cycles_view(cycles@), node_id, cycles@.len() as int),
{
    let ghost cv = cycles_view(cycles@);
    let n = cycles.len();
    let mut out: Vec<NodeId> = Vec::new();
    let mut i: usize = 0;
    while i < n
        invariant
            0 <= i <= n,
            n == cycles@.len(),
            cv == cycles_view(cycles@),
            out@ == emit_upto(cv, node_id, i as int),
        decreases n - i,
    {
        let c = &cycles[i];
        proof {
            assert(cv[i as int] == cycles@[i as int]@);
        }
        if contains_id(c, node_id) {
            let pos = first_pos(c, node_id);
            if c.len() == 1 {
                proof {
                    assert(emit_of(cv[i as int], node_id) =~= Seq::<NodeId>::empty());
                    assert(out@ =~= emit_upto(cv, node_id, i as int + 1));
                }
            } else if pos == c.len() - 1 {
                out.push(c[0]);
                proof {
                    assert(emit_of(cv[i as int], node_id) =~= seq![cv[i as int][0]]);
                    assert(out@ =~= emit_upto(cv, node_id, i as int + 1));
                }
            } else {
                out.push(c[pos + 1]);
                proof {
                    assert(emit_of(cv[i as int], node_id) =~= seq![cv[i as int][pos + 1]]);
                    assert(out@ =~= emit_upto(cv, node_id, i as int + 1));
                }
            }
        } else {
            proof {
                assert(emit_of(cv[i as int], node_id) =~= Seq::<NodeId>::empty());
                assert(out@ =~= emit_upto(cv, node_id, i as int + 1));
            }
        }
        i = i + 1;
    }
    out
}

/// Keeps the first occurrence of each id.
fn dedup_ids(v: &Vec<NodeId>) -> (r: Vec<NodeId>)
    ensures
        r@ == dedup_upto(v@, v@.len() as int),
{
    let n = v.len();
    let mut out: Vec<NodeId> = Vec::new();
    let mut i: usize = 0;
    while i < n
        invariant
            0 <= i <= n,
            n == v@.len(),
            out@ == dedup_upto(v@, i as int),
        decreases n - i,
    {
        if !contains_id(&out, v[i]) {
            out.push(v[i]);
        }
        i = i + 1;
    }
    out
}

impl Topology {
    /// The nodes this node should broadcast to: the next hop along every
    /// surviving cycle through it, deduplicated in order of discovery; or
    /// its plain neighbour list when the overlay has no cycles.
    pub fn next(&self, node_id: NodeId) -> (r: Vec<NodeId>)
        requires
            self.wf(),
        ensures
            exists|f: nat| spec_next_fuel(self@, node_id, f) == Some(r@),
    {
        let ghost t = self@;
        if self.0.len() == 0 {
            let r: Vec<NodeId> = Vec::new();
            proof {
                assert(spec_next_fuel(t, node_id, 0) == Some(r@)) by {
                    assert(r@ =~= Seq::<NodeId>::empty());
                }
            }
            return r;
        }
        let cycles = self.find_cycles();
        let ghost f = choose|f: nat|
            dfs_fuel(t, init_stack(t), Set::empty(), Seq::empty(), f) == Some(
                cycles_view(cycles@),
            );
        let pruned = prune(&cycles);
        if pruned.len() == 0 {
            let r = self.get_neighbors(&node_id);
            proof {
                assert(spec_next_fuel(t, node_id, f) == Some(r@));
            }
            r
        } else {
            let emitted = emit_targets(&pruned, node_id);
            let r = dedup_ids(&emitted);
            proof {
                assert(spec_next_fuel(t, node_id, f) == Some(r@));
            }
            r
        }
    }
}

/// Two well-formed topologies over the same map are the same value: the
/// sorted association list is a canonical form.
proof fn lemma_canonical_form(t1: Seq<(NodeId, Seq<NodeId>)>, t2: Seq<(NodeId, Seq<NodeId>)>)
    requires
        topo_wf(t1),
        topo_wf(t2),
        pair_keys(t1).to_set() == pair_keys(t2).to_set(),
        forall|k: NodeId| spec_neighbors(t1, k) == spec_neighbors(t2, k),
    ensures
        t1 == t2,
    decreases t1.len(),
{
    if t1.len() == 0 {
        if t2.len() > 0 {
            assert(pair_keys(t2).contains(t2[0].0)) by {
                assert(pair_keys(t2)[0] == t2[0].0);
            }
            assert(pair_keys(t1).to_set().contains(t2[0].0));
            let w = choose|w: int| 0 <= w < pair_keys(t1).len() && pair_keys(t1)[w] == t2[0].0;
            assert(false);
        }
        assert(t1 =~= t2);
    } else {
        if t2.len() == 0 {
            assert(pair_keys(t1).contains(t1[0].0)) by {
                assert(pair_keys(t1)[0] == t1[0].0);
            }
            assert(pair_keys(t2).to_set().contains(t1[0].0));
            let w = choose|w: int| 0 <= w < pair_keys(t2).len() && pair_keys(t2)[w] == t1[0].0;
            assert(false);
        }
        let k1 = t1[0].0;
        let k2 = t2[0].0;
        assert(pair_keys(t2).to_set().contains(k1)) by {
            assert(pair_keys(t1)[0] == k1);
            assert(pair_keys(t1).contains(k1));
        }
        assert(pair_keys(t1).to_set().contains(k2)) by {
            assert(pair_keys(t2)[0] == k2);
            assert(pair_keys(t2).contains(k2));
        }
        let i2 = choose|i: int| 0 <= i < pair_keys(t2).len() && pair_keys(t2)[i] == k1;
        assert(t2[i2].0 == k1);
        assert(k2.0 <= k1.0);
        let i1 = choose|i: int| 0 <= i < pair_keys(t1).len() && pair_keys(t1)[i] == k2;
        assert(t1[i1].0 == k2);
        assert(k1.0 <= k2.0);
        assert(k1 == k2);
        assert(t1[0].1 == spec_neighbors(t1, k1));
        assert(t2[0].1 == spec_neighbors(t2, k1));
        assert(t1[0] == t2[0]);
        let s1 = t1.drop_first();
        let s2 = t2.drop_first();
        assert(topo_wf(s1)) by {
            assert forall|i: int| 0 <= i < s1.len() implies ids_sorted(#[trigger] s1[i].1) by {
                assert(s1[i] == t1[i + 1]);
            }
            assert forall|i: int, j: int| 0 <= i < j < s1.len() implies s1[i].0.0 < s1[j].0.0 by {
                assert(s1[i] == t1[i + 1] && s1[j] == t1[j + 1]);
            }
        }
        assert(topo_wf(s2)) by {
            assert forall|i: int| 0 <= i < s2.len() implies ids_sorted(#[trigger] s2[i].1) by {
                assert(s2[i] == t2[i + 1]);
            }
            assert forall|i: int, j: int| 0 <= i < j < s2.len() implies s2[i].0.0 < s2[j].0.0 by {
                assert(s2[i] == t2[i + 1] && s2[j] == t2[j + 1]);
            }
        }
        assert(!topo_has(s1, k1)) by {
            if topo_has(s1, k1) {
                let w = choose|w: int| 0 <= w < s1.len() && s1[w].0 == k1;
                assert(s1[w] == t1[w + 1]);
                assert(t1[0].0.0 < t1[w + 1].0.0);
            }
        }
        assert(!topo_has(s2, k1)) by {
            if topo_has(s2, k1) {
                let w = choose|w: int| 0 <= w < s2.len() && s2[w].0 == k1;
                assert(s2[w] == t2[w + 1]);
                assert(t2[0].0.0 < t2[w + 1].0.0);
            }
        }
        assert(pair_keys(s1).to_set() =~= pair_keys(s2).to_set()) by {
            assert forall|k: NodeId| pair_keys(s1).to_set().contains(k) implies pair_keys(
                s2,
            ).to_set().contains(k) by {
                let w = choose|w: int| 0 <= w < pair_keys(s1).len() && pair_keys(s1)[w] == k;
                assert(s1[w] == t1[w + 1]);
                assert(pair_keys(t1)[w + 1] == k);
                assert(pair_keys(t1).contains(k));
                assert(pair_keys(t2).to_set().contains(k));
                let v = choose|v: int| 0 <= v < pair_keys(t2).len() && pair_keys(t2)[v] == k;
                assert(t2[v].0 == k);
                assert(k != k1) by {
                    assert(t1[0].0.0 < t1[w + 1].0.0);
                }
                assert(v > 0) by {
                    if v == 0 {
                        assert(k == k2);
                    }
                }
                assert(s2[v - 1].0 == k);
                assert(pair_keys(s2)[v - 1] == k);
                assert(pair_keys(s2).contains(k));
            }
            assert forall|k: NodeId| pair_keys(s2).to_set().contains(k) implies pair_keys(
                s1,
            ).to_set().contains(k) by {
                let w = choose|w: int| 0 <= w < pair_keys(s2).len() && pair_keys(s2)[w] == k;
                assert(s2[w] == t2[w + 1]);
                assert(pair_keys(t2)[w + 1] == k);
                assert(pair_keys(t2).contains(k));
                assert(pair_keys(t1).to_set().contains(k));
                let v = choose|v: int| 0 <= v < pair_keys(t1).len() && pair_keys(t1)[v] == k;
                assert(t1[v].0 == k);
                assert(k != k1) by {
                    assert(t2[0].0.0 < t2[w + 1].0.0);
                }
                assert(v > 0) by {
                    if v == 0 {
                        assert(k == k1);
                    }
                }
                assert(s1[v - 1].0 == k);
                assert(pair_keys(s1)[v - 1] == k);
                assert(pair_keys(s1).contains(k));
            }
        }
        assert forall|k: NodeId| #[trigger] spec_neighbors(s1, k) == spec_neighbors(s2, k) by {
            if k == k1 {
                lemma_lookup_missing(s1, k);
                lemma_lookup_missing(s2, k);
            } else {
                assert(spec_neighbors(t1, k) == spec_neighbors(s1, k));
                assert(spec_neighbors(t2, k) == spec_neighbors(s2, k));
            }
        }
        lemma_canonical_form(s1, s2);
        assert(t1 =~= t2) by {
            assert forall|i: int| 0 <= i < t1.len() implies t1[i] == t2[i] by {
                if i > 0 {
                    assert(s1[i - 1] == t1[i] && s2[i - 1] == t2[i]);
                }
            }
        }
    }
}

/// The next-hop selection is a pure function of the topology map: two
/// well-formed topologies that describe the same adjacency map yield the
/// same list for every node, whatever fuel each enumeration used.
pub proof fn lemma_next_pure(
    t1: Seq<(NodeId, Seq<NodeId>)>,
    t2: Seq<(NodeId, Seq<NodeId>)>,
    n: NodeId,
    r1: Seq<NodeId>,
    r2: Seq<NodeId>,
    f1: nat,
    f2: nat,
)
    requires
        topo_wf(t1),
        topo_wf(t2),
        pair_keys(t1).to_set() == pair_keys(t2).to_set(),
        forall|k: NodeId| spec_neighbors(t1, k) == spec_neighbors(t2, k),
        spec_next_fuel(t1, n, f1) == Some(r1),
        spec_next_fuel(t2, n, f2) == Some(r2),
    ensures
        r1 == r2,
{
    lemma_canonical_form(t1, t2);
    if t1.len() > 0 {
        if f1 <= f2 {
            lemma_dfs_fuel_mono(t1, init_stack(t1), Set::empty(), Seq::empty(), f1, f2);
        } else {
            lemma_dfs_fuel_mono(t1, init_stack(t1), Set::empty(), Seq::empty(), f2, f1);
        }
    }
}

/// When two key sequences together form the multiset of a duplicate-free
/// sequence, a key of the first differs from a key of the second.
proof fn lemma_split_no_dup(
    all: Seq<NodeId>,
    left: Seq<NodeId>,
    right: Seq<NodeId>,
    a: NodeId,
    b: NodeId,
)
    requires
        all.no_duplicates(),
        left.to_multiset().add(right.to_multiset()) =~= all.to_multiset(),
        left.to_multiset().contains(a),
        right.to_multiset().contains(b),
    ensures
        a != b,
{
    broadcast use vstd::seq_lib::group_to_multiset_ensures;

    if a == b {
        assert(all.to_multiset().count(a) >= 2);
        all.lemma_multiset_has_no_duplicates();
        assert(all.to_multiset().contains(a));
        assert(all.contains(a));
    }
}

} // verus!
