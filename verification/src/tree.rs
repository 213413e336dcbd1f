//! Rooted trees over a flat adjacency representation.
//!
//! The adjacency is an association list from a node identifier to the
//! ordered sequence of its children, kept strictly sorted by key so that
//! iteration over entries is deterministic and ascending. A node without
//! an entry is a leaf. The structure is immutable after construction;
//! `from_adjacency_list` validates that the rows describe a tree (the
//! traversal terminates, visits no node twice, and reaches every entry)
//! and rejects malformed input with a descriptive error.

use vstd::multiset::Multiset;
use vstd::prelude::*;

verus! {

/// Why adjacency rows were rejected as not describing a rooted tree.
#[derive(Clone, Copy, Debug, PartialEq, Eq, Structural)]
pub enum TreeError {
    /// The traversal from the root did not terminate within the size of
    /// the input: the adjacency contains a cycle.
    Cyclic,
    /// Some node is reached more than once from the root.
    DoubleReach,
    /// Some entry of the adjacency is never reached from the root.
    Disconnected,
}

/// A rooted tree: a designated root and, for each interior node, the
/// ordered sequence of its children.
#[derive(Debug)]
pub struct Tree {
    root: usize,
    nodes: Vec<(usize, Vec<usize>)>,
    fuel: usize,
}

/// The stored child sequence of `node`, or empty if `node` has no entry.
/// When keys are unique this is the unique entry; in general the latest
/// entry wins, matching last-write-wins construction.
pub open spec fn adj_children(adj: Seq<(usize, Seq<usize>)>, node: usize) -> Seq<usize>
    decreases adj.len(),
{
    if adj.len() == 0 {
        Seq::empty()
    } else if adj.last().0 == node {
        adj.last().1
    } else {
        adj_children(adj.drop_last(), node)
    }
}

/// Whether some entry of the adjacency carries the key `node`.
pub open spec fn adj_has(adj: Seq<(usize, Seq<usize>)>, node: usize) -> bool
    decreases adj.len(),
{
    if adj.len() == 0 {
        false
    } else {
        adj.last().0 == node || adj_has(adj.drop_last(), node)
    }
}

/// The concatenation of the child sequences of the nodes in `ns`.
pub open spec fn adj_children_concat(adj: Seq<(usize, Seq<usize>)>, ns: Seq<usize>) -> Seq<usize>
    decreases ns.len(),
{
    if ns.len() == 0 {
        Seq::empty()
    } else {
        adj_children_concat(adj, ns.drop_last()) + adj_children(adj, ns.last())
    }
}

/// The grandchildren of `node`: children of children, concatenated in
/// order and not deduplicated. A node reachable through two distinct
/// children appears twice; the counting recurrence depends on that.
pub open spec fn adj_grandchildren(adj: Seq<(usize, Seq<usize>)>, node: usize) -> Seq<usize> {
    adj_children_concat(adj, adj_children(adj, node))
}

/// Depth-first post-order from `node`: children in stored order, each
/// followed by its own subtree, then the node itself. `fuel` bounds the
/// recursion depth; `None` means the bound was exhausted, which for the
/// fuel chosen by the constructors can only happen on a cyclic adjacency.
pub open spec fn po_node(adj: Seq<(usize, Seq<usize>)>, node: usize, fuel: nat) -> Option<
    Seq<usize>,
>
    decreases fuel, 0int,
{
    if fuel == 0 {
        None
    } else {
        match po_list(adj, adj_children(adj, node), (fuel - 1) as nat) {
            None => None,
            Some(s) => Some(s.push(node)),
        }
    }
}

/// Post-order of a whole sequence of subtree roots, in order.
pub open spec fn po_list(adj: Seq<(usize, Seq<usize>)>, ns: Seq<usize>, fuel: nat) -> Option<
    Seq<usize>,
>
    decreases fuel, ns.len() + 1,
{
    if ns.len() == 0 {
        Some(Seq::empty())
    } else {
        match po_list(adj, ns.drop_last(), fuel) {
            None => None,
            Some(s1) => match po_node(adj, ns.last(), fuel) {
                None => None,
                Some(s2) => Some(s1 + s2),
            },
        }
    }
}

/// Total number of child identifiers stored in the adjacency.
pub open spec fn adj_total_children(adj: Seq<(usize, Seq<usize>)>) -> nat
    decreases adj.len(),
{
    if adj.len() == 0 {
        0
    } else {
        adj_total_children(adj.drop_last()) + adj.last().1.len()
    }
}

/// The traversal fuel granted to an adjacency: one more than the number
/// of identifiers it mentions, clamped into `usize`. Any acyclic path
/// through the adjacency is shorter than this.
pub open spec fn fuel_of(adj: Seq<(usize, Seq<usize>)>) -> nat {
    if 1 + adj.len() + adj_total_children(adj) <= usize::MAX {
        1 + adj.len() + adj_total_children(adj)
    } else {
        usize::MAX as nat
    }
}

/// The adjacency entries described by a vector of key/children pairs.
pub open spec fn assoc_view(nodes: Seq<(usize, Vec<usize>)>) -> Seq<(usize, Seq<usize>)> {
    Seq::new(nodes.len(), |i: int| (nodes[i].0, nodes[i].1@))
}

/// The rows described by a vector of vectors.
pub open spec fn row_view(rows: Seq<Vec<usize>>) -> Seq<Seq<usize>> {
    Seq::new(rows.len(), |i: int| rows[i]@)
}

/// Insert `(key, cs)` into an adjacency sorted by key: replace the entry
/// carrying `key` if there is one, otherwise place the new entry so that
/// keys stay ascending.
pub open spec fn upsert(adj: Seq<(usize, Seq<usize>)>, key: usize, cs: Seq<usize>) -> Seq<
    (usize, Seq<usize>),
>
    decreases adj.len(),
{
    if adj.len() == 0 {
        seq![(key, cs)]
    } else if adj.last().0 < key {
        adj.push((key, cs))
    } else if adj.last().0 == key {
        adj.drop_last().push((key, cs))
    } else {
        upsert(adj.drop_last(), key, cs).push(adj.last())
    }
}

/// The adjacency built from rows: the first element of a row is the
/// parent, the rest are its children; empty rows are skipped; a later
/// row for the same parent overwrites the earlier one.
pub open spec fn build_adj(rows: Seq<Seq<usize>>) -> Seq<(usize, Seq<usize>)>
    decreases rows.len(),
{
    if rows.len() == 0 {
        Seq::empty()
    } else {
        let prev = build_adj(rows.drop_last());
        let row = rows.last();
        if row.len() == 0 {
            prev
        } else {
            upsert(prev, row[0], row.drop_first())
        }
    }
}

/// Keys strictly ascend, so each key occurs once and iteration over the
/// entries is deterministic, in ascending numeric order.
pub open spec fn sorted_keys(adj: Seq<(usize, Seq<usize>)>) -> bool {
    forall|i: int, j: int|
        #![trigger adj[i], adj[j]]
        0 <= i < j < adj.len() ==> adj[i].0 < adj[j].0
}

/// The post-order of the adjacency from `root` under its canonical fuel.
pub open spec fn adj_po(adj: Seq<(usize, Seq<usize>)>, root: usize) -> Option<Seq<usize>> {
    po_node(adj, root, fuel_of(adj))
}

/// Every entry's key occurs in the traversal `o`.
pub open spec fn all_keys_reached(adj: Seq<(usize, Seq<usize>)>, o: Seq<usize>) -> bool {
    forall|i: int| 0 <= i < adj.len() ==> o.contains((#[trigger] adj[i]).0)
}

/// The adjacency, rooted at `root`, passes the construction-time checks:
/// the traversal terminates, visits no node twice, and reaches every
/// node that has an entry.
pub open spec fn adj_ok(root: usize, adj: Seq<(usize, Seq<usize>)>) -> bool {
    &&& adj_po(adj, root) is Some
    &&& adj_po(adj, root)->Some_0.no_duplicates()
    &&& all_keys_reached(adj, adj_po(adj, root)->Some_0)
}

/// The error reported for an adjacency that fails the checks: a cycle is
/// reported first, then a doubly reached node, then a disconnected entry.
pub open spec fn reject_reason(root: usize, adj: Seq<(usize, Seq<usize>)>) -> TreeError {
    if adj_po(adj, root) is None {
        TreeError::Cyclic
    } else if !adj_po(adj, root)->Some_0.no_duplicates() {
        TreeError::DoubleReach
    } else {
        TreeError::Disconnected
    }
}

impl Tree {
    /// The adjacency entries: key and child sequence, ascending by key.
    pub closed spec fn adj(&self) -> Seq<(usize, Seq<usize>)> {
        assoc_view(self.nodes@)
    }

    /// The designated root.
    pub closed spec fn root_spec(&self) -> usize {
        self.root
    }

    /// Structural invariant: sorted unique keys, the stored fuel is the
    /// canonical fuel of the adjacency, and the traversal terminates.
    pub closed spec fn wf(&self) -> bool {
        &&& sorted_keys(self.adj())
        &&& self.fuel == fuel_of(self.adj())
        &&& po_node(self.adj(), self.root, fuel_of(self.adj())) is Some
    }

    /// The construction-time checks hold of this tree: no node is
    /// reached twice and every entry is reached.
    pub open spec fn validated(&self) -> bool {
        adj_ok(self.root_spec(), self.adj())
    }

    /// The post-order sequence of the tree.
    pub open spec fn post_order_spec(&self) -> Seq<usize> {
        po_node(self.adj(), self.root_spec(), fuel_of(self.adj()))->Some_0
    }

    /// The designated root of the tree.
    pub fn root(&self) -> (r: usize)
        ensures
            r == self.root_spec(),
    {
        self.root
    }

    /// The number of entries in the adjacency.
    pub fn node_count(&self) -> (r: usize)
        ensures
            r == self.adj().len(),
    {
        self.nodes.len()
    }

    /// A copy of the adjacency entries, ascending by key: a deterministic
    /// iteration order over the tree's nodes for display and export.
    pub fn nodes(&self) -> (r: Vec<(usize, Vec<usize>)>)
        ensures
            r@.len() == self.adj().len(),
            forall|i: int|
                0 <= i < r@.len() ==> (#[trigger] r@[i]).0 == self.adj()[i].0 && r@[i].1@
                    == self.adj()[i].1,
    {
        let mut r: Vec<(usize, Vec<usize>)> = Vec::new();
        let mut i: usize = 0;
        while i < self.nodes.len()
            invariant
                i <= self.nodes.len(),
                r@.len() == i,
                forall|j: int|
                    0 <= j < i ==> (#[trigger] r@[j]).0 == self.adj()[j].0 && r@[j].1@
                        == self.adj()[j].1,
            decreases self.nodes.len() - i,
        {
            let mut cs: Vec<usize> = Vec::new();
            let mut k: usize = 0;
            while k < self.nodes[i].1.len()
                invariant
                    i < self.nodes@.len(),
                    k <= self.nodes@[i as int].1.len(),
                    cs@ == self.nodes@[i as int].1@.take(k as int),
                decreases self.nodes@[i as int].1.len() - k,
            {
                cs.push(self.nodes[i].1[k]);
                proof {
                    assert(cs@ =~= self.nodes@[i as int].1@.take(k + 1int));
                }
                k += 1;
            }
            proof {
                assert(cs@ =~= self.nodes@[i as int].1@);
            }
            r.push((self.nodes[i].0, cs));
            i += 1;
        }
        r
    }

    /// The stored child sequence of `node`, or empty if it has none.
    pub fn children(&self, node: usize) -> (r: Vec<usize>)
        ensures
            r@ == adj_children(self.adj(), node),
    {
        let mut i: usize = self.nodes.len();
        proof {
            assert(self.adj().take(i as int) =~= self.adj());
        }
        while i > 0
            invariant
                i <= self.nodes.len(),
                adj_children(self.adj(), node) == adj_children(self.adj().take(i as int), node),
            decreases i,
        {
            proof {
                assert(self.adj().take(i as int).drop_last() =~= self.adj().take(i - 1int));
                assert(self.adj().take(i as int).last() == self.adj()[i - 1int]);
            }
            if self.nodes[i - 1].0 == node {
                let mut cs: Vec<usize> = Vec::new();
                let mut k: usize = 0;
                while k < self.nodes[i - 1].1.len()
                    invariant
                        0 < i <= self.nodes@.len(),
                        k <= self.nodes@[i - 1int].1.len(),
                        cs@ == self.nodes@[i - 1int].1@.take(k as int),
                    decreases self.nodes@[i - 1int].1.len() - k,
                {
                    cs.push(self.nodes[i - 1].1[k]);
                    proof {
                        assert(cs@ =~= self.nodes@[i - 1int].1@.take(k + 1int));
                    }
                    k += 1;
                }
                proof {
                    assert(cs@ =~= self.nodes@[i - 1int].1@);
                }
                return cs;
            }
            i -= 1;
        }
        proof {
            assert(self.adj().take(0int) =~= Seq::<(usize, Seq<usize>)>::empty());
        }
        Vec::new()
    }

    /// The grandchildren of `node`, concatenated in order, duplicates kept.
    pub fn grandchildren(&self, node: usize) -> (r: Vec<usize>)
        ensures
            r@ == adj_grandchildren(self.adj(), node),
    {
        let cs = self.children(node);
        let mut r: Vec<usize> = Vec::new();
        let mut k: usize = 0;
        while k < cs.len()
            invariant
                k <= cs@.len(),
                cs@ == adj_children(self.adj(), node),
                r@ == adj_children_concat(self.adj(), cs@.take(k as int)),
            decreases cs@.len() - k,
        {
            let mut g = self.children(cs[k]);
            r.append(&mut g);
            proof {
                assert(cs@.take(k + 1int).drop_last() =~= cs@.take(k as int));
                assert(cs@.take(k + 1int).last() == cs@[k as int]);
            }
            k += 1;
        }
        proof {
            assert(cs@.take(cs@.len() as int) =~= cs@);
        }
        r
    }
    /// Depth-first traversal from `node`, appending the post-order of the
    /// subtree to `out`; `false` means the fuel bound was exhausted.
    fn po_rec(&self, node: usize, fuel: usize, out: &mut Vec<usize>) -> (ok: bool)
        ensures
            ok == (po_node(self.adj(), node, fuel as nat) is Some),
            ok ==> final (out)@ == old(out)@ + po_node(self.adj(), node, fuel as nat)->Some_0,
        decreases fuel,
    {
        if fuel == 0 {
            return false;
        }
        let cs = self.children(node);
        let mut k: usize = 0;
        while k < cs.len()
            invariant
                k <= cs@.len(),
                cs@ == adj_children(self.adj(), node),
                fuel >= 1,
                po_list(self.adj(), cs@.take(k as int), (fuel - 1) as nat) is Some,
                out@ == old(out)@ + po_list(self.adj(), cs@.take(k as int), (fuel - 1) as nat)->Some_0,
            decreases cs@.len() - k,
        {
            let ok = self.po_rec(cs[k], fuel - 1, out);
            proof {
                assert(cs@.take(k + 1int).drop_last() =~= cs@.take(k as int));
                assert(cs@.take(k + 1int).last() == cs@[k as int]);
            }
            if !ok {
                proof {
                    lemma_po_list_extend_none(self.adj(), cs@, (fuel - 1) as nat, k + 1int);
                }
                return false;
            }
            k += 1;
        }
        proof {
            assert(cs@.take(cs@.len() as int) =~= cs@);
        }
        out.push(node);
        proof {
            assert(out@ =~= old(out)@ + po_list(self.adj(), cs@, (fuel - 1) as nat)->Some_0.push(
                node,
            ));
        }
        true
    }

    /// Build a tree from adjacency rows and validate it. The first element
    /// of a row is a parent, the rest are its children; empty rows are
    /// skipped; a later row for a parent overwrites the earlier one. The
    /// rows are rejected, with the reason, unless the structure rooted at
    /// `root` is a tree: the traversal terminates, reaches no node twice,
    /// and reaches every parent entry.
    pub fn from_adjacency_list(root: usize, rows: Vec<Vec<usize>>) -> (r: Result<Tree, TreeError>)
        ensures
            r is Ok <==> adj_ok(root, build_adj(row_view(rows@))),
            r is Ok ==> {
                let t = r->Ok_0;
                &&& t.wf()
                &&& t.validated()
                &&& t.root_spec() == root
                &&& t.adj() == build_adj(row_view(rows@))
            },
            r is Err ==> r->Err_0 == reject_reason(root, build_adj(row_view(rows@))),
    {
        let ghost rowsv = row_view(rows@);
        let mut nodes: Vec<(usize, Vec<usize>)> = Vec::new();
        let mut i: usize = 0;
        proof {
            assert(assoc_view(nodes@) =~= build_adj(rowsv.take(0int)));
        }
        while i < rows.len()
            invariant
                i <= rows@.len(),
                rowsv == row_view(rows@),
                sorted_keys(assoc_view(nodes@)),
                assoc_view(nodes@) == build_adj(rowsv.take(i as int)),
            decreases rows@.len() - i,
        {
            proof {
                assert(rowsv.take(i + 1int).drop_last() =~= rowsv.take(i as int));
                assert(rowsv.take(i + 1int).last() == rows@[i as int]@);
            }
            if rows[i].len() > 0 {
                let key = rows[i][0];
                let mut cs: Vec<usize> = Vec::new();
                let mut k: usize = 1;
                while k < rows[i].len()
                    invariant
                        i < rows@.len(),
                        1 <= k <= rows@[i as int]@.len(),
                        cs@ == rows@[i as int]@.subrange(1, k as int),
                    decreases rows@[i as int]@.len() - k,
                {
                    cs.push(rows[i][k]);
                    proof {
                        assert(cs@ =~= rows@[i as int]@.subrange(1, k + 1int));
                    }
                    k += 1;
                }
                proof {
                    assert(cs@ =~= rows@[i as int]@.drop_first());
                    lemma_upsert_sorted(assoc_view(nodes@), key, cs@);
                }
                upsert_exec(&mut nodes, key, cs);
            }
            i += 1;
        }
        proof {
            assert(rowsv.take(rows@.len() as int) =~= rowsv);
        }
        let ghost adjv = assoc_view(nodes@);
        let fuel = canonical_fuel(&nodes);
        let t = Tree { root, nodes, fuel };
        proof {
            assert(t.adj() == adjv);
            assert(fuel as nat == fuel_of(adjv));
        }
        let mut order: Vec<usize> = Vec::new();
        let ok = t.po_rec(root, fuel, &mut order);
        if !ok {
            return Err(TreeError::Cyclic);
        }
        proof {
            assert(order@ =~= adj_po(adjv, root)->Some_0);
        }
        // no node may be reached twice
        let mut a: usize = 0;
        while a < order.len()
            invariant
                a <= order@.len(),
                rowsv == row_view(rows@),
                adjv == build_adj(rowsv),
                adj_po(adjv, root) is Some,
                order@ == adj_po(adjv, root)->Some_0,
                forall|x: int, y: int| 0 <= x < y < order@.len() && x < a ==> order@[x] != order@[y],
            decreases order@.len() - a,
        {
            let mut b: usize = a + 1;
            while b < order.len()
                invariant
                    a < order@.len(),
                    a < b <= order@.len(),
                    rowsv == row_view(rows@),
                    adjv == build_adj(rowsv),
                    adj_po(adjv, root) is Some,
                order@ == adj_po(adjv, root)->Some_0,
                    forall|y: int| (a as int) < y < b ==> order@[a as int] != order@[y],
                decreases order@.len() - b,
            {
                if order[a] == order[b] {
                    proof {
                        assert(order@[a as int] == order@[b as int]);
                        assert(!order@.no_duplicates());
                    }
                    return Err(TreeError::DoubleReach);
                }
                b += 1;
            }
            a += 1;
        }
        assert(order@.no_duplicates());
        // every parent entry must be reached
        let mut c: usize = 0;
        while c < t.nodes.len()
            invariant
                c <= t.nodes@.len(),
                adjv == assoc_view(t.nodes@),
                rowsv == row_view(rows@),
                adjv == build_adj(rowsv),
                adj_po(adjv, root) is Some,
                order@ == adj_po(adjv, root)->Some_0,
                order@.no_duplicates(),
                forall|x: int| 0 <= x < c ==> order@.contains((#[trigger] adjv[x]).0),
            decreases t.nodes@.len() - c,
        {
            if !contains_val(&order, t.nodes[c].0) {
                proof {
                    assert(!order@.contains(adjv[c as int].0));
                    assert(!all_keys_reached(adjv, order@));
                }
                return Err(TreeError::Disconnected);
            }
            c += 1;
        }
        Ok(t)
    }

    /// Generate a random well-formed tree of exactly `node_count` nodes,
    /// identified `0..node_count` with root `0`, by breadth-first
    /// assignment: each parent in turn receives a randomly sized block of
    /// the next unused identifiers as children, never more than
    /// `max_children` (clamped into `[1, node_count]`); identifiers left
    /// without an entry become leaves.
    pub fn generate(node_count: usize, max_children: usize) -> (t: Tree)
        requires
            node_count >= 1,
        ensures
            t.wf(),
            t.root_spec() == 0,
            t.adj().len() == node_count,
            gen_shape(t.adj()),
            t.validated(),
            forall|i: int|
                0 <= i < t.adj().len() ==> (#[trigger] t.adj()[i]).1.len() <= clamped_bound(
                    max_children,
                    node_count,
                ),
    {
        let mc = if max_children < 1 {
            1
        } else if max_children > node_count {
            node_count
        } else {
            max_children
        };
        let mut nodes: Vec<(usize, Vec<usize>)> = Vec::new();
        let mut index: usize = 1;
        while nodes.len() < index && index < node_count
            invariant
                1 <= mc <= node_count,
                mc == clamped_bound(max_children, node_count),
                1 <= index <= node_count,
                nodes@.len() < index,
                forall|i: int| 0 <= i < nodes@.len() ==> (#[trigger] nodes@[i]).0 == i,
                forall|i: int, j: int|
                    0 <= i < nodes@.len() && 0 <= j < nodes@[i].1@.len() ==> i
                        < #[trigger] nodes@[i].1@[j] < index,
                forall|i: int| 0 <= i < nodes@.len() ==> (#[trigger] nodes@[i]).1@.len() <= mc,
                adj_total_children(assoc_view(nodes@)) + 1 == index,
                forall|i: int|
                    0 <= i < nodes@.len() && (#[trigger] nodes@[i]).1@.len() > 0
                        ==> nodes@[i].1@[0] == 1 + adj_total_children(
                        assoc_view(nodes@).take(i),
                    ),
                forall|i: int, j: int|
                    0 <= i < nodes@.len() && 0 <= j < nodes@[i].1@.len()
                        ==> #[trigger] nodes@[i].1@[j] == nodes@[i].1@[0] + j,
            decreases node_count - index,
        {
            let parent = nodes.len();
            let remaining = node_count - index;
            let max_assignable = if remaining < mc {
                remaining
            } else {
                mc
            };
            let child_count = random_between(1, max_assignable);
            let ghost start = index;
            let mut cs: Vec<usize> = Vec::new();
            let mut j: usize = 0;
            while j < child_count
                invariant
                    j <= child_count,
                    child_count + start <= node_count,
                    index == start + j,
                    cs@.len() == j,
                    forall|q: int| 0 <= q < j ==> #[trigger] cs@[q] == start + q,
                decreases child_count - j,
            {
                cs.push(index);
                index += 1;
                j += 1;
            }
            let ghost before = assoc_view(nodes@);
            nodes.push((parent, cs));
            proof {
                let after = assoc_view(nodes@);
                assert(after.drop_last() =~= before);
                assert(after.take(before.len() as int) =~= before);
                assert forall|i: int| 0 <= i <= before.len() implies #[trigger] after.take(i)
                    =~= before.take(i) by {}
                assert(after[before.len() as int].1 == cs@);
                assert(cs@[0] == start);
            }
        }
        while nodes.len() < node_count
            invariant
                nodes@.len() <= node_count,
                forall|i: int| 0 <= i < nodes@.len() ==> (#[trigger] nodes@[i]).0 == i,
                forall|i: int, j: int|
                    0 <= i < nodes@.len() && 0 <= j < nodes@[i].1@.len() ==> i
                        < #[trigger] nodes@[i].1@[j] < node_count,
                forall|i: int| 0 <= i < nodes@.len() ==> (#[trigger] nodes@[i]).1@.len() <= mc,
                mc == clamped_bound(max_children, node_count),
                adj_total_children(assoc_view(nodes@)) + 1 == node_count,
                forall|i: int|
                    0 <= i < nodes@.len() && (#[trigger] nodes@[i]).1@.len() > 0
                        ==> nodes@[i].1@[0] == 1 + adj_total_children(
                        assoc_view(nodes@).take(i),
                    ),
                forall|i: int, j: int|
                    0 <= i < nodes@.len() && 0 <= j < nodes@[i].1@.len()
                        ==> #[trigger] nodes@[i].1@[j] == nodes@[i].1@[0] + j,
            decreases node_count - nodes@.len(),
        {
            let k = nodes.len();
            let empty: Vec<usize> = Vec::new();
            let ghost before = assoc_view(nodes@);
            nodes.push((k, empty));
            proof {
                let after = assoc_view(nodes@);
                assert(after.drop_last() =~= before);
                assert forall|i: int| 0 <= i <= before.len() implies #[trigger] after.take(i)
                    =~= before.take(i) by {}
            }
        }
        let ghost adjv = assoc_view(nodes@);
        let fuel = canonical_fuel(&nodes);
        proof {
            assert(gen_shape(adjv));
            assert(sorted_keys(adjv));
            lemma_po_total(adjv, 0, fuel_of(adjv));
            assert(gen_tiling(adjv));
            assert forall|i: int| 0 <= i < adjv.len() implies po_node(
                adjv,
                0,
                fuel_of(adjv),
            )->Some_0.contains((#[trigger] adjv[i]).0) by {
                lemma_gen_reached(adjv, fuel_of(adjv), adjv[i].0);
            }
            let s = po_node(adjv, 0, fuel_of(adjv))->Some_0;
            assert forall|x: usize| s.to_multiset().contains(x) implies s.to_multiset().count(x)
                == 1 by {
                if x < node_count {
                    lemma_gen_count_one(adjv, fuel_of(adjv), x);
                } else {
                    lemma_gen_no_parent(adjv, x);
                    lemma_po_count_node(adjv, 0, fuel_of(adjv), x, 0, false);
                }
            }
            s.lemma_multiset_has_no_duplicates_conv();
        }
        Tree { root: 0, nodes, fuel }
    }

    /// The post-order sequence: all descendants of a node precede it, and
    /// the children of each node are visited in their stored order.
    pub fn post_order(&self) -> (r: Vec<usize>)
        requires
            self.wf(),
        ensures
            r@ == self.post_order_spec(),
    {
        let mut out: Vec<usize> = Vec::new();
        let ok = self.po_rec(self.root, self.fuel, &mut out);
        if ok {
            out
        } else {
            proof {
                assert(false);
            }
            Vec::new()
        }
    }
}

/// Once a prefix of the subtree roots fails, the whole list fails.
proof fn lemma_po_list_extend_none(
    adj: Seq<(usize, Seq<usize>)>,
    ns: Seq<usize>,
    fuel: nat,
    j: int,
)
    requires
        0 <= j <= ns.len(),
        po_list(adj, ns.take(j), fuel) is None,
    ensures
        po_list(adj, ns, fuel) is None,
    decreases ns.len() - j,
{
    if j < ns.len() {
        assert(ns.take(j + 1).drop_last() =~= ns.take(j));
        lemma_po_list_extend_none(adj, ns, fuel, j + 1);
    } else {
        assert(ns.take(j) =~= ns);
    }
}

/// The canonical traversal fuel of an association vector, saturating at
/// the machine limit.
fn canonical_fuel(nodes: &Vec<(usize, Vec<usize>)>) -> (f: usize)
    ensures
        f as nat == fuel_of(assoc_view(nodes@)),
{
    let ghost adjv = assoc_view(nodes@);
    let mut fuel: usize = 1usize.saturating_add(nodes.len());
    let mut k: usize = 0;
    proof {
        assert(adjv.take(0int) =~= Seq::<(usize, Seq<usize>)>::empty());
    }
    while k < nodes.len()
        invariant
            k <= nodes@.len(),
            adjv == assoc_view(nodes@),
            fuel as nat == if 1 + adjv.len() + adj_total_children(adjv.take(k as int))
                <= usize::MAX {
                1 + adjv.len() + adj_total_children(adjv.take(k as int))
            } else {
                usize::MAX as nat
            },
        decreases nodes@.len() - k,
    {
        proof {
            assert(adjv.take(k + 1int).drop_last() =~= adjv.take(k as int));
            assert(adjv.take(k + 1int).last() == adjv[k as int]);
        }
        fuel = fuel.saturating_add(nodes[k].1.len());
        k += 1;
    }
    proof {
        assert(adjv.take(nodes@.len() as int) =~= adjv);
    }
    fuel
}

/// The per-node child bound actually used by the generator: the requested
/// bound clamped into `[1, node_count]`.
pub open spec fn clamped_bound(max_children: usize, node_count: usize) -> usize {
    if max_children < 1 {
        1
    } else if max_children > node_count {
        node_count
    } else {
        max_children
    }
}

/// The shape the generator produces: entry `i` carries key `i`, and every
/// stored child is a strictly larger identifier inside the adjacency.
pub open spec fn gen_shape(adj: Seq<(usize, Seq<usize>)>) -> bool {
    &&& forall|i: int| 0 <= i < adj.len() ==> (#[trigger] adj[i]).0 == i
    &&& forall|i: int, j: int|
        0 <= i < adj.len() && 0 <= j < adj[i].1.len() ==> i < #[trigger] adj[i].1[j] < adj.len()
}

/// The generator assigns children in blocks: the children of an entry
/// are consecutive identifiers, each block starting right after all the
/// children handed out before it, the first at identifier one.
pub open spec fn gen_tiling(adj: Seq<(usize, Seq<usize>)>) -> bool {
    &&& forall|i: int|
        0 <= i < adj.len() && (#[trigger] adj[i]).1.len() > 0 ==> adj[i].1[0] == 1
            + adj_total_children(adj.take(i))
    &&& forall|i: int, j: int|
        0 <= i < adj.len() && 0 <= j < adj[i].1.len() ==> #[trigger] adj[i].1[j] == adj[i].1[0] + j
}

/// In a tiled adjacency every identifier in the covered range is the
/// child of some entry.
proof fn lemma_block_for(adj: Seq<(usize, Seq<usize>)>, m: usize)
    requires
        gen_tiling(adj),
        1 <= m,
        m < 1 + adj_total_children(adj),
    ensures
        exists|i: int| 0 <= i < adj.len() && (#[trigger] adj[i]).1.contains(m),
    decreases adj.len(),
{
    let d = adj.drop_last();
    let td = adj_total_children(d);
    if m >= 1 + td {
        let cs = adj.last().1;
        assert(adj.take(adj.len() - 1) =~= d);
        assert(cs.len() > 0);
        assert(adj[adj.len() - 1].1[0] == 1 + td);
        let j = m - 1 - td;
        assert(adj[adj.len() - 1].1[j as int] == adj[adj.len() - 1].1[0] + j);
        assert(cs[j as int] == m);
        assert(cs.contains(m));
    } else {
        assert forall|i: int|
            0 <= i < d.len() && (#[trigger] d[i]).1.len() > 0 implies d[i].1[0] == 1
            + adj_total_children(d.take(i)) by {
            assert(d[i] == adj[i]);
            assert(d.take(i) =~= adj.take(i));
        }
        assert forall|i: int, j: int|
            0 <= i < d.len() && 0 <= j < d[i].1.len() implies #[trigger] d[i].1[j] == d[i].1[0]
            + j by {
            assert(d[i] == adj[i]);
        }
        lemma_block_for(d, m);
        let i = choose|i: int| 0 <= i < d.len() && (#[trigger] d[i]).1.contains(m);
        assert(adj[i].1.contains(m));
    }
}

/// In a generated adjacency, where all identifiers below the entry count
/// are handed out as children, every entry is reached from the root.
proof fn lemma_gen_reached(adj: Seq<(usize, Seq<usize>)>, fuel: nat, k: usize)
    requires
        gen_shape(adj),
        gen_tiling(adj),
        po_node(adj, 0, fuel) is Some,
        1 + adj_total_children(adj) == adj.len(),
        k < adj.len(),
    ensures
        po_node(adj, 0, fuel)->Some_0.contains(k),
    decreases k,
{
    if k == 0 {
        lemma_po_node_has_self(adj, 0, fuel);
    } else {
        lemma_block_for(adj, k);
        let i = choose|i: int| 0 <= i < adj.len() && (#[trigger] adj[i]).1.contains(k);
        let j = choose|j: int| 0 <= j < adj[i].1.len() && adj[i].1[j] == k;
        assert(i < k);
        lemma_gen_reached(adj, fuel, i as usize);
        lemma_children_identity(adj, i as usize);
        lemma_po_node_closed(adj, 0, fuel);
        assert(adj_children(adj, i as usize).contains(k));
    }
}

/// `p` is the sole parent of `m`: `m` occurs exactly once among `p`'s
/// children and never among any other node's children.
pub open spec fn sole_parent(adj: Seq<(usize, Seq<usize>)>, p: usize, m: usize) -> bool {
    &&& adj_children(adj, p).to_multiset().count(m) == 1
    &&& forall|x: usize|
        x != p ==> (#[trigger] adj_children(adj, x)).to_multiset().count(m) == 0
}

/// `m` is nobody's child.
pub open spec fn no_parent(adj: Seq<(usize, Seq<usize>)>, m: usize) -> bool {
    forall|x: usize| (#[trigger] adj_children(adj, x)).to_multiset().count(m) == 0
}

/// How often the traversal from `n` visits `m`: once per visit of `m`'s
/// sole parent, plus once if the traversal starts at `m` itself.
proof fn lemma_po_count_node(
    adj: Seq<(usize, Seq<usize>)>,
    n: usize,
    fuel: nat,
    m: usize,
    p: usize,
    has: bool,
)
    requires
        po_node(adj, n, fuel) is Some,
        has ==> sole_parent(adj, p, m),
        (!has) ==> no_parent(adj, m),
    ensures
        ({
            let s = po_node(adj, n, fuel)->Some_0;
            s.to_multiset().count(m) == (if n == m {
                1int
            } else {
                0int
            }) + (if has {
                s.to_multiset().count(p) as int
            } else {
                0int
            })
        }),
    decreases fuel, 0int,
{
    broadcast use vstd::seq_lib::group_to_multiset_ensures;
    broadcast use vstd::multiset::group_multiset_axioms;

    let s = po_node(adj, n, fuel)->Some_0;
    let cs = adj_children(adj, n);
    let u = po_list(adj, cs, (fuel - 1) as nat)->Some_0;
    lemma_po_count_list(adj, cs, (fuel - 1) as nat, m, p, has);
    assert(s == u.push(n));
    assert(s.to_multiset() =~= u.to_multiset().insert(n));
    if has {
        assert(cs.to_multiset().count(m) == if n == p {
            1int
        } else {
            0int
        });
    } else {
        assert(cs.to_multiset().count(m) == 0);
    }
}

/// Companion to `lemma_po_count_node` for a list of subtree roots.
proof fn lemma_po_count_list(
    adj: Seq<(usize, Seq<usize>)>,
    ns: Seq<usize>,
    fuel: nat,
    m: usize,
    p: usize,
    has: bool,
)
    requires
        po_list(adj, ns, fuel) is Some,
        has ==> sole_parent(adj, p, m),
        (!has) ==> no_parent(adj, m),
    ensures
        ({
            let u = po_list(adj, ns, fuel)->Some_0;
            u.to_multiset().count(m) == ns.to_multiset().count(m) + (if has {
                u.to_multiset().count(p) as int
            } else {
                0int
            })
        }),
    decreases fuel, ns.len() + 1,
{
    broadcast use vstd::seq_lib::group_to_multiset_ensures;
    broadcast use vstd::multiset::group_multiset_axioms;

    if ns.len() == 0 {
        assert(po_list(adj, ns, fuel)->Some_0.to_multiset() =~= Multiset::<usize>::empty());
        assert(ns.to_multiset() =~= Multiset::<usize>::empty());
    } else {
        let u = po_list(adj, ns, fuel)->Some_0;
        let u1 = po_list(adj, ns.drop_last(), fuel)->Some_0;
        let s2 = po_node(adj, ns.last(), fuel)->Some_0;
        assert(u == u1 + s2);
        vstd::seq_lib::lemma_multiset_commutative(u1, s2);
        lemma_po_count_list(adj, ns.drop_last(), fuel, m, p, has);
        lemma_po_count_node(adj, ns.last(), fuel, m, p, has);
        assert(ns.drop_last().push(ns.last()) =~= ns);
        assert(ns.to_multiset() =~= ns.drop_last().to_multiset().insert(ns.last()));
    }
}

/// The children of a block entry are a consecutive range, so a value is
/// among them exactly once or not at all.
proof fn lemma_range_count(cs: Seq<usize>, s0: usize, m: usize)
    requires
        forall|j: int| 0 <= j < cs.len() ==> #[trigger] cs[j] == s0 + j,
    ensures
        cs.to_multiset().count(m) == if s0 <= m < s0 + cs.len() {
            1int
        } else {
            0int
        },
    decreases cs.len(),
{
    broadcast use vstd::seq_lib::group_to_multiset_ensures;
    broadcast use vstd::multiset::group_multiset_axioms;

    if cs.len() == 0 {
        assert(cs.to_multiset() =~= Multiset::<usize>::empty());
    } else {
        let d = cs.drop_last();
        assert forall|j: int| 0 <= j < d.len() implies #[trigger] d[j] == s0 + j by {
            assert(d[j] == cs[j]);
        }
        lemma_range_count(d, s0, m);
        assert(d.push(cs.last()) =~= cs);
        assert(cs.to_multiset() =~= d.to_multiset().insert(cs.last()));
        assert(cs.last() == s0 + cs.len() - 1);
    }
}

/// A node beyond the stored entries has no children.
proof fn lemma_children_absent(adj: Seq<(usize, Seq<usize>)>, x: usize)
    requires
        forall|i: int| 0 <= i < adj.len() ==> (#[trigger] adj[i]).0 == i,
        x >= adj.len(),
    ensures
        adj_children(adj, x) == Seq::<usize>::empty(),
    decreases adj.len(),
{
    if adj.len() > 0 {
        assert(adj.last().0 == adj.len() - 1);
        assert forall|i: int| 0 <= i < adj.drop_last().len() implies (#[trigger] adj.drop_last()[
            i
        ]).0 == i by {
            assert(adj.drop_last()[i] == adj[i]);
        }
        lemma_children_absent(adj.drop_last(), x);
    }
}

/// Children totals over prefixes only grow.
proof fn lemma_total_take_mono(adj: Seq<(usize, Seq<usize>)>, a: int, b: int)
    requires
        0 <= a <= b <= adj.len(),
    ensures
        adj_total_children(adj.take(a)) <= adj_total_children(adj.take(b)),
    decreases b - a,
{
    if a < b {
        assert(adj.take(a + 1).drop_last() =~= adj.take(a));
        lemma_total_take_mono(adj, a + 1, b);
    }
}

/// In a generated adjacency every assigned identifier has a sole parent,
/// which carries a smaller identifier.
proof fn lemma_gen_sole_parent(adj: Seq<(usize, Seq<usize>)>, m: usize) -> (p: usize)
    requires
        gen_shape(adj),
        gen_tiling(adj),
        1 <= m,
        m < 1 + adj_total_children(adj),
    ensures
        sole_parent(adj, p, m),
        p < m,
        p < adj.len(),
{
    lemma_block_for(adj, m);
    let i = choose|i: int| 0 <= i < adj.len() && (#[trigger] adj[i]).1.contains(m);
    let j = choose|j: int| 0 <= j < adj[i].1.len() && adj[i].1[j] == m;
    assert(adj[i].1[j] == adj[i].1[0] + j);
    assert(i < m);
    lemma_children_identity(adj, i as usize);
    let s0 = adj[i].1[0];
    assert(s0 == 1 + adj_total_children(adj.take(i)));
    assert forall|jj: int| 0 <= jj < adj[i].1.len() implies #[trigger] adj[i].1[jj] == s0 + jj by {}
    lemma_range_count(adj[i].1, s0, m);
    assert(adj.take(adj.len() as int) =~= adj);
    assert forall|x: usize|
        x != i as usize implies (#[trigger] adj_children(adj, x)).to_multiset().count(m)
        == 0 by {
        broadcast use vstd::seq_lib::group_to_multiset_ensures;

        if x < adj.len() {
            lemma_children_identity(adj, x);
            let t0 = adj[x as int].1[0];
            if adj[x as int].1.len() > 0 {
                assert(t0 == 1 + adj_total_children(adj.take(x as int)));
                assert forall|jj: int| 0 <= jj < adj[x as int].1.len() implies #[trigger] adj[
                    x as int
                ].1[jj] == t0 + jj by {}
                lemma_range_count(adj[x as int].1, t0, m);
                if (x as int) < i {
                    // this block ends before m's block starts
                    assert(adj.take(x as int + 1).drop_last() =~= adj.take(x as int));
                    assert(adj.take(x as int + 1).last() == adj[x as int]);
                    lemma_total_take_mono(adj, x as int + 1, i);
                } else {
                    // this block starts after m's block ends
                    assert(adj.take(i + 1).drop_last() =~= adj.take(i));
                    assert(adj.take(i + 1).last() == adj[i]);
                    lemma_total_take_mono(adj, i + 1, x as int);
                }
            } else {
                assert(adj[x as int].1.to_multiset() =~= Multiset::<usize>::empty());
            }
        } else {
            lemma_children_absent(adj, x);
            assert(Seq::<usize>::empty().to_multiset() =~= Multiset::<usize>::empty());
        }
    }
    i as usize
}

/// In a generated adjacency the root is nobody's child, and so is any
/// identifier beyond the assigned range.
proof fn lemma_gen_no_parent(adj: Seq<(usize, Seq<usize>)>, m: usize)
    requires
        gen_shape(adj),
        gen_tiling(adj),
        m == 0 || m >= 1 + adj_total_children(adj),
    ensures
        no_parent(adj, m),
{
    assert forall|x: usize| (#[trigger] adj_children(adj, x)).to_multiset().count(m) == 0 by {
        broadcast use vstd::seq_lib::group_to_multiset_ensures;

        if x < adj.len() {
            lemma_children_identity(adj, x);
            if adj[x as int].1.len() > 0 {
                let t0 = adj[x as int].1[0];
                assert(t0 == 1 + adj_total_children(adj.take(x as int)));
                assert forall|jj: int| 0 <= jj < adj[x as int].1.len() implies #[trigger] adj[
                    x as int
                ].1[jj] == t0 + jj by {}
                lemma_range_count(adj[x as int].1, t0, m);
                if m != 0 {
                    assert(adj.take(x as int + 1).drop_last() =~= adj.take(x as int));
                    assert(adj.take(x as int + 1).last() == adj[x as int]);
                    lemma_total_take_mono(adj, x as int + 1, adj.len() as int);
                    assert(adj.take(adj.len() as int) =~= adj);
                }
            } else {
                assert(adj[x as int].1.to_multiset() =~= Multiset::<usize>::empty());
            }
        } else {
            lemma_children_absent(adj, x);
            assert(Seq::<usize>::empty().to_multiset() =~= Multiset::<usize>::empty());
        }
    }
}

/// The traversal of a generated adjacency visits every identifier
/// exactly once.
proof fn lemma_gen_count_one(adj: Seq<(usize, Seq<usize>)>, fuel: nat, k: usize)
    requires
        gen_shape(adj),
        gen_tiling(adj),
        po_node(adj, 0, fuel) is Some,
        1 + adj_total_children(adj) == adj.len(),
        k < adj.len(),
    ensures
        po_node(adj, 0, fuel)->Some_0.to_multiset().count(k) == 1,
    decreases k,
{
    if k == 0 {
        lemma_gen_no_parent(adj, 0);
        lemma_po_count_node(adj, 0, fuel, 0, 0, false);
    } else {
        let p = lemma_gen_sole_parent(adj, k);
        lemma_gen_count_one(adj, fuel, p);
        lemma_po_count_node(adj, 0, fuel, k, p, true);
    }
}

/// With identity keys, the stored children of `e` are the entry's own.
proof fn lemma_children_identity(adj: Seq<(usize, Seq<usize>)>, e: usize)
    requires
        forall|i: int| 0 <= i < adj.len() ==> (#[trigger] adj[i]).0 == i,
        e < adj.len(),
    ensures
        adj_children(adj, e) == adj[e as int].1,
    decreases adj.len(),
{
    assert(adj.last().0 == adj.len() - 1);
    if adj.last().0 != e {
        assert forall|i: int| 0 <= i < adj.drop_last().len() implies (#[trigger] adj.drop_last()[
            i
        ]).0 == i by {
            assert(adj.drop_last()[i] == adj[i]);
        }
        lemma_children_identity(adj.drop_last(), e);
        assert(adj.drop_last()[e as int] == adj[e as int]);
    }
}

/// On a generator-shaped adjacency the traversal from `node` terminates:
/// identifiers strictly increase along any path, so the depth is bounded.
proof fn lemma_po_total(adj: Seq<(usize, Seq<usize>)>, node: usize, fuel: nat)
    requires
        gen_shape(adj),
        node < adj.len(),
        fuel >= adj.len() - node,
    ensures
        po_node(adj, node, fuel) is Some,
    decreases adj.len() - node, 1int, 0int,
{
    lemma_children_identity(adj, node);
    lemma_po_list_total(adj, adj_children(adj, node), (fuel - 1) as nat, node);
}

/// Companion to `lemma_po_total` for a list of subtree roots that all lie
/// strictly above `lo`.
proof fn lemma_po_list_total(adj: Seq<(usize, Seq<usize>)>, ns: Seq<usize>, fuel: nat, lo: usize)
    requires
        gen_shape(adj),
        lo < adj.len(),
        fuel >= adj.len() - lo - 1,
        forall|k: int| 0 <= k < ns.len() ==> lo < #[trigger] ns[k] < adj.len(),
    ensures
        po_list(adj, ns, fuel) is Some,
    decreases adj.len() - lo, 0int, ns.len(),
{
    if ns.len() > 0 {
        lemma_po_list_total(adj, ns.drop_last(), fuel, lo);
        lemma_po_total(adj, ns.last(), fuel);
    }
}

/// A node stands in its own post-order sequence.
proof fn lemma_po_node_has_self(adj: Seq<(usize, Seq<usize>)>, n: usize, fuel: nat)
    requires
        po_node(adj, n, fuel) is Some,
    ensures
        po_node(adj, n, fuel)->Some_0.contains(n),
{
    let s = po_node(adj, n, fuel)->Some_0;
    assert(s[s.len() - 1] == n);
}

/// What the post-order of a list of subtree roots holds: each root's
/// subtree sequence, and nothing else.
proof fn lemma_po_list_members(adj: Seq<(usize, Seq<usize>)>, ns: Seq<usize>, fuel: nat)
    requires
        po_list(adj, ns, fuel) is Some,
    ensures
        forall|i: int| 0 <= i < ns.len() ==> #[trigger] po_node(adj, ns[i], fuel) is Some,
        forall|i: int, x: usize|
            0 <= i < ns.len() && #[trigger] po_node(adj, ns[i], fuel)->Some_0.contains(x)
                ==> po_list(adj, ns, fuel)->Some_0.contains(x),
        forall|x: usize|
            #[trigger] po_list(adj, ns, fuel)->Some_0.contains(x) ==> exists|i: int|
                0 <= i < ns.len() && po_node(adj, ns[i], fuel)->Some_0.contains(x),
    decreases ns.len(),
{
    if ns.len() > 0 {
        lemma_po_list_members(adj, ns.drop_last(), fuel);
        let u = po_list(adj, ns, fuel)->Some_0;
        let u1 = po_list(adj, ns.drop_last(), fuel)->Some_0;
        let s2 = po_node(adj, ns.last(), fuel)->Some_0;
        assert(u == u1 + s2);
        assert forall|i: int| 0 <= i < ns.len() implies #[trigger] po_node(
            adj,
            ns[i],
            fuel,
        ) is Some by {
            if i < ns.len() - 1 {
                assert(ns.drop_last()[i] == ns[i]);
            }
        }
        assert forall|i: int, x: usize|
            0 <= i < ns.len() && #[trigger] po_node(adj, ns[i], fuel)->Some_0.contains(
                x,
            ) implies u.contains(x) by {
            if i < ns.len() - 1 {
                assert(ns.drop_last()[i] == ns[i]);
                assert(u1.contains(x));
                let k = choose|k: int| 0 <= k < u1.len() && u1[k] == x;
                assert(u[k] == x);
            } else {
                let k = choose|k: int| 0 <= k < s2.len() && s2[k] == x;
                assert(u[u1.len() + k] == x);
            }
        }
        assert forall|x: usize| #[trigger] u.contains(x) implies exists|i: int|
            0 <= i < ns.len() && po_node(adj, ns[i], fuel)->Some_0.contains(x) by {
            let k = choose|k: int| 0 <= k < u.len() && u[k] == x;
            if k < u1.len() {
                assert(u1[k] == x);
                assert(u1.contains(x));
                let i = choose|i: int|
                    0 <= i < ns.drop_last().len() && po_node(
                        adj,
                        ns.drop_last()[i],
                        fuel,
                    )->Some_0.contains(x);
                assert(ns.drop_last()[i] == ns[i]);
                assert(po_node(adj, ns[i], fuel)->Some_0.contains(x));
            } else {
                assert(s2[k - u1.len()] == x);
                assert(s2.contains(x));
                assert(ns[ns.len() - 1] == ns.last());
                assert(po_node(adj, ns[ns.len() - 1], fuel)->Some_0.contains(x));
            }
        }
    }
}

/// The post-order sequence is closed under stepping to a child: if it
/// visits a node, it visits each of the node's children too.
proof fn lemma_po_node_closed(adj: Seq<(usize, Seq<usize>)>, n: usize, fuel: nat)
    requires
        po_node(adj, n, fuel) is Some,
    ensures
        forall|m: usize, c: usize|
            #![trigger po_node(adj, n, fuel)->Some_0.contains(m), adj_children(adj, m).contains(c)]
            po_node(adj, n, fuel)->Some_0.contains(m) && adj_children(adj, m).contains(c)
                ==> po_node(adj, n, fuel)->Some_0.contains(c),
    decreases fuel,
{
    let s = po_node(adj, n, fuel)->Some_0;
    let cs = adj_children(adj, n);
    let u = po_list(adj, cs, (fuel - 1) as nat)->Some_0;
    lemma_po_list_members(adj, cs, (fuel - 1) as nat);
    assert forall|m: usize, c: usize|
        s.contains(m) && adj_children(adj, m).contains(c) implies s.contains(c) by {
        let k = choose|k: int| 0 <= k < s.len() && s[k] == m;
        if k == s.len() - 1 {
            // m is n itself: c is one of n's children, whose subtree
            // stands inside u
            let j = choose|j: int| 0 <= j < cs.len() && cs[j] == c;
            lemma_po_node_has_self(adj, c, (fuel - 1) as nat);
            assert(po_node(adj, cs[j], (fuel - 1) as nat)->Some_0.contains(c));
            assert(u.contains(c));
            let q = choose|q: int| 0 <= q < u.len() && u[q] == c;
            assert(s[q] == c);
        } else {
            // m lies in some child's subtree, which is closed by induction
            assert(u[k] == m);
            assert(u.contains(m));
            let i = choose|i: int|
                0 <= i < cs.len() && po_node(adj, cs[i], (fuel - 1) as nat)->Some_0.contains(m);
            lemma_po_node_closed(adj, cs[i], (fuel - 1) as nat);
            assert(po_node(adj, cs[i], (fuel - 1) as nat)->Some_0.contains(c));
            assert(u.contains(c));
            let q = choose|q: int| 0 <= q < u.len() && u[q] == c;
            assert(s[q] == c);
        }
    }
}

/// Relies on rand::random_range over an inclusive range: a value drawn
/// from the thread-local generator between the bounds; it panics only on
/// an empty range, which the precondition rules out. Nothing more is
/// assumed of the draw.
#[verifier::external_body]
fn random_between(lo: usize, hi: usize) -> (r: usize)
    requires
        lo <= hi,
    ensures
        lo <= r <= hi,
{
    rand::random_range(lo..=hi)
}

/// Linear search for a value.
fn contains_val(v: &Vec<usize>, x: usize) -> (b: bool)
    ensures
        b == v@.contains(x),
{
    let mut i: usize = 0;
    while i < v.len()
        invariant
            i <= v@.len(),
            forall|j: int| 0 <= j < i ==> v@[j] != x,
        decreases v@.len() - i,
    {
        if v[i] == x {
            return true;
        }
        i += 1;
    }
    false
}

/// A key occurs in the adjacency exactly when some entry carries it.
proof fn lemma_adj_has_index(adj: Seq<(usize, Seq<usize>)>, x: usize)
    ensures
        adj_has(adj, x) <==> exists|j: int| 0 <= j < adj.len() && (#[trigger] adj[j]).0 == x,
    decreases adj.len(),
{
    if adj.len() > 0 {
        lemma_adj_has_index(adj.drop_last(), x);
        if adj.last().0 == x {
            assert(adj[adj.len() - 1].0 == x);
        } else if adj_has(adj.drop_last(), x) {
            let j = choose|j: int|
                0 <= j < adj.drop_last().len() && (#[trigger] adj.drop_last()[j]).0 == x;
            assert(adj[j].0 == x);
        } else {
            assert forall|j: int| 0 <= j < adj.len() && (#[trigger] adj[j]).0 == x implies false by {
                if j < adj.len() - 1 {
                    assert(adj.drop_last()[j].0 == x);
                }
            }
        }
    }
}

/// Every key of the upserted adjacency is the new key or an old key.
proof fn lemma_upsert_keys(adj: Seq<(usize, Seq<usize>)>, key: usize, cs: Seq<usize>)
    ensures
        forall|i: int|
            0 <= i < upsert(adj, key, cs).len() ==> (#[trigger] upsert(adj, key, cs)[i]).0 == key
                || adj_has(adj, upsert(adj, key, cs)[i].0),
    decreases adj.len(),
{
    if adj.len() == 0 {
    } else if adj.last().0 < key {
        assert forall|i: int|
            0 <= i < upsert(adj, key, cs).len() && (#[trigger] upsert(adj, key, cs)[i]).0
                != key implies adj_has(adj, upsert(adj, key, cs)[i].0) by {
            let r = upsert(adj, key, cs);
            assert(r[i] == adj[i]);
            lemma_adj_has_index(adj, r[i].0);
        }
    } else if adj.last().0 == key {
        assert forall|i: int|
            0 <= i < upsert(adj, key, cs).len() && (#[trigger] upsert(adj, key, cs)[i]).0
                != key implies adj_has(adj, upsert(adj, key, cs)[i].0) by {
            let r = upsert(adj, key, cs);
            assert(r[i] == adj.drop_last()[i]);
            lemma_adj_has_index(adj.drop_last(), r[i].0);
            lemma_adj_has_index(adj, r[i].0);
            let j = choose|j: int|
                0 <= j < adj.drop_last().len() && (#[trigger] adj.drop_last()[j]).0 == r[i].0;
            assert(adj[j].0 == r[i].0);
        }
    } else {
        lemma_upsert_keys(adj.drop_last(), key, cs);
        assert forall|i: int|
            0 <= i < upsert(adj, key, cs).len() && (#[trigger] upsert(adj, key, cs)[i]).0
                != key implies adj_has(adj, upsert(adj, key, cs)[i].0) by {
            let r = upsert(adj, key, cs);
            let inner = upsert(adj.drop_last(), key, cs);
            if i < inner.len() {
                assert(r[i] == inner[i]);
                lemma_adj_has_index(adj.drop_last(), inner[i].0);
                lemma_adj_has_index(adj, inner[i].0);
                let j = choose|j: int|
                    0 <= j < adj.drop_last().len() && (#[trigger] adj.drop_last()[j]).0
                        == inner[i].0;
                assert(adj[j].0 == inner[i].0);
            } else {
                assert(r[i] == adj.last());
                assert(adj[adj.len() - 1].0 == r[i].0);
                lemma_adj_has_index(adj, r[i].0);
            }
        }
    }
}

/// Upserting into a sorted adjacency keeps the keys sorted.
proof fn lemma_upsert_sorted(adj: Seq<(usize, Seq<usize>)>, key: usize, cs: Seq<usize>)
    requires
        sorted_keys(adj),
    ensures
        sorted_keys(upsert(adj, key, cs)),
    decreases adj.len(),
{
    let r = upsert(adj, key, cs);
    if adj.len() == 0 {
    } else if adj.last().0 < key {
        assert forall|i: int, j: int|
            #![trigger r[i], r[j]]
            0 <= i < j < r.len() implies r[i].0 < r[j].0 by {
            if j < adj.len() {
                assert(r[i] == adj[i] && r[j] == adj[j]);
            } else {
                if i < adj.len() - 1 {
                    assert(adj[i].0 < adj[adj.len() - 1].0);
                }
            }
        }
    } else if adj.last().0 == key {
        assert forall|i: int, j: int|
            #![trigger r[i], r[j]]
            0 <= i < j < r.len() implies r[i].0 < r[j].0 by {
            if j < adj.len() - 1 {
                assert(r[i] == adj[i] && r[j] == adj[j]);
            } else {
                assert(r[i] == adj[i]);
                assert(adj[i].0 < adj[adj.len() - 1].0);
            }
        }
    } else {
        assert(sorted_keys(adj.drop_last())) by {
            assert forall|i: int, j: int|
                #![trigger adj.drop_last()[i], adj.drop_last()[j]]
                0 <= i < j < adj.drop_last().len() implies adj.drop_last()[i].0
                < adj.drop_last()[j].0 by {
                assert(adj[i].0 < adj[j].0);
            }
        }
        lemma_upsert_sorted(adj.drop_last(), key, cs);
        lemma_upsert_keys(adj.drop_last(), key, cs);
        let inner = upsert(adj.drop_last(), key, cs);
        assert forall|i: int, j: int|
            #![trigger r[i], r[j]]
            0 <= i < j < r.len() implies r[i].0 < r[j].0 by {
            if j < inner.len() {
                assert(r[i] == inner[i] && r[j] == inner[j]);
            } else {
                assert(r[j] == adj.last());
                assert(r[i] == inner[i]);
                if inner[i].0 != key {
                    assert(adj_has(adj.drop_last(), inner[i].0));
                    lemma_adj_has_index(adj.drop_last(), inner[i].0);
                    let jj = choose|jj: int|
                        0 <= jj < adj.drop_last().len() && (#[trigger] adj.drop_last()[jj]).0
                            == inner[i].0;
                    assert(adj[jj].0 < adj[adj.len() - 1].0);
                }
            }
        }
    }
}

/// Insert or replace the entry for `key` in a key-sorted association vector.
fn upsert_exec(nodes: &mut Vec<(usize, Vec<usize>)>, key: usize, cs: Vec<usize>)
    ensures
        assoc_view(final (nodes)@) == upsert(assoc_view(old(nodes)@), key, cs@),
{
    let ghost full = assoc_view(nodes@);
    let mut i: usize = nodes.len();
    proof {
        assert(full.take(i as int) =~= full);
        assert(upsert(full, key, cs@) + full.skip(i as int) =~= upsert(full, key, cs@));
    }
    while i > 0 && nodes[i - 1].0 > key
        invariant
            i <= nodes@.len(),
            full == assoc_view(nodes@),
            forall|j: int| i <= j < full.len() ==> (#[trigger] full[j]).0 > key,
            upsert(full.take(i as int), key, cs@) + full.skip(i as int) == upsert(full, key, cs@),
        decreases i,
    {
        proof {
            assert(full.take(i as int).drop_last() =~= full.take(i - 1int));
            assert(full.take(i as int).last() == full[i - 1int]);
            assert(upsert(full.take(i - 1int), key, cs@).push(full[i - 1int]) + full.skip(i as int)
                =~= upsert(full.take(i - 1int), key, cs@) + full.skip(i - 1int));
        }
        i -= 1;
    }
    if i > 0 && nodes[i - 1].0 == key {
        proof {
            assert(full.take(i as int).last() == full[i - 1int]);
            assert(full.take(i as int).drop_last() =~= full.take(i - 1int));
        }
        nodes.remove(i - 1);
        nodes.insert(i - 1, (key, cs));
        proof {
            assert(assoc_view(nodes@) =~= upsert(full.take(i as int), key, cs@) + full.skip(
                i as int,
            ));
        }
    } else {
        proof {
            if i > 0 {
                assert(full.take(i as int).last() == full[i - 1int]);
            }
            assert(upsert(full.take(i as int), key, cs@) =~= full.take(i as int).push(
                (key, cs@),
            ));
        }
        nodes.insert(i, (key, cs));
        proof {
            assert(assoc_view(nodes@) =~= full.take(i as int).push((key, cs@)) + full.skip(
                i as int,
            ));
        }
    }
}

/// A well-formed tree keeps its entries sorted strictly by key.
pub proof fn lemma_wf_sorted(t: &Tree)
    requires
        t.wf(),
    ensures
        sorted_keys(t.adj()),
{
}

/// The traversal is deterministic: the contract of `post_order` pins the
/// sequence to `post_order_spec`, so two calls on the same unmutated tree
/// return identical sequences.
pub proof fn lemma_post_order_deterministic(t: &Tree, r1: Seq<usize>, r2: Seq<usize>)
    requires
        r1 == t.post_order_spec(),
        r2 == t.post_order_spec(),
    ensures
        r1 == r2,
{
}

} // verus!
