//! The counting engine.
//!
//! A two-state dynamic program evaluated over the post-order sequence:
//! for each node, `without` is the product of the children's `with`
//! values minus the product of their `without` values, and `with` adds
//! the product of the grandchildren's `with` values. All arithmetic is
//! exact and arbitrary-precision; the result is the root's `with` value
//! rendered in decimal. The tables are association lists written left to
//! right, read through a zero-defaulting lookup, exactly as the
//! recurrence specifies for nodes without a recorded state.

use vstd::arithmetic::mul::{lemma_mul_nonnegative, lemma_mul_upper_bound};
use vstd::prelude::*;

use dashu_int::UBig;

use crate::bigint::{
    big_add, big_clone, big_from_usize, big_mul, big_nat, big_sub, big_to_decimal, dec_chars,
};
use crate::tree::{adj_children, adj_grandchildren, Tree};

verus! {

/// The value recorded for `k`, or zero if no entry was recorded; the
/// latest entry wins.
pub open spec fn tbl_lookup(t: Seq<(usize, int)>, k: usize) -> int
    decreases t.len(),
{
    if t.len() == 0 {
        0
    } else if t.last().0 == k {
        t.last().1
    } else {
        tbl_lookup(t.drop_last(), k)
    }
}

/// The product of the recorded values of `ns`; the empty product is one.
pub open spec fn tbl_prod(t: Seq<(usize, int)>, ns: Seq<usize>) -> int
    decreases ns.len(),
{
    if ns.len() == 0 {
        1
    } else {
        tbl_prod(t, ns.drop_last()) * tbl_lookup(t, ns.last())
    }
}

/// One step of the recurrence at `node`, given the tables so far.
pub open spec fn dp_step(
    adj: Seq<(usize, Seq<usize>)>,
    w: Seq<(usize, int)>,
    wo: Seq<(usize, int)>,
    node: usize,
) -> (Seq<(usize, int)>, Seq<(usize, int)>) {
    let cs = adj_children(adj, node);
    let without_v = tbl_prod(w, cs) - tbl_prod(wo, cs);
    let with_v = tbl_prod(w, adj_grandchildren(adj, node)) + without_v;
    (w.push((node, with_v)), wo.push((node, without_v)))
}

/// The `with` and `without` tables after evaluating `order` left to right.
pub open spec fn dp_tables(adj: Seq<(usize, Seq<usize>)>, order: Seq<usize>) -> (
    Seq<(usize, int)>,
    Seq<(usize, int)>,
)
    decreases order.len(),
{
    if order.len() == 0 {
        (Seq::empty(), Seq::empty())
    } else {
        let prev = dp_tables(adj, order.drop_last());
        dp_step(adj, prev.0, prev.1, order.last())
    }
}

/// The count for a tree: the root's `with` value once the recurrence has
/// run over the whole post-order sequence.
pub open spec fn mis_count(t: &Tree) -> int {
    tbl_lookup(dp_tables(t.adj(), t.post_order_spec()).0, t.root_spec())
}

/// Shape shared by the two tables at every step: the same keys in the
/// same order, and each `without` value between zero and the `with`
/// value of the same node.
pub open spec fn entry_bounded(w: Seq<(usize, int)>, wo: Seq<(usize, int)>, i: int) -> bool {
    &&& w[i].0 == wo[i].0
    &&& 0 <= wo[i].1
    &&& wo[i].1 <= w[i].1
}

pub open spec fn tables_bounded(w: Seq<(usize, int)>, wo: Seq<(usize, int)>) -> bool {
    &&& w.len() == wo.len()
    &&& forall|i: int| 0 <= i < w.len() ==> #[trigger] entry_bounded(w, wo, i)
}

proof fn lemma_lookup_bounded(w: Seq<(usize, int)>, wo: Seq<(usize, int)>, k: usize)
    requires
        tables_bounded(w, wo),
    ensures
        0 <= tbl_lookup(wo, k) <= tbl_lookup(w, k),
    decreases w.len(),
{
    if w.len() > 0 {
        assert(entry_bounded(w, wo, w.len() - 1));
        if w.last().0 != k {
            let wd = w.drop_last();
            let wod = wo.drop_last();
            assert forall|i: int| 0 <= i < wd.len() implies #[trigger] entry_bounded(
                wd,
                wod,
                i,
            ) by {
                assert(wd[i] == w[i] && wod[i] == wo[i]);
                assert(entry_bounded(w, wo, i));
            }
            lemma_lookup_bounded(wd, wod, k);
        }
    }
}

proof fn lemma_prod_bounded(w: Seq<(usize, int)>, wo: Seq<(usize, int)>, ns: Seq<usize>)
    requires
        tables_bounded(w, wo),
    ensures
        0 <= tbl_prod(wo, ns) <= tbl_prod(w, ns),
    decreases ns.len(),
{
    if ns.len() > 0 {
        lemma_prod_bounded(w, wo, ns.drop_last());
        lemma_lookup_bounded(w, wo, ns.last());
        lemma_mul_nonnegative(tbl_prod(wo, ns.drop_last()), tbl_lookup(wo, ns.last()));
        lemma_mul_upper_bound(
            tbl_prod(wo, ns.drop_last()),
            tbl_prod(w, ns.drop_last()),
            tbl_lookup(wo, ns.last()),
            tbl_lookup(w, ns.last()),
        );
    }
}

/// Resolution of the recurrence's sign question: whatever the adjacency
/// and whatever the evaluation order, every recorded `without` value lies
/// between zero and the `with` value of the same node, so the subtraction
/// in the recurrence never goes below zero and unsigned arithmetic is
/// exact throughout.
pub proof fn lemma_dp_tables_bounded(adj: Seq<(usize, Seq<usize>)>, order: Seq<usize>)
    ensures
        tables_bounded(dp_tables(adj, order).0, dp_tables(adj, order).1),
    decreases order.len(),
{
    if order.len() > 0 {
        lemma_dp_tables_bounded(adj, order.drop_last());
        let prev = dp_tables(adj, order.drop_last());
        let node = order.last();
        lemma_prod_bounded(prev.0, prev.1, adj_children(adj, node));
        lemma_prod_bounded(prev.0, prev.1, adj_grandchildren(adj, node));
        let cur = dp_tables(adj, order);
        assert forall|i: int| 0 <= i < cur.0.len() implies #[trigger] entry_bounded(
            cur.0,
            cur.1,
            i,
        ) by {
            if i < prev.0.len() {
                assert(cur.0[i] == prev.0[i] && cur.1[i] == prev.1[i]);
                assert(entry_bounded(prev.0, prev.1, i));
            }
        }
    }
}

/// The count itself is never negative, for every tree value.
pub proof fn lemma_mis_count_nonneg(t: &Tree)
    ensures
        mis_count(t) >= 0,
{
    lemma_dp_tables_bounded(t.adj(), t.post_order_spec());
    let tables = dp_tables(t.adj(), t.post_order_spec());
    lemma_lookup_bounded(tables.0, tables.1, t.root_spec());
}

/// The executable table mirrors the specification table entry by entry.
pub open spec fn models(e: Seq<(usize, UBig)>, s: Seq<(usize, int)>) -> bool {
    &&& e.len() == s.len()
    &&& forall|i: int|
        0 <= i < e.len() ==> (#[trigger] e[i]).0 == s[i].0 && big_nat(e[i].1) == s[i].1
}

/// The recorded counter for `k`, or zero.
fn table_get(t: &Vec<(usize, UBig)>, k: usize, Ghost(s): Ghost<Seq<(usize, int)>>) -> (r: UBig)
    requires
        models(t@, s),
    ensures
        big_nat(r) == tbl_lookup(s, k),
{
    let mut i: usize = t.len();
    proof {
        assert(s.take(i as int) =~= s);
    }
    while i > 0
        invariant
            i <= t@.len(),
            models(t@, s),
            tbl_lookup(s, k) == tbl_lookup(s.take(i as int), k),
        decreases i,
    {
        proof {
            assert(s.take(i as int).drop_last() =~= s.take(i - 1int));
            assert(s.take(i as int).last() == s[i - 1int]);
        }
        if t[i - 1].0 == k {
            return big_clone(&t[i - 1].1);
        }
        i -= 1;
    }
    big_from_usize(0)
}

/// The product of the recorded counters of `ns`.
fn table_prod(
    t: &Vec<(usize, UBig)>,
    ns: &Vec<usize>,
    Ghost(s): Ghost<Seq<(usize, int)>>,
) -> (r: UBig)
    requires
        models(t@, s),
    ensures
        big_nat(r) == tbl_prod(s, ns@),
{
    let mut r = big_from_usize(1);
    let mut k: usize = 0;
    while k < ns.len()
        invariant
            k <= ns@.len(),
            models(t@, s),
            big_nat(r) == tbl_prod(s, ns@.take(k as int)),
        decreases ns@.len() - k,
    {
        let f = table_get(t, ns[k], Ghost(s));
        r = big_mul(&r, &f);
        proof {
            assert(ns@.take(k + 1int).drop_last() =~= ns@.take(k as int));
            assert(ns@.take(k + 1int).last() == ns@[k as int]);
        }
        k += 1;
    }
    proof {
        assert(ns@.take(ns@.len() as int) =~= ns@);
    }
    r
}

impl Tree {
    /// The number of counted selections for this tree, as a decimal
    /// string: the recurrence of the engine evaluated in post-order, with
    /// exact arbitrary-precision arithmetic, never narrowed.
    pub fn count_mis(&self) -> (r: String)
        requires
            self.wf(),
        ensures
            r@ == dec_chars(mis_count(self) as nat),
    {
        let order = self.post_order();
        let ghost adj = self.adj();
        let mut withs: Vec<(usize, UBig)> = Vec::new();
        let mut withouts: Vec<(usize, UBig)> = Vec::new();
        let mut i: usize = 0;
        proof {
            assert(order@.take(0int) =~= Seq::<usize>::empty());
        }
        while i < order.len()
            invariant
                i <= order@.len(),
                adj == self.adj(),
                order@ == self.post_order_spec(),
                models(withs@, dp_tables(adj, order@.take(i as int)).0),
                models(withouts@, dp_tables(adj, order@.take(i as int)).1),
            decreases order@.len() - i,
        {
            let node = order[i];
            let ghost w_s = dp_tables(adj, order@.take(i as int)).0;
            let ghost wo_s = dp_tables(adj, order@.take(i as int)).1;
            let cs = self.children(node);
            let m = table_prod(&withs, &cs, Ghost(w_s));
            let n = table_prod(&withouts, &cs, Ghost(wo_s));
            proof {
                lemma_dp_tables_bounded(adj, order@.take(i as int));
                lemma_prod_bounded(w_s, wo_s, cs@);
            }
            let wo_v = big_sub(&m, &n);
            let gs = self.grandchildren(node);
            let kk = table_prod(&withs, &gs, Ghost(w_s));
            let w_v = big_add(&kk, &wo_v);
            withs.push((node, w_v));
            withouts.push((node, wo_v));
            proof {
                assert(order@.take(i + 1int).drop_last() =~= order@.take(i as int));
                assert(order@.take(i + 1int).last() == order@[i as int]);
                assert(models(withs@, dp_tables(adj, order@.take(i + 1int)).0));
                assert(models(withouts@, dp_tables(adj, order@.take(i + 1int)).1));
            }
            i += 1;
        }
        proof {
            assert(order@.take(order@.len() as int) =~= order@);
        }
        let res = table_get(&withs, self.root(), Ghost(dp_tables(adj, order@).0));
        big_to_decimal(&res)
    }
}

/// The counter is deterministic: its contract pins the decimal string to
/// a function of the tree alone, so two invocations on the same unmutated
/// tree yield identical strings.
pub proof fn lemma_count_deterministic(t: &Tree, r1: Seq<char>, r2: Seq<char>)
    requires
        r1 == dec_chars(mis_count(t) as nat),
        r2 == dec_chars(mis_count(t) as nat),
    ensures
        r1 == r2,
{
}

} // verus!
