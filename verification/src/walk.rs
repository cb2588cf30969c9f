//! The sequential walk of a synthetic tree: what a walk that enters one
//! directory after the other counts and reports. Every other way of walking
//! the tree is measured against it.

use vstd::prelude::*;
use vstd::multiset::Multiset;
use vstd::seq_lib::lemma_multiset_commutative;
use crate::scan::{scan, scan_directory, ErrorRecord, ErrorView};
use crate::stats::{views, Counts, DisplayStats};
use crate::tree::{lemma_discovered_members, Tree};

verus! {

/// What a walk, or a part of one, amounts to: the counters, the errors
/// reported, and the positions of the directories scanned, the last two in
/// no order and each as often as it occurs.
#[verifier::ext_equal]
pub struct Tally {
    pub counts: Counts,
    pub errors: Multiset<ErrorView>,
    pub entered: Multiset<usize>,
}

impl Tally {
    /// Nothing counted, nothing reported, nothing scanned.
    pub open spec fn zero() -> Tally {
        Tally { counts: Counts::zero(), errors: Multiset::empty(), entered: Multiset::empty() }
    }

    /// Both parts together.
    pub open spec fn plus(self, other: Tally) -> Tally {
        Tally {
            counts: self.counts.plus(other.counts),
            errors: self.errors.add(other.errors),
            entered: self.entered.add(other.entered),
        }
    }
}

/// What the scan of the directory at `d` alone amounts to.
pub open spec fn local(tree: Tree, d: usize) -> Tally {
    let out = scan(tree.item(d), tree.listing(d));
    Tally { counts: out.counts, errors: out.errors.to_multiset(), entered: Multiset::singleton(d) }
}

/// What the walk of the directory at `d` amounts to: its own scan, and the
/// walk of every subdirectory that the scan discovers.
pub open spec fn walk(tree: Tree, d: usize) -> Tally
    decreases tree.nodes.len() - d, 1nat, 0nat,
{
    if d < tree.nodes.len() {
        local(tree, d).plus(walk_each(tree, d as int, tree.discovered(d)))
    } else {
        Tally::zero()
    }
}

/// The walks of the directories at `ids` together, those left out that do
/// not lie after `above` and inside the tree.
pub open spec fn walk_each(tree: Tree, above: int, ids: Seq<usize>) -> Tally
    decreases tree.nodes.len() - above, 0nat, ids.len(),
{
    if ids.len() == 0 {
        Tally::zero()
    } else {
        walk_each(tree, above, ids.drop_last()).plus(
            if above < ids.last() < tree.nodes.len() {
                walk(tree, ids.last())
            } else {
                Tally::zero()
            },
        )
    }
}

/// The walks of the directories at `ids` together.
pub open spec fn walk_all(tree: Tree, ids: Seq<usize>) -> Tally {
    walk_each(tree, -1, ids)
}

/// What the sequential walk of the whole tree amounts to.
pub open spec fn total(tree: Tree) -> Tally {
    walk_all(tree, tree.roots@)
}

/// Where every position lies inside the tree and after both marks, the mark
/// makes no difference.
pub proof fn lemma_walk_each_above(tree: Tree, a: int, b: int, ids: Seq<usize>)
    requires
        forall|k: int| 0 <= k < ids.len() ==> a < ids[k] && b < ids[k],
    ensures
        walk_each(tree, a, ids) == walk_each(tree, b, ids),
    decreases ids.len(),
{
    if ids.len() > 0 {
        lemma_walk_each_above(tree, a, b, ids.drop_last());
    }
}

/// The walk of a directory is its own scan and the walks of what it discovers.
pub proof fn lemma_walk_unfold(tree: Tree, d: usize)
    requires
        tree.wf(),
        d < tree.nodes.len(),
    ensures
        walk(tree, d) == local(tree, d).plus(walk_all(tree, tree.discovered(d))),
{
    let ids = tree.discovered(d);
    assert forall|k: int| 0 <= k < ids.len() implies d < ids[k] && -1 < ids[k] by {
        assert(ids.contains(ids[k]));
        lemma_discovered_members(tree, d, ids[k]);
    }
    lemma_walk_each_above(tree, d as int, -1, ids);
}

/// One more position adds its walk.
pub proof fn lemma_walk_all_push(tree: Tree, ids: Seq<usize>, x: usize)
    requires
        x < tree.nodes.len(),
    ensures
        walk_all(tree, ids.push(x)) == walk_all(tree, ids).plus(walk(tree, x)),
{
    assert(ids.push(x).drop_last() =~= ids);
}

/// Two runs of positions, one after the other, add up.
pub proof fn lemma_walk_all_concat(tree: Tree, a: Seq<usize>, b: Seq<usize>)
    ensures
        walk_all(tree, a + b) == walk_all(tree, a).plus(walk_all(tree, b)),
    decreases b.len(),
{
    if b.len() == 0 {
        assert(a + b =~= a);
        assert(walk_all(tree, a).plus(Tally::zero()) =~= walk_all(tree, a));
    } else {
        lemma_walk_all_concat(tree, a, b.drop_last());
        assert((a + b).drop_last() =~= a + b.drop_last());
        assert((a + b).last() == b.last());
        let x = if -1 < b.last() < tree.nodes.len() {
            walk(tree, b.last())
        } else {
            Tally::zero()
        };
        assert(walk_all(tree, a).plus(walk_all(tree, b.drop_last())).plus(x) =~= walk_all(
            tree,
            a,
        ).plus(walk_all(tree, b.drop_last()).plus(x)));
    }
}

/// Taking one position out takes its walk out.
pub proof fn lemma_walk_all_remove(tree: Tree, ids: Seq<usize>, k: int)
    requires
        0 <= k < ids.len(),
        ids[k] < tree.nodes.len(),
    ensures
        walk_all(tree, ids) == walk_all(tree, ids.remove(k)).plus(walk(tree, ids[k])),
    decreases ids.len(),
{
    if k == ids.len() - 1 {
        assert(ids.remove(k) =~= ids.drop_last());
    } else {
        lemma_walk_all_remove(tree, ids.drop_last(), k);
        assert(ids.remove(k).drop_last() =~= ids.drop_last().remove(k));
        assert(ids.remove(k).last() == ids.last());
        let x = if -1 < ids.last() < tree.nodes.len() {
            walk(tree, ids.last())
        } else {
            Tally::zero()
        };
        let rest = walk_all(tree, ids.drop_last().remove(k));
        let w = walk(tree, ids[k]);
        assert(rest.plus(w).plus(x) =~= rest.plus(x).plus(w));
    }
}

/// A part is never more than the whole.
pub proof fn lemma_walk_all_member(tree: Tree, ids: Seq<usize>, k: int)
    requires
        0 <= k < ids.len(),
        ids[k] < tree.nodes.len(),
    ensures
        walk(tree, ids[k]).counts.file <= walk_all(tree, ids).counts.file,
        walk(tree, ids[k]).counts.sym <= walk_all(tree, ids).counts.sym,
        walk(tree, ids[k]).counts.dir <= walk_all(tree, ids).counts.dir,
{
    lemma_walk_all_remove(tree, ids, k);
}

/// Every walk of a directory inside the tree scans that directory.
pub proof fn lemma_walk_enters(tree: Tree, d: usize)
    requires
        d < tree.nodes.len(),
    ensures
        walk(tree, d).entered.count(d) >= 1,
        walk(tree, d).entered.len() >= 1,
{
    let below = walk_each(tree, d as int, tree.discovered(d));
    assert(walk(tree, d).entered == Multiset::singleton(d).add(below.entered));
    assert(Multiset::singleton(d).len() == 1);
}

/// The number of steps that a walk, or a part of one, costs at the least:
/// three for each directory scanned (to be taken from the queue, to be
/// admitted, to be scanned) and two for each error (to be queued, to be
/// written out).
pub open spec fn price(tally: Tally) -> nat {
    3 * tally.entered.len() + 2 * tally.errors.len()
}

/// The price of two parts is the sum of their prices.
pub proof fn lemma_price_plus(a: Tally, b: Tally)
    ensures
        price(a.plus(b)) == price(a) + price(b),
        price(Tally::zero()) == 0,
{
}

/// The first positions of a run amount to no more than the whole run.
pub proof fn lemma_walk_all_prefix(tree: Tree, ids: Seq<usize>, k: int)
    requires
        0 <= k <= ids.len(),
    ensures
        walk_all(tree, ids.take(k)).counts.file <= walk_all(tree, ids).counts.file,
        walk_all(tree, ids.take(k)).counts.sym <= walk_all(tree, ids).counts.sym,
        walk_all(tree, ids.take(k)).counts.dir <= walk_all(tree, ids).counts.dir,
{
    assert(ids =~= ids.take(k) + ids.skip(k));
    lemma_walk_all_concat(tree, ids.take(k), ids.skip(k));
}

/// What a walk hands back at its end.
#[derive(Debug, PartialEq, Eq)]
pub struct Outcome {
    /// The counters, all shards summed.
    pub counts: DisplayStats,
    /// The errors, in the order in which they were reported.
    pub errors: Vec<ErrorRecord>,
}

impl Outcome {
    /// The outcome holds the counters of `tally` and its errors, each as
    /// often as `tally` does, in some order.
    pub open spec fn agrees_with(&self, tally: Tally) -> bool {
        &&& self.counts@ == tally.counts
        &&& views(self.errors@).to_multiset() == tally.errors
    }
}

/// The values of two runs of records, one after the other.
pub proof fn lemma_views_concat(a: Seq<ErrorRecord>, b: Seq<ErrorRecord>)
    ensures
        views(a + b) == views(a) + views(b),
        views(a + b).to_multiset() == views(a).to_multiset().add(views(b).to_multiset()),
{
    assert(views(a + b) =~= views(a) + views(b));
    lemma_multiset_commutative(views(a), views(b));
}

/// Adds the outcome of one more walk to what was gathered; `false` where a
/// counter cannot hold the sum, or where that walk had no outcome.
fn gather(counts: &mut DisplayStats, errors: &mut Vec<ErrorRecord>, more: Option<Outcome>) -> (ok:
    bool)
    ensures
        ok <==> (more matches Some(o) && old(counts)@.plus(o.counts@).fits()),
        ok ==> final(counts)@ == old(counts)@.plus(more->Some_0.counts@),
        ok ==> views(final(errors)@).to_multiset() == views(old(errors)@).to_multiset().add(
            views(more->Some_0.errors@).to_multiset(),
        ),
{
    match more {
        None => false,
        Some(outcome) => {
            let mut outcome = outcome;
            match counts.checked_plus(outcome.counts) {
                None => false,
                Some(sum) => {
                    *counts = sum;
                    proof {
                        lemma_views_concat(errors@, outcome.errors@);
                    }
                    errors.append(&mut outcome.errors);
                    true
                },
            }
        },
    }
}

/// Walks the directory at `d` and all that lies below it, one directory
/// after the other; `None` where a counter cannot hold the result.
pub fn walk_directory(tree: &Tree, d: usize) -> (out: Option<Outcome>)
    requires
        tree.wf(),
        d < tree.nodes.len(),
        tree.nodes[d as int].entry is Found,
    ensures
        out is Some <==> walk(*tree, d).counts.fits(),
        out matches Some(o) ==> o.agrees_with(walk(*tree, d)),
    decreases tree.nodes.len() - d,
{
    let item = tree.work_item(d);
    let scanned = scan_directory(&item, tree.read_dir(d));
    let ids = tree.discover(d);
    let mut counts = scanned.counts;
    let mut errors = scanned.errors;
    let mut k: usize = 0;
    proof {
        lemma_walk_unfold(*tree, d);
        assert(ids@.take(0) =~= Seq::<usize>::empty());
        assert(local(*tree, d).plus(Tally::zero()) =~= local(*tree, d));
    }
    while k < ids.len()
        invariant
            tree.wf(),
            d < tree.nodes.len(),
            ids@ == tree.discovered(d),
            k <= ids.len(),
            walk(*tree, d) == local(*tree, d).plus(walk_all(*tree, ids@)),
            counts@ == local(*tree, d).plus(walk_all(*tree, ids@.take(k as int))).counts,
            views(errors@).to_multiset() == local(*tree, d).plus(
                walk_all(*tree, ids@.take(k as int)),
            ).errors,
        decreases ids.len() - k,
    {
        let x: usize = ids[k];
        proof {
            assert(ids@.contains(x));
            lemma_discovered_members(*tree, d, x);
            assert(ids@.take(k as int + 1) =~= ids@.take(k as int).push(x));
            lemma_walk_all_push(*tree, ids@.take(k as int), x);
            lemma_walk_all_prefix(*tree, ids@, k as int + 1);
            lemma_walk_all_member(*tree, ids@, k as int);
        }
        let ghost before = local(*tree, d).plus(walk_all(*tree, ids@.take(k as int)));
        if !gather(&mut counts, &mut errors, walk_directory(tree, x)) {
            return None;
        }
        assert(before.plus(walk(*tree, x)) =~= local(*tree, d).plus(
            walk_all(*tree, ids@.take(k as int + 1)),
        ));
        k = k + 1;
    }
    assert(ids@.take(k as int) =~= ids@);
    Some(Outcome { counts, errors })
}

/// Walks the whole tree, one directory after the other, from each root in
/// turn; `None` where a counter cannot hold the result.
pub fn reference_walk(tree: &Tree) -> (out: Option<Outcome>)
    requires
        tree.wf(),
    ensures
        out is Some <==> total(*tree).counts.fits(),
        out matches Some(o) ==> o.agrees_with(total(*tree)),
{
    let mut counts = DisplayStats::new();
    let mut errors: Vec<ErrorRecord> = Vec::new();
    let mut k: usize = 0;
    proof {
        assert(tree.roots@.take(0) =~= Seq::<usize>::empty());
        views(errors@).to_multiset_ensures();
        assert(views(errors@).to_multiset() =~= Multiset::<ErrorView>::empty());
    }
    while k < tree.roots.len()
        invariant
            tree.wf(),
            k <= tree.roots.len(),
            counts@ == walk_all(*tree, tree.roots@.take(k as int)).counts,
            views(errors@).to_multiset() == walk_all(*tree, tree.roots@.take(k as int)).errors,
        decreases tree.roots.len() - k,
    {
        let x: usize = tree.roots[k];
        proof {
            assert(tree.roots@.take(k as int + 1) =~= tree.roots@.take(k as int).push(x));
            lemma_walk_all_push(*tree, tree.roots@.take(k as int), x);
            lemma_walk_all_prefix(*tree, tree.roots@, k as int + 1);
            lemma_walk_all_member(*tree, tree.roots@, k as int);
        }
        let ghost before = walk_all(*tree, tree.roots@.take(k as int));
        if !gather(&mut counts, &mut errors, walk_directory(tree, x)) {
            return None;
        }
        assert(before.plus(walk(*tree, x)) =~= walk_all(*tree, tree.roots@.take(k as int + 1)));
        k = k + 1;
    }
    assert(tree.roots@.take(k as int) =~= tree.roots@);
    Some(Outcome { counts, errors })
}

} // verus!
