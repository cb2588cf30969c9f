//! A synthetic directory tree: what a filesystem would answer to each
//! listing, held as plain values, so that a walk can be run without one.

use vstd::prelude::*;
use crate::stats::views;
use crate::scan::{
    classify,
    copy_path,
    listing_view,
    scan_discovered,
    ChildEntry,
    ChildView,
    EntryKind,
    Meta,
    WorkItem,
    WorkItemView,
};

verus! {

/// One entry of the synthetic tree.
#[derive(Debug, PartialEq, Eq)]
pub struct Node {
    /// How the entry shows up in the listing of the directory that holds it.
    pub entry: ChildEntry,
    /// The positions in the tree of the entries that the entry holds as a
    /// directory, in the order in which a listing yields them.
    pub children: Vec<usize>,
    /// The cause for which the entry cannot be listed, where it cannot.
    pub denied: Option<String>,
}

/// A synthetic tree, or several: every entry at a position of its own, each
/// directory naming the positions of its children, all of them after its own.
#[derive(Debug, PartialEq, Eq)]
pub struct Tree {
    pub nodes: Vec<Node>,
    /// Positions of the directories at which the walk starts.
    pub roots: Vec<usize>,
}

impl Tree {
    /// Children come after their directory, and every root is an entry whose
    /// path and device are known.
    pub open spec fn wf(&self) -> bool {
        &&& forall|d: int, k: int|
            0 <= d < self.nodes.len() && 0 <= k < self.nodes[d].children.len() ==> d < (
            #[trigger] self.nodes[d].children[k]) < self.nodes.len()
        &&& forall|r: int|
            0 <= r < self.roots.len() ==> (#[trigger] self.roots[r]) < self.nodes.len()
                && self.nodes[self.roots[r] as int].entry is Found
    }

    /// The entry at position `d` as a work item. Meaningful where the entry
    /// was found with its metadata.
    pub open spec fn item(&self, d: usize) -> WorkItemView {
        match self.nodes[d as int].entry {
            ChildEntry::Found { path, meta } => WorkItemView { path: path@, device: meta.device },
            _ => WorkItemView { path: Seq::empty(), device: 0 },
        }
    }

    /// The positions that a listing of `d` yields; none where `d` cannot be
    /// listed.
    pub open spec fn children(&self, d: usize) -> Seq<usize> {
        match self.nodes[d as int].denied {
            None => self.nodes[d as int].children@,
            Some(_) => Seq::empty(),
        }
    }

    /// The entries at the given positions, as a listing shows them.
    pub open spec fn entries(&self, ids: Seq<usize>) -> Seq<ChildView> {
        Seq::new(ids.len(), |k: int| self.nodes[ids[k] as int].entry@)
    }

    /// What listing `d` yields.
    pub open spec fn listing(&self, d: usize) -> Result<Seq<ChildView>, Seq<char>> {
        match self.nodes[d as int].denied {
            None => Ok(self.entries(self.nodes[d as int].children@)),
            Some(cause) => Err(cause@),
        }
    }

    /// Of the given positions, those whose entries a scan of `dir` hands back
    /// as new work, in the same order.
    pub open spec fn select(&self, dir: WorkItemView, ids: Seq<usize>) -> Seq<usize>
        decreases ids.len(),
    {
        if ids.len() == 0 {
            Seq::empty()
        } else {
            let before = self.select(dir, ids.drop_last());
            if self.nodes[ids.last() as int].entry@.work(dir) is Some {
                before.push(ids.last())
            } else {
                before
            }
        }
    }

    /// The positions that a scan of `d` adds to the work queue.
    pub open spec fn discovered(&self, d: usize) -> Seq<usize> {
        self.select(self.item(d), self.children(d))
    }
}

/// What `select` keeps was among the positions given, and is a directory
/// found on the device of `dir`.
pub proof fn lemma_select_members(tree: Tree, dir: WorkItemView, ids: Seq<usize>, x: usize)
    requires
        tree.select(dir, ids).contains(x),
    ensures
        ids.contains(x),
        tree.nodes[x as int].entry@.work(dir) is Some,
    decreases ids.len(),
{
    if ids.len() > 0 {
        let before = tree.select(dir, ids.drop_last());
        if before.contains(x) {
            lemma_select_members(tree, dir, ids.drop_last(), x);
            let j = choose|j: int| 0 <= j < ids.drop_last().len() && ids.drop_last()[j] == x;
            assert(ids[j] == x);
        } else {
            assert(tree.select(dir, ids) == before.push(ids.last()));
            let j = choose|j: int| 0 <= j < before.push(ids.last()).len() && before.push(
                ids.last(),
            )[j] == x;
            assert(j == before.len());
            assert(ids[ids.len() - 1] == x);
        }
    }
}

/// What a scan of `d` discovers lies after `d`, inside the tree, and is an
/// entry found with its metadata.
pub proof fn lemma_discovered_members(tree: Tree, d: usize, x: usize)
    requires
        tree.wf(),
        d < tree.nodes.len(),
        tree.discovered(d).contains(x),
    ensures
        d < x < tree.nodes.len(),
        tree.nodes[x as int].entry is Found,
        tree.children(d).contains(x),
        tree.item(x).device == tree.item(d).device,
{
    lemma_select_members(tree, tree.item(d), tree.children(d), x);
    let k = choose|k: int| 0 <= k < tree.children(d).len() && tree.children(d)[k] == x;
    assert(tree.nodes[d as int].denied is None);
    assert(tree.nodes[d as int].children[k] == x);
}

/// What a scan hands back as new work are the items of the positions that
/// `select` keeps.
pub proof fn lemma_select_matches_scan(tree: Tree, dir: WorkItemView, ids: Seq<usize>)
    ensures
        scan_discovered(dir, tree.entries(ids)) == Seq::new(
            tree.select(dir, ids).len(),
            |j: int| tree.item(tree.select(dir, ids)[j]),
        ),
    decreases ids.len(),
{
    let items = Seq::new(tree.select(dir, ids).len(), |j: int| tree.item(tree.select(dir, ids)[j]));
    if ids.len() == 0 {
        assert(scan_discovered(dir, tree.entries(ids)) =~= items);
    } else {
        lemma_select_matches_scan(tree, dir, ids.drop_last());
        assert(tree.entries(ids).drop_last() =~= tree.entries(ids.drop_last()));
        assert(tree.entries(ids).last() == tree.nodes[ids.last() as int].entry@);
        assert(scan_discovered(dir, tree.entries(ids)) =~= items);
    }
}

/// A copy of an entry.
pub fn copy_entry(entry: &ChildEntry) -> (copy: ChildEntry)
    ensures
        copy@ == entry@,
{
    match entry {
        ChildEntry::Broken { cause } => ChildEntry::Broken { cause: cause.clone() },
        ChildEntry::Unreadable { path, cause } => ChildEntry::Unreadable {
            path: copy_path(path),
            cause: cause.clone(),
        },
        ChildEntry::Found { path, meta } => ChildEntry::Found { path: copy_path(path), meta: *meta },
    }
}

impl Tree {
    /// A tree without entries.
    pub fn new() -> (tree: Tree)
        ensures
            tree.wf(),
            tree.nodes@.len() == 0,
            tree.roots@.len() == 0,
    {
        Tree { nodes: Vec::new(), roots: Vec::new() }
    }

    /// Whether the tree is well formed.
    pub fn well_formed(&self) -> (ok: bool)
        ensures
            ok == self.wf(),
    {
        let n: usize = self.nodes.len();
        let mut d: usize = 0;
        while d < n
            invariant
                n == self.nodes.len(),
                d <= n,
                forall|e: int, k: int|
                    0 <= e < d && 0 <= k < self.nodes[e].children.len() ==> e < (
                    #[trigger] self.nodes[e].children[k]) < self.nodes.len(),
            decreases n - d,
        {
            let ids = &self.nodes[d].children;
            let mut k: usize = 0;
            while k < ids.len()
                invariant
                    n == self.nodes.len(),
                    d < n,
                    self.nodes[d as int].children == *ids,
                    k <= ids.len(),
                    forall|j: int| 0 <= j < k ==> d < (#[trigger] ids[j]) < n,
                decreases ids.len() - k,
            {
                if !(d < ids[k] && ids[k] < n) {
                    assert(self.nodes[d as int].children[k as int] == ids[k as int]);
                    return false;
                }
                k = k + 1;
            }
            d = d + 1;
        }
        let mut r: usize = 0;
        while r < self.roots.len()
            invariant
                n == self.nodes.len(),
                r <= self.roots.len(),
                forall|j: int|
                    0 <= j < r ==> (#[trigger] self.roots[j]) < self.nodes.len()
                        && self.nodes[self.roots[j] as int].entry is Found,
            decreases self.roots.len() - r,
        {
            let x: usize = self.roots[r];
            if x >= n {
                return false;
            }
            match &self.nodes[x].entry {
                ChildEntry::Found { .. } => {},
                _ => {
                    return false;
                },
            }
            r = r + 1;
        }
        true
    }

    /// The entry at `d` as a work item.
    pub fn work_item(&self, d: usize) -> (item: WorkItem)
        requires
            d < self.nodes.len(),
            self.nodes[d as int].entry is Found,
        ensures
            item@ == self.item(d),
    {
        match &self.nodes[d].entry {
            ChildEntry::Found { path, meta } => WorkItem {
                path: copy_path(path),
                device: meta.device,
            },
            _ => WorkItem { path: Vec::new(), device: 0 },
        }
    }

    /// Lists the directory at `d`, as a filesystem would.
    pub fn read_dir(&self, d: usize) -> (listing: Result<Vec<ChildEntry>, String>)
        requires
            self.wf(),
            d < self.nodes.len(),
        ensures
            listing_view(listing) == self.listing(d),
    {
        match &self.nodes[d].denied {
            Some(cause) => Err(cause.clone()),
            None => {
                let ids = &self.nodes[d].children;
                let mut children: Vec<ChildEntry> = Vec::new();
                let mut k: usize = 0;
                while k < ids.len()
                    invariant
                        self.wf(),
                        d < self.nodes.len(),
                        self.nodes[d as int].children == *ids,
                        k <= ids.len(),
                        children.len() == k,
                        forall|j: int|
                            0 <= j < k ==> (#[trigger] children[j])@
                                == self.nodes[ids[j] as int].entry@,
                    decreases ids.len() - k,
                {
                    assert(self.nodes[d as int].children[k as int] == ids[k as int]);
                    children.push(copy_entry(&self.nodes[ids[k]].entry));
                    k = k + 1;
                }
                assert(views(children@) =~= self.entries(ids@));
                Ok(children)
            },
        }
    }

    /// The positions that a scan of the directory at `d` adds to the queue.
    pub fn discover(&self, d: usize) -> (found: Vec<usize>)
        requires
            self.wf(),
            d < self.nodes.len(),
        ensures
            found@ == self.discovered(d),
    {
        let mut found: Vec<usize> = Vec::new();
        let device: u64 = match &self.nodes[d].entry {
            ChildEntry::Found { meta, .. } => meta.device,
            _ => 0,
        };
        match &self.nodes[d].denied {
            Some(_) => {},
            None => {
                let ids = &self.nodes[d].children;
                let mut k: usize = 0;
                assert(ids@.take(0) =~= Seq::<usize>::empty());
                while k < ids.len()
                    invariant
                        self.wf(),
                        d < self.nodes.len(),
                        self.nodes[d as int].children == *ids,
                        device == self.item(d).device,
                        k <= ids.len(),
                        found@ == self.select(self.item(d), ids@.take(k as int)),
                    decreases ids.len() - k,
                {
                    assert(self.nodes[d as int].children[k as int] == ids[k as int]);
                    assert(ids@.take(k as int + 1).drop_last() =~= ids@.take(k as int));
                    let x: usize = ids[k];
                    match &self.nodes[x].entry {
                        ChildEntry::Found { meta, .. } => {
                            match classify(meta) {
                                EntryKind::Dir => {
                                    if meta.device == device {
                                        found.push(x);
                                    }
                                },
                                _ => {},
                            }
                        },
                        _ => {},
                    }
                    k = k + 1;
                }
                assert(ids@.take(k as int) =~= ids@);
            },
        }
        found
    }

    /// Adds a directory at which the walk starts, and gives its position.
    pub fn add_root(&mut self, path: Vec<u8>, device: u64) -> (id: usize)
        requires
            old(self).wf(),
        ensures
            final(self).wf(),
            id == old(self).nodes.len(),
            final(self).nodes@ == old(self).nodes@.push(final(self).nodes[id as int]),
            final(self).nodes[id as int].entry@ == (ChildView::Found {
                path: path@,
                meta: Meta { is_symlink: false, is_file: false, is_dir: true, device },
            }),
            final(self).nodes[id as int].children@ == Seq::<usize>::empty(),
            final(self).nodes[id as int].denied is None,
            final(self).roots@ == old(self).roots@.push(id),
    {
        let id: usize = self.nodes.len();
        let meta = Meta { is_symlink: false, is_file: false, is_dir: true, device };
        self.nodes.push(
            Node { entry: ChildEntry::Found { path, meta }, children: Vec::new(), denied: None },
        );
        self.roots.push(id);
        id
    }
}

impl Tree {
    /// Adds an entry to the directory at `parent`, after the entries that the
    /// directory holds already, and gives its position; `None`, and nothing
    /// added, where the tree has no position `parent`.
    pub fn add_child(&mut self, parent: usize, entry: ChildEntry) -> (id: Option<usize>)
        requires
            old(self).wf(),
        ensures
            final(self).wf(),
            final(self).roots == old(self).roots,
            id is Some <==> parent < old(self).nodes.len(),
            id is None ==> final(self).nodes == old(self).nodes,
            id matches Some(x) ==> {
                &&& x == old(self).nodes.len()
                &&& final(self).nodes.len() == x + 1
                &&& final(self).nodes[x as int].entry == entry
                &&& final(self).nodes[x as int].children@ == Seq::<usize>::empty()
                &&& final(self).nodes[x as int].denied is None
                &&& final(self).nodes[parent as int].children@ == old(
                    self,
                ).nodes[parent as int].children@.push(x)
                &&& final(self).nodes[parent as int].entry == old(self).nodes[parent as int].entry
                &&& final(self).nodes[parent as int].denied == old(
                    self,
                ).nodes[parent as int].denied
                &&& forall|j: int|
                    0 <= j < x && j != parent ==> final(self).nodes[j] == old(self).nodes[j]
            },
    {
        let id: usize = self.nodes.len();
        if parent >= id {
            return None;
        }
        self.nodes[parent].children.push(id);
        self.nodes.push(Node { entry, children: Vec::new(), denied: None });
        Some(id)
    }

    /// Makes the directory at `d` refuse its listing for `cause`. Gives
    /// `false`, and changes nothing, where the tree has no position `d`.
    pub fn deny(&mut self, d: usize, cause: String) -> (done: bool)
        requires
            old(self).wf(),
        ensures
            final(self).wf(),
            final(self).roots == old(self).roots,
            done == (d < old(self).nodes.len()),
            !done ==> final(self).nodes == old(self).nodes,
            done ==> {
                &&& final(self).nodes.len() == old(self).nodes.len()
                &&& final(self).nodes[d as int].denied == Some(cause)
                &&& final(self).nodes[d as int].entry == old(self).nodes[d as int].entry
                &&& final(self).nodes[d as int].children == old(self).nodes[d as int].children
                &&& forall|j: int|
                    0 <= j < old(self).nodes.len() && j != d ==> final(self).nodes[j] == old(
                        self,
                    ).nodes[j]
            },
    {
        if d >= self.nodes.len() {
            return false;
        }
        self.nodes[d].denied = Some(cause);
        true
    }
}

} // verus!
