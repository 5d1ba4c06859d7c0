//! The bounded walk that finds the directories to watch.
//!
//! The walker reads nothing itself. It names the directory to read next, the
//! caller reads it and hands back the listing, and the walker decides from
//! it what is found and what is to be read after it.

use crate::watch_set::{insert_path, lemma_sorted_unique, strictly_sorted};
use vstd::prelude::*;

verus! {

/// How many levels below a root the walk goes.
pub const WALK_DEPTH: u8 = 3;

/// One entry of a directory: its full path, whether it is a directory, and
/// whether it is a symbolic link.
#[derive(Debug, Clone, PartialEq, Eq)]
pub struct DirEntry {
    pub path: String,
    pub is_dir: bool,
    pub is_symlink: bool,
}

/// A directory entry, with its path as a sequence of characters.
pub struct DirEntryView {
    pub path: Seq<char>,
    pub is_dir: bool,
    pub is_symlink: bool,
}

impl View for DirEntry {
    type V = DirEntryView;

    open spec fn view(&self) -> DirEntryView {
        DirEntryView { path: self.path@, is_dir: self.is_dir, is_symlink: self.is_symlink }
    }
}

impl DeepView for DirEntry {
    type V = DirEntryView;

    open spec fn deep_view(&self) -> DirEntryView {
        self@
    }
}

/// What reading a directory gave: the path is no directory at all, it is one
/// that cannot be read, or its entries.
#[derive(Debug, Clone, PartialEq, Eq)]
pub enum Listing {
    Missing,
    Unreadable,
    Entries(Vec<DirEntry>),
}

/// A listing, with its entries as a sequence.
pub enum ListingView {
    Missing,
    Unreadable,
    Entries(Seq<DirEntryView>),
}

impl View for Listing {
    type V = ListingView;

    open spec fn view(&self) -> ListingView {
        match self {
            Listing::Missing => ListingView::Missing,
            Listing::Unreadable => ListingView::Unreadable,
            Listing::Entries(es) => ListingView::Entries(es.deep_view()),
        }
    }
}

/// An entry that the walk takes up: a directory that is no symbolic link.
pub open spec fn is_subdir(e: DirEntryView) -> bool {
    e.is_dir && !e.is_symlink
}

/// The paths of the entries that the walk takes up, in the order of the
/// entries.
pub open spec fn subdirs_of(entries: Seq<DirEntryView>) -> Seq<Seq<char>> {
    entries.filter(|e: DirEntryView| is_subdir(e)).map_values(|e: DirEntryView| e.path)
}

/// The subdirectories that a listing shows.
pub open spec fn subdirs(listing: ListingView) -> Seq<Seq<char>> {
    match listing {
        ListingView::Entries(es) => subdirs_of(es),
        _ => Seq::empty(),
    }
}

/// `q` lies below the directory `p`, at most `depth` levels down, in the tree
/// that answers each path with its listing.
pub open spec fn below(
    tree: spec_fn(Seq<char>) -> ListingView,
    p: Seq<char>,
    depth: nat,
    q: Seq<char>,
) -> bool
    decreases depth,
{
    depth > 0 && exists|i: int|
        0 <= i < subdirs(tree(p)).len() && (#[trigger] subdirs(tree(p))[i] == q || below(
            tree,
            subdirs(tree(p))[i],
            (depth - 1) as nat,
            q,
        ))
}

/// A chain of directories, each a subdirectory of the one before it.
pub open spec fn is_chain(tree: spec_fn(Seq<char>) -> ListingView, chain: Seq<Seq<char>>) -> bool {
    forall|i: int|
        0 <= i < chain.len() - 1 ==> subdirs(tree(#[trigger] chain[i])).contains(chain[i + 1])
}

/// `chain` leads from the directory `p` down to `q`, one level with each
/// step.
pub open spec fn leads(
    tree: spec_fn(Seq<char>) -> ListingView,
    p: Seq<char>,
    q: Seq<char>,
    chain: Seq<Seq<char>>,
) -> bool {
    chain.len() >= 2 && chain[0] == p && chain.last() == q && is_chain(tree, chain)
}

/// What lies below a directory is reached by a chain of no more steps than
/// the depth allows.
pub proof fn lemma_below_has_chain(
    tree: spec_fn(Seq<char>) -> ListingView,
    p: Seq<char>,
    depth: nat,
    q: Seq<char>,
) -> (chain: Seq<Seq<char>>)
    requires
        below(tree, p, depth, q),
    ensures
        leads(tree, p, q, chain),
        chain.len() - 1 <= depth,
    decreases depth,
{
    let subs = subdirs(tree(p));
    let i = choose|i: int|
        0 <= i < subs.len() && (#[trigger] subs[i] == q || below(
            tree,
            subs[i],
            (depth - 1) as nat,
            q,
        ));
    if subs[i] == q {
        seq![p, q]
    } else {
        let rest = lemma_below_has_chain(tree, subs[i], (depth - 1) as nat, q);
        let chain = seq![p] + rest;
        assert forall|k: int| 0 <= k < chain.len() - 1 implies subdirs(
            tree(#[trigger] chain[k]),
        ).contains(chain[k + 1]) by {
            if k > 0 {
                assert(chain[k] == rest[k - 1]);
                assert(chain[k + 1] == rest[k - 1 + 1]);
            }
        }
        chain
    }
}

/// What a chain of no more steps than the depth allows leads to lies below
/// the directory that the chain starts from.
pub proof fn lemma_chain_is_below(
    tree: spec_fn(Seq<char>) -> ListingView,
    chain: Seq<Seq<char>>,
    depth: nat,
)
    requires
        chain.len() >= 2,
        is_chain(tree, chain),
        chain.len() - 1 <= depth,
    ensures
        below(tree, chain[0], depth, chain.last()),
    decreases chain.len(),
{
    let subs = subdirs(tree(chain[0]));
    assert(subs.contains(chain[0int + 1]));
    let i = choose|i: int| 0 <= i < subs.len() && subs[i] == chain[1];
    if chain.len() > 2 {
        let rest = chain.skip(1);
        assert forall|k: int| 0 <= k < rest.len() - 1 implies subdirs(
            tree(#[trigger] rest[k]),
        ).contains(rest[k + 1]) by {
            assert(rest[k] == chain[k + 1]);
            assert(rest[k + 1] == chain[k + 1 + 1]);
        }
        lemma_chain_is_below(tree, rest, (depth - 1) as nat);
        assert(below(tree, subs[i], (depth - 1) as nat, chain.last()));
    } else {
        assert(subs[i] == chain.last());
    }
}

/// A directory that is still to be read.
struct Pending {
    path: String,
    depth: u8,
    root: bool,
}

/// A directory that is still to be read: its path, how many levels below it
/// the walk may still go, and whether it is a root.
pub struct PendingView {
    pub path: Seq<char>,
    pub depth: nat,
    pub root: bool,
}

impl View for Pending {
    type V = PendingView;

    closed spec fn view(&self) -> PendingView {
        PendingView { path: self.path@, depth: self.depth as nat, root: self.root }
    }
}

impl DeepView for Pending {
    type V = PendingView;

    closed spec fn deep_view(&self) -> PendingView {
        self@
    }
}

/// Whether reading the pending directory `item` and what lies below it, in
/// `tree`, brings the walk to `q`. A root that is no directory brings
/// nothing; a directory below a root was found when its parent was read, so
/// it brings only what lies below it.
pub open spec fn yields(
    tree: spec_fn(Seq<char>) -> ListingView,
    item: PendingView,
    q: Seq<char>,
) -> bool {
    if item.root {
        !(tree(item.path) is Missing) && (q == item.path || below(tree, item.path, item.depth, q))
    } else {
        below(tree, item.path, item.depth, q)
    }
}

/// The directories to watch: each root that is a directory, and every
/// directory that lies below one, at most `depth` levels down, reached
/// through directories that are no symbolic links.
pub open spec fn watched(
    tree: spec_fn(Seq<char>) -> ListingView,
    roots: Seq<Seq<char>>,
    depth: nat,
) -> Set<Seq<char>> {
    Set::new(
        |q: Seq<char>|
            exists|i: int|
                0 <= i < roots.len() && yields(
                    tree,
                    PendingView { path: #[trigger] roots[i], depth, root: true },
                    q,
                ),
    )
}

/// The roots that are no directories, in the order in which they were given.
pub open spec fn missing_roots(
    tree: spec_fn(Seq<char>) -> ListingView,
    roots: Seq<Seq<char>>,
) -> Seq<Seq<char>> {
    roots.filter(|r: Seq<char>| tree(r) is Missing)
}

/// The state of a walk.
///
/// `pending` lists every directory that the walk was or is to read, the
/// roots first; those from `next` on are still to be read. `found` is the
/// sorted list of the directories to watch that the walk has come to, and
/// `failed` the roots that turned out to be no directories.
pub struct WalkView {
    pub roots: Seq<Seq<char>>,
    pub depth: nat,
    pub pending: Seq<PendingView>,
    pub next: nat,
    pub found: Seq<Seq<char>>,
    pub failed: Seq<Seq<char>>,
}

/// The pending directory that stands for the root `path`.
pub open spec fn root_item(path: Seq<char>, depth: nat) -> PendingView {
    PendingView { path, depth, root: true }
}

/// The pending directory that stands for `path`, found one level below a
/// directory that had `depth` levels to go.
pub open spec fn child_item(path: Seq<char>, depth: nat) -> PendingView {
    PendingView { path, depth: (depth - 1) as nat, root: false }
}

impl WalkView {
    /// The walk before anything was read.
    pub open spec fn initial(roots: Seq<Seq<char>>, depth: nat) -> WalkView {
        WalkView {
            roots,
            depth,
            pending: roots.map_values(|r: Seq<char>| root_item(r, depth)),
            next: 0,
            found: Seq::empty(),
            failed: Seq::empty(),
        }
    }

    /// Nothing is left to read.
    pub open spec fn done(self) -> bool {
        self.next >= self.pending.len()
    }

    /// The pending list starts with the roots; what follows are directories
    /// that were found already and have levels to go; the found list is
    /// sorted.
    pub open spec fn wf(self) -> bool {
        &&& self.next <= self.pending.len()
        &&& self.roots.len() <= self.pending.len()
        &&& forall|i: int|
            0 <= i < self.roots.len() ==> #[trigger] self.pending[i] == root_item(
                self.roots[i],
                self.depth,
            )
        &&& forall|i: int|
            self.roots.len() <= i < self.pending.len() ==> {
                &&& !(#[trigger] self.pending[i]).root
                &&& self.pending[i].depth > 0
                &&& self.found.contains(self.pending[i].path)
            }
        &&& strictly_sorted(self.found)
    }

    /// Whether what is still to be read brings the walk to `q`.
    pub open spec fn owed(self, tree: spec_fn(Seq<char>) -> ListingView, q: Seq<char>) -> bool {
        exists|k: int|
            self.next <= k < self.pending.len() && yields(tree, #[trigger] self.pending[k], q)
    }

    /// The number of roots that were read.
    pub open spec fn roots_read(self) -> int {
        if self.next < self.roots.len() {
            self.next as int
        } else {
            self.roots.len() as int
        }
    }

    /// The walk agrees with `tree`: what it has found, together with what is
    /// still to come, is what is to be watched in `tree`, and the roots it
    /// has failed on are those among the roots read that are no directories.
    pub open spec fn covers(self, tree: spec_fn(Seq<char>) -> ListingView) -> bool {
        &&& forall|q: Seq<char>| #[trigger]
            watched(tree, self.roots, self.depth).contains(q) <==> self.found.contains(q)
                || self.owed(tree, q)
        &&& self.failed == missing_roots(tree, self.roots.take(self.roots_read()))
    }
}

/// The subdirectories that reading `item` adds, given its listing: none for
/// a root that is no directory, none where no level is left to go.
pub open spec fn taken(item: PendingView, listing: ListingView) -> Seq<Seq<char>> {
    if item.depth == 0 || (item.root && listing is Missing) {
        Seq::empty()
    } else {
        subdirs(listing)
    }
}

/// One step of the walk: the state `post` that follows `pre` when `listing`
/// is what reading the next pending directory gave.
///
/// A root that is no directory goes to the failed list. Any other root is
/// found. Unless no level is left, each subdirectory of the listing is
/// found, and is itself to be read if it has a level to go.
pub open spec fn stepped(pre: WalkView, listing: ListingView, post: WalkView) -> bool {
    let item = pre.pending[pre.next as int];
    let rejected = item.root && listing is Missing;
    let subs = taken(item, listing);
    &&& post.roots == pre.roots
    &&& post.depth == pre.depth
    &&& post.next == pre.next + 1
    &&& post.failed == if rejected {
        pre.failed.push(item.path)
    } else {
        pre.failed
    }
    &&& post.pending == pre.pending + if item.depth > 1 {
        subs.map_values(|p: Seq<char>| child_item(p, item.depth))
    } else {
        Seq::empty()
    }
    &&& strictly_sorted(post.found)
    &&& post.found.to_set() == pre.found.to_set() + (if item.root && !rejected {
        set![item.path]
    } else {
        Set::empty()
    }) + subs.to_set()
}

/// An entry more gives a subdirectory more exactly if the walk takes it up.
pub proof fn lemma_subdirs_push(entries: Seq<DirEntryView>, e: DirEntryView)
    ensures
        subdirs_of(entries.push(e)) == if is_subdir(e) {
            subdirs_of(entries).push(e.path)
        } else {
            subdirs_of(entries)
        },
{
    let f = |e: DirEntryView| is_subdir(e);
    let g = |e: DirEntryView| e.path;
    entries.lemma_filter_push(e, f);
    if is_subdir(e) {
        assert(entries.filter(f).push(e).map_values(g) =~= entries.filter(f).map_values(g).push(
            e.path,
        ));
    }
}

/// A step keeps the walk well formed when it keeps what was pending and
/// found, and adds to the pending list only directories that it has found
/// and that have a level to go.
proof fn lemma_wf_kept(pre: WalkView, post: WalkView)
    requires
        pre.wf(),
        !pre.done(),
        post.roots == pre.roots,
        post.depth == pre.depth,
        post.next == pre.next + 1,
        strictly_sorted(post.found),
        pre.found.to_set().subset_of(post.found.to_set()),
        post.pending.len() >= pre.pending.len(),
        forall|k: int| 0 <= k < pre.pending.len() ==> post.pending[k] == pre.pending[k],
        forall|k: int|
            pre.pending.len() <= k < post.pending.len() ==> {
                &&& !(#[trigger] post.pending[k]).root
                &&& post.pending[k].depth > 0
                &&& post.found.contains(post.pending[k].path)
            },
    ensures
        post.wf(),
{
    assert forall|k: int| post.roots.len() <= k < post.pending.len() implies {
        &&& !(#[trigger] post.pending[k]).root
        &&& post.pending[k].depth > 0
        &&& post.found.contains(post.pending[k].path)
    } by {
        if k < pre.pending.len() {
            assert(post.pending[k] == pre.pending[k]);
            assert(pre.found.to_set().contains(pre.pending[k].path));
            assert(post.found.to_set().contains(pre.pending[k].path));
        }
    }
    assert forall|k: int| 0 <= k < post.roots.len() implies #[trigger] post.pending[k]
        == root_item(post.roots[k], post.depth) by {
        assert(post.pending[k] == pre.pending[k]);
    }
}

/// Before anything is read, a walk agrees with every tree.
pub proof fn lemma_initial_covers(
    roots: Seq<Seq<char>>,
    depth: nat,
    tree: spec_fn(Seq<char>) -> ListingView,
)
    ensures
        WalkView::initial(roots, depth).wf(),
        WalkView::initial(roots, depth).covers(tree),
{
    let v = WalkView::initial(roots, depth);
    reveal(Seq::filter);
    assert(roots.take(0) =~= Seq::<Seq<char>>::empty());
    assert forall|q: Seq<char>| #[trigger]
        watched(tree, roots, depth).contains(q) <==> v.found.contains(q) || v.owed(tree, q) by {
        if watched(tree, roots, depth).contains(q) {
            let i = choose|i: int|
                0 <= i < roots.len() && yields(tree, root_item(#[trigger] roots[i], depth), q);
            assert(v.pending[i] == root_item(roots[i], depth));
        }
        if v.owed(tree, q) {
            let k = choose|k: int|
                0 <= k < v.pending.len() && yields(tree, #[trigger] v.pending[k], q);
            assert(v.pending[k] == root_item(roots[k], depth));
        }
    }
}

/// A step keeps the walk in agreement with a tree, if the listing that it
/// takes is the one that the tree gives for the directory that was read.
pub proof fn lemma_step_covers(
    pre: WalkView,
    listing: ListingView,
    post: WalkView,
    tree: spec_fn(Seq<char>) -> ListingView,
)
    requires
        pre.wf(),
        !pre.done(),
        pre.covers(tree),
        stepped(pre, listing, post),
        listing == tree(pre.pending[pre.next as int].path),
    ensures
        post.covers(tree),
{
    let item = pre.pending[pre.next as int];
    let rejected = item.root && listing is Missing;
    let subs = taken(item, listing);
    let fresh = if item.depth > 1 {
        subs.map_values(|p: Seq<char>| child_item(p, item.depth))
    } else {
        Seq::empty()
    };
    assert(post.pending == pre.pending + fresh);
    assert forall|q: Seq<char>|
        (pre.found.contains(q) || pre.owed(tree, q)) <==> (post.found.contains(q) || post.owed(
            tree,
            q,
        )) by {
        if pre.found.contains(q) {
            assert(pre.found.to_set().contains(q));
            assert(post.found.to_set().contains(q));
        }
        if pre.owed(tree, q) && !post.found.contains(q) {
            let k = choose|k: int|
                pre.next <= k < pre.pending.len() && yields(tree, #[trigger] pre.pending[k], q);
            if k == pre.next {
                if item.root && q == item.path {
                    assert(post.found.to_set().contains(q));
                }
                assert(below(tree, item.path, item.depth, q));
                let i = choose|i: int|
                    0 <= i < subdirs(listing).len() && (#[trigger] subdirs(listing)[i] == q
                        || below(tree, subdirs(listing)[i], (item.depth - 1) as nat, q));
                assert(subs == subdirs(listing));
                assert(subs.to_set().contains(subs[i]));
                assert(post.found.to_set().contains(subs[i]));
                assert(below(tree, subs[i], (item.depth - 1) as nat, q));
                assert(item.depth > 1);
                let m = pre.pending.len() + i;
                assert(post.pending[m] == child_item(subs[i], item.depth));
                assert(yields(tree, post.pending[m], q));
            } else {
                assert(post.pending[k] == pre.pending[k]);
            }
        }
        if post.found.contains(q) && !pre.found.contains(q) {
            assert(post.found.to_set().contains(q));
            assert(!pre.found.to_set().contains(q));
            if item.root && !rejected && q == item.path {
                assert(yields(tree, item, q));
            } else {
                assert(subs.to_set().contains(q));
                let i = choose|i: int| 0 <= i < subs.len() && subs[i] == q;
                assert(subs == subdirs(listing));
                assert(subdirs(tree(item.path))[i] == q);
                assert(below(tree, item.path, item.depth, q));
                assert(yields(tree, item, q));
            }
        }
        if post.owed(tree, q) {
            let k = choose|k: int|
                post.next <= k < post.pending.len() && yields(tree, #[trigger] post.pending[k], q);
            if k < pre.pending.len() {
                assert(post.pending[k] == pre.pending[k]);
            } else {
                let i = k - pre.pending.len();
                assert(post.pending[k] == child_item(subs[i], item.depth));
                assert(subs == subdirs(listing));
                assert(subdirs(tree(item.path))[i] == subs[i]);
                assert(below(tree, subs[i], (item.depth - 1) as nat, q));
                assert(below(tree, item.path, item.depth, q));
                assert(yields(tree, item, q));
            }
        }
    }
    assert forall|q: Seq<char>| #[trigger]
        watched(tree, post.roots, post.depth).contains(q) <==> post.found.contains(q)
            || post.owed(tree, q) by {
        assert(watched(tree, pre.roots, pre.depth).contains(q) <==> pre.found.contains(q)
            || pre.owed(tree, q));
    }
    let missing = |r: Seq<char>| tree(r) is Missing;
    if pre.next < pre.roots.len() {
        assert(item == root_item(pre.roots[pre.next as int], pre.depth));
        assert(pre.roots.take(pre.next as int + 1) =~= pre.roots.take(pre.next as int).push(
            item.path,
        ));
        pre.roots.take(pre.next as int).lemma_filter_push(item.path, missing);
    }
}

/// When nothing is left to read, a walk that agrees with a tree has found
/// the directories to watch in it, each once and in ascending order, and has
/// failed on the roots that are no directories.
pub proof fn lemma_walk_complete(v: WalkView, tree: spec_fn(Seq<char>) -> ListingView)
    requires
        v.wf(),
        v.done(),
        v.covers(tree),
    ensures
        strictly_sorted(v.found),
        v.found.to_set() == watched(tree, v.roots, v.depth),
        v.failed == missing_roots(tree, v.roots),
{
    assert forall|q: Seq<char>| v.found.to_set().contains(q) <==> watched(
        tree,
        v.roots,
        v.depth,
    ).contains(q) by {
        assert(!v.owed(tree, q));
    }
    assert(v.found.to_set() =~= watched(tree, v.roots, v.depth));
    assert(v.roots.take(v.roots.len() as int) =~= v.roots);
}

/// A step keeps the walk well formed.
pub proof fn lemma_step_wf(pre: WalkView, listing: ListingView, post: WalkView)
    requires
        pre.wf(),
        !pre.done(),
        stepped(pre, listing, post),
    ensures
        post.wf(),
{
    let item = pre.pending[pre.next as int];
    let subs = taken(item, listing);
    assert forall|k: int| pre.pending.len() <= k < post.pending.len() implies {
        &&& !(#[trigger] post.pending[k]).root
        &&& post.pending[k].depth > 0
        &&& post.found.contains(post.pending[k].path)
    } by {
        let j = k - pre.pending.len();
        assert(post.pending[k] == child_item(subs[j], item.depth));
        assert(subs.to_set().contains(subs[j]));
        assert(post.found.to_set().contains(subs[j]));
    }
    lemma_wf_kept(pre, post);
}

/// `states` are the states of a whole walk of `tree`: the first is the walk
/// from `roots` before anything was read, each next one follows by a step
/// that takes the listing that `tree` gives for the directory read, and in
/// the last nothing is left to read.
pub open spec fn is_walk(
    states: Seq<WalkView>,
    roots: Seq<Seq<char>>,
    depth: nat,
    tree: spec_fn(Seq<char>) -> ListingView,
) -> bool {
    &&& states.len() > 0
    &&& states[0] == WalkView::initial(roots, depth)
    &&& forall|i: int|
        0 <= i < states.len() - 1 ==> !(#[trigger] states[i]).done() && stepped(
            states[i],
            tree(states[i].pending[states[i].next as int].path),
            states[i + 1],
        )
    &&& states.last().done()
}

/// Every state of a walk of `tree` is well formed, agrees with `tree`, and
/// has the roots and the depth of the first.
proof fn lemma_walk_states(
    states: Seq<WalkView>,
    roots: Seq<Seq<char>>,
    depth: nat,
    tree: spec_fn(Seq<char>) -> ListingView,
    i: int,
)
    requires
        is_walk(states, roots, depth, tree),
        0 <= i < states.len(),
    ensures
        states[i].wf(),
        states[i].covers(tree),
        states[i].roots == roots,
        states[i].depth == depth,
    decreases i,
{
    if i == 0 {
        lemma_initial_covers(roots, depth, tree);
    } else {
        lemma_walk_states(states, roots, depth, tree, i - 1);
        let pre = states[i - 1];
        let listing = tree(pre.pending[pre.next as int].path);
        assert(!pre.done() && stepped(pre, listing, states[i - 1 + 1]));
        lemma_step_wf(pre, listing, states[i]);
        lemma_step_covers(pre, listing, states[i], tree);
    }
}

/// A whole walk of a tree ends with the directories to watch in it: the
/// roots that are directories, and every directory that lies below one
/// within the depth, not counting symbolic links; each once, in ascending
/// order. The roots that are no directories are reported as failed.
pub proof fn lemma_walk_finds_watched(
    states: Seq<WalkView>,
    roots: Seq<Seq<char>>,
    depth: nat,
    tree: spec_fn(Seq<char>) -> ListingView,
)
    requires
        is_walk(states, roots, depth, tree),
    ensures
        strictly_sorted(states.last().found),
        states.last().found.to_set() == watched(tree, roots, depth),
        states.last().failed == missing_roots(tree, roots),
{
    lemma_walk_states(states, roots, depth, tree, states.len() - 1);
    lemma_walk_complete(states.last(), tree);
}

/// A whole walk of a tree finds nothing deeper than the depth allows: each
/// directory found is a root, or a chain of at most `depth` steps leads to
/// it from a root.
pub proof fn lemma_walk_within_depth(
    states: Seq<WalkView>,
    roots: Seq<Seq<char>>,
    depth: nat,
    tree: spec_fn(Seq<char>) -> ListingView,
    q: Seq<char>,
) -> (r: (int, Seq<Seq<char>>))
    requires
        is_walk(states, roots, depth, tree),
        states.last().found.contains(q),
    ensures
        0 <= r.0 < roots.len(),
        q == roots[r.0] || (leads(tree, roots[r.0], q, r.1) && r.1.len() - 1 <= depth),
{
    lemma_walk_finds_watched(states, roots, depth, tree);
    assert(states.last().found.to_set().contains(q));
    assert(watched(tree, roots, depth).contains(q));
    let i = choose|i: int|
        0 <= i < roots.len() && yields(tree, root_item(#[trigger] roots[i], depth), q);
    if q == roots[i] {
        (i, Seq::empty())
    } else {
        (i, lemma_below_has_chain(tree, roots[i], depth, q))
    }
}

/// Two whole walks of the same tree from the same roots, to the same depth,
/// end with the same list of directories, path for path, and with the same
/// failed roots.
pub proof fn lemma_walk_repeatable(
    first: Seq<WalkView>,
    second: Seq<WalkView>,
    roots: Seq<Seq<char>>,
    depth: nat,
    tree: spec_fn(Seq<char>) -> ListingView,
)
    requires
        is_walk(first, roots, depth, tree),
        is_walk(second, roots, depth, tree),
    ensures
        first.last().found == second.last().found,
        first.last().failed == second.last().failed,
{
    lemma_walk_finds_watched(first, roots, depth, tree);
    lemma_walk_finds_watched(second, roots, depth, tree);
    lemma_sorted_unique(first.last().found, second.last().found);
}

/// The walk over directory trees, one directory at a time: it names the next
/// directory to read, takes the listing, and goes on from there until
/// nothing is left to read.
pub struct DirectoryWalker {
    roots: Vec<String>,
    depth: u8,
    pending: Vec<Pending>,
    next: usize,
    found: Vec<String>,
    failed: Vec<String>,
}

impl View for DirectoryWalker {
    type V = WalkView;

    closed spec fn view(&self) -> WalkView {
        WalkView {
            roots: self.roots.deep_view(),
            depth: self.depth as nat,
            pending: self.pending.deep_view(),
            next: self.next as nat,
            found: self.found.deep_view(),
            failed: self.failed.deep_view(),
        }
    }
}

impl DirectoryWalker {
    /// The walker is in a state that a walk can be in.
    pub open spec fn wf(&self) -> bool {
        self@.wf()
    }

    /// A walk from `roots` that goes `depth` levels below each of them.
    pub fn new(roots: Vec<String>, depth: u8) -> (r: Self)
        ensures
            r.wf(),
            r@ == WalkView::initial(roots.deep_view(), depth as nat),
    {
        let mut pending: Vec<Pending> = Vec::new();
        let mut i: usize = 0;
        while i < roots.len()
            invariant
                i <= roots.len(),
                pending.deep_view() == roots.deep_view().take(i as int).map_values(
                    |r: Seq<char>| root_item(r, depth as nat),
                ),
            decreases roots.len() - i,
        {
            let ghost before = pending.deep_view();
            pending.push(Pending { path: roots[i].clone(), depth, root: true });
            proof {
                assert(pending.deep_view() =~= before.push(root_item(roots[i as int]@, depth as nat)));
                assert(roots.deep_view().take(i + 1).map_values(
                    |r: Seq<char>| root_item(r, depth as nat),
                ) =~= before.push(root_item(roots[i as int]@, depth as nat)));
            }
            i += 1;
        }
        proof {
            assert(roots.deep_view().take(roots.len() as int) =~= roots.deep_view());
        }
        let walker = DirectoryWalker {
            roots,
            depth,
            pending,
            next: 0,
            found: Vec::new(),
            failed: Vec::new(),
        };
        proof {
            assert(walker.found.deep_view() =~= Seq::<Seq<char>>::empty());
            assert(walker.failed.deep_view() =~= Seq::<Seq<char>>::empty());
        }
        walker
    }

    /// Whether nothing is left to read.
    pub fn is_done(&self) -> (r: bool)
        ensures
            r == self@.done(),
    {
        self.next >= self.pending.len()
    }

    /// The directory to read next; `None` when the walk is done.
    pub fn next_directory(&self) -> (r: Option<&String>)
        ensures
            match r {
                Some(p) => !self@.done() && p@ == self@.pending[self@.next as int].path,
                None => self@.done(),
            },
    {
        if self.next < self.pending.len() {
            Some(&self.pending[self.next].path)
        } else {
            None
        }
    }

    /// The directories to watch that the walk has found, sorted, each once.
    pub fn found(&self) -> (r: &Vec<String>)
        ensures
            r.deep_view() == self@.found,
    {
        &self.found
    }

    /// The roots that turned out to be no directories, in the order in which
    /// they were given.
    pub fn failed_roots(&self) -> (r: &Vec<String>)
        ensures
            r.deep_view() == self@.failed,
    {
        &self.failed
    }

    /// The roots that the walk started from.
    pub fn roots(&self) -> (r: &Vec<String>)
        ensures
            r.deep_view() == self@.roots,
    {
        &self.roots
    }

    /// Gives up the walker for what it holds: the roots, the directories
    /// found, and the roots it failed on.
    pub fn into_parts(self) -> (r: (Vec<String>, Vec<String>, Vec<String>))
        ensures
            r.0.deep_view() == self@.roots,
            r.1.deep_view() == self@.found,
            r.2.deep_view() == self@.failed,
    {
        (self.roots, self.found, self.failed)
    }

    /// Takes the listing of the directory that [`Self::next_directory`]
    /// named and moves the walk one step on. A walk that is done stays as it
    /// is.
    pub fn record_listing(&mut self, listing: Listing)
        requires
            old(self).wf(),
        ensures
            final(self).wf(),
            old(self)@.done() ==> final(self)@ == old(self)@,
            !old(self)@.done() ==> stepped(old(self)@, listing@, final(self)@),
    {
        if self.next >= self.pending.len() {
            return ;
        }
        let ghost pre = self@;
        let ghost item = pre.pending[pre.next as int];
        let ghost shown = listing@;
        let path = self.pending[self.next].path.clone();
        let depth = self.pending[self.next].depth;
        let root = self.pending[self.next].root;
        self.next = self.next + 1;
        if root && matches!(listing, Listing::Missing) {
            let ghost before = self.failed.deep_view();
            self.failed.push(path);
            proof {
                assert(self.failed.deep_view() =~= before.push(item.path));
                assert(pre.found.to_set() + Set::<Seq<char>>::empty() + Seq::<
                    Seq<char>,
                >::empty().to_set() =~= pre.found.to_set());
                assert(self@.pending =~= pre.pending + Seq::<PendingView>::empty());
                lemma_step_wf(pre, shown, self@);
            }
            return ;
        }
        if root {
            insert_path(&mut self.found, path);
        }
        let ghost base = self.found.deep_view().to_set();
        proof {
            assert(base =~= pre.found.to_set() + (if item.root {
                set![item.path]
            } else {
                Set::empty()
            }));
            assert(base + Seq::<Seq<char>>::empty().to_set() =~= base);
            assert(self@.pending =~= pre.pending + Seq::<PendingView>::empty());
        }
        if depth > 0 {
            if let Listing::Entries(entries) = listing {
                let ghost es = entries.deep_view();
                let mut i: usize = 0;
                proof {
                    reveal(Seq::filter);
                    assert(subdirs_of(es.take(0)) =~= Seq::<Seq<char>>::empty());
                }
                while i < entries.len()
                    invariant
                        i <= entries.len(),
                        es == entries.deep_view(),
                        depth > 0,
                        depth == item.depth,
                        self.roots == old(self).roots,
                        self.depth == old(self).depth,
                        self.failed == old(self).failed,
                        self.next == pre.next + 1,
                        strictly_sorted(self.found.deep_view()),
                        self.found.deep_view().to_set() == base + subdirs_of(
                            es.take(i as int),
                        ).to_set(),
                        self.pending.deep_view() == pre.pending + if depth > 1 {
                            subdirs_of(es.take(i as int)).map_values(
                                |p: Seq<char>| child_item(p, item.depth),
                            )
                        } else {
                            Seq::empty()
                        },
                    decreases entries.len() - i,
                {
                    let ghost subs = subdirs_of(es.take(i as int));
                    proof {
                        assert(es.take(i + 1) =~= es.take(i as int).push(es[i as int]));
                        lemma_subdirs_push(es.take(i as int), es[i as int]);
                    }
                    if entries[i].is_dir && !entries[i].is_symlink {
                        let ghost p = entries[i as int]@.path;
                        if depth > 1 {
                            let ghost before = self.pending.deep_view();
                            self.pending.push(
                                Pending {
                                    path: entries[i].path.clone(),
                                    depth: depth - 1,
                                    root: false,
                                },
                            );
                            proof {
                                assert(self.pending.deep_view() =~= before.push(
                                    child_item(p, item.depth),
                                ));
                                assert(subs.push(p).map_values(
                                    |p: Seq<char>| child_item(p, item.depth),
                                ) =~= subs.map_values(
                                    |p: Seq<char>| child_item(p, item.depth),
                                ).push(child_item(p, item.depth)));
                            }
                        }
                        insert_path(&mut self.found, entries[i].path.clone());
                        proof {
                            subs.lemma_push_to_set_commute(p);
                            assert(self.found.deep_view().to_set() =~= base + subs.push(
                                p,
                            ).to_set());
                        }
                    }
                    i += 1;
                }
                proof {
                    assert(es.take(entries.len() as int) =~= es);
                }
            }
        }
        proof {
            lemma_step_wf(pre, shown, self@);
        }
    }
}

} // verus!
