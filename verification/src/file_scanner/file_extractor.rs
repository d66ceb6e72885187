//! The path-expansion pipeline: completion counting and the work-queue
//! expansion of a filesystem tree.
//!
//! The application walks the real filesystem concurrently; this module
//! holds the protocol it follows — one pending-count increment per
//! emitted work item, one decrement per finished item, the sentinel on
//! the unique transition to zero — and proves, on an in-memory model of
//! the tree, that the protocol emits every visible entry exactly once
//! and the sentinel exactly once, after all of them.

use vstd::prelude::*;

verus! {

/// The count of work items emitted but not yet fully expanded.  The
/// surrounding application mirrors it in one shared atomic integer; the
/// library states exactly how it moves and when completion is signalled.
pub struct PendingCounter {
    pub count: usize,
}

/// One more work item has been emitted.
pub fn increment_counter(counter: &mut PendingCounter)
    requires
        old(counter).count < usize::MAX,
    ensures
        final(counter).count == old(counter).count + 1,
{
    counter.count = counter.count + 1;
}

/// One work item is fully accounted for.  Returns true exactly when this
/// decrement observed the count at 1, that is, when it is the unique
/// transition to zero that signals global completion.
pub fn decrement_counter(counter: &mut PendingCounter) -> (last: bool)
    requires
        old(counter).count > 0,
    ensures
        final(counter).count == old(counter).count - 1,
        last == (old(counter).count == 1),
{
    let prev = counter.count;
    counter.count = counter.count - 1;
    prev == 1
}

/// An in-memory model of one filesystem entry, as the expansion
/// pipeline sees it: directories list their children, archives either
/// unpack into the contents of their output directory or fail, and
/// symbolic links resolve to their target.
pub enum FsTree {
    File,
    Dir { children: Vec<FsTree> },
    Archive { unpacked: Option<Vec<FsTree>> },
    Symlink { target: Box<FsTree> },
}

/// One value of the expansion's output stream.
#[derive(Debug, PartialEq, Eq, Structural)]
pub enum ScanEvent {
    PathFound,
    Sentinel,
}

/// A queued unit of expansion work.  `marked` flags an archive's output
/// directory, which is internal and not forwarded as a result.
pub struct WorkItem {
    pub tree: FsTree,
    pub marked: bool,
}

/// How many results expanding this entry contributes: directories,
/// files and archives are visible themselves, an archive's unpacked
/// contents are visible too, and a symbolic link contributes whatever
/// its target does.
pub open spec fn visible_count(t: FsTree) -> nat
    decreases t,
{
    match t {
        FsTree::File => 1,
        FsTree::Dir { children } => 1 + visible_count_seq(children@, 0),
        FsTree::Archive { unpacked } => match unpacked {
            Some(cs) => 1 + visible_count_seq(cs@, 0),
            None => 1,
        },
        FsTree::Symlink { target } => visible_count(*target),
    }
}

pub open spec fn visible_count_seq(s: Seq<FsTree>, i: int) -> nat
    decreases s, s.len() - i,
{
    if i < 0 || i >= s.len() {
        0
    } else {
        visible_count(s[i]) + visible_count_seq(s, i + 1)
    }
}

/// The size of the model tree, used only for termination.
pub open spec fn tree_size(t: FsTree) -> nat
    decreases t,
{
    match t {
        FsTree::File => 1,
        FsTree::Dir { children } => 1 + tree_size_seq(children@, 0),
        FsTree::Archive { unpacked } => match unpacked {
            Some(cs) => 2 + tree_size_seq(cs@, 0),
            None => 1,
        },
        FsTree::Symlink { target } => 1 + tree_size(*target),
    }
}

pub open spec fn tree_size_seq(s: Seq<FsTree>, i: int) -> nat
    decreases s, s.len() - i,
{
    if i < 0 || i >= s.len() {
        0
    } else {
        tree_size(s[i]) + tree_size_seq(s, i + 1)
    }
}

/// What a queued item still contributes to the result stream: a marked
/// directory is suppressed, so it contributes one less than its tree.
pub open spec fn item_visible(w: WorkItem) -> nat {
    if w.marked {
        (visible_count(w.tree) - 1) as nat
    } else {
        visible_count(w.tree)
    }
}

pub open spec fn queue_visible(q: Seq<WorkItem>) -> nat
    decreases q.len(),
{
    if q.len() == 0 {
        0
    } else {
        item_visible(q[0]) + queue_visible(q.drop_first())
    }
}

pub open spec fn queue_size(q: Seq<WorkItem>) -> nat
    decreases q.len(),
{
    if q.len() == 0 {
        0
    } else {
        tree_size(q[0].tree) + queue_size(q.drop_first())
    }
}

proof fn lemma_queue_push(q: Seq<WorkItem>, w: WorkItem)
    ensures
        queue_visible(q.push(w)) == queue_visible(q) + item_visible(w),
        queue_size(q.push(w)) == queue_size(q) + tree_size(w.tree),
    decreases q.len(),
{
    assert(q.push(w).len() == q.len() + 1);
    if q.len() == 0 {
        assert(q.push(w)[0] == w);
        assert(q.push(w).drop_first() =~= Seq::<WorkItem>::empty());
        assert(queue_visible(q.push(w).drop_first()) == 0);
        assert(queue_size(q.push(w).drop_first()) == 0);
    } else {
        assert(q.push(w)[0] == q[0]);
        assert(q.push(w).drop_first() =~= q.drop_first().push(w));
        lemma_queue_push(q.drop_first(), w);
        assert(queue_visible(q.push(w)) == item_visible(q[0]) + queue_visible(
            q.drop_first().push(w),
        ));
        assert(queue_size(q.push(w)) == tree_size(q[0].tree) + queue_size(
            q.drop_first().push(w),
        ));
    }
}

proof fn lemma_queue_pop(q: Seq<WorkItem>)
    requires
        q.len() > 0,
    ensures
        queue_visible(q) == queue_visible(q.drop_last()) + item_visible(q.last()),
        queue_size(q) == queue_size(q.drop_last()) + tree_size(q.last().tree),
    decreases q.len(),
{
    if q.len() == 1 {
        assert(q.drop_first() =~= Seq::<WorkItem>::empty());
        assert(q.drop_last() =~= Seq::<WorkItem>::empty());
        assert(q[0] == q.last());
    } else {
        lemma_queue_pop(q.drop_first());
        assert(q.drop_first().drop_last() =~= q.drop_last().drop_first());
        assert(q.drop_first().last() == q.last());
        assert(q.drop_last()[0] == q[0]);
    }
}

proof fn lemma_seq_sums_drop_last(s: Seq<FsTree>, i: int)
    requires
        0 <= i <= s.len() - 1,
    ensures
        visible_count_seq(s, i) == visible_count_seq(s.drop_last(), i) + visible_count(s.last()),
        tree_size_seq(s, i) == tree_size_seq(s.drop_last(), i) + tree_size(s.last()),
    decreases s.len() - i,
{
    assert(s.drop_last().len() == s.len() - 1);
    if i == s.len() - 1 {
        assert(s[i] == s.last());
        assert(visible_count_seq(s, i) == visible_count(s[i]) + visible_count_seq(s, i + 1));
        assert(visible_count_seq(s, i + 1) == 0);
        assert(tree_size_seq(s, i) == tree_size(s[i]) + tree_size_seq(s, i + 1));
        assert(tree_size_seq(s, i + 1) == 0);
        assert(visible_count_seq(s.drop_last(), i) == 0);
        assert(tree_size_seq(s.drop_last(), i) == 0);
    } else {
        lemma_seq_sums_drop_last(s, i + 1);
        assert(s.drop_last()[i] == s[i]);
        assert(visible_count_seq(s, i) == visible_count(s[i]) + visible_count_seq(s, i + 1));
        assert(visible_count_seq(s.drop_last(), i) == visible_count(s[i]) + visible_count_seq(
            s.drop_last(),
            i + 1,
        ));
        assert(tree_size_seq(s, i) == tree_size(s[i]) + tree_size_seq(s, i + 1));
        assert(tree_size_seq(s.drop_last(), i) == tree_size(s[i]) + tree_size_seq(
            s.drop_last(),
            i + 1,
        ));
    }
}

proof fn lemma_queue_len_le_size(q: Seq<WorkItem>)
    ensures
        q.len() <= queue_size(q),
    decreases q.len(),
{
    if q.len() > 0 {
        lemma_queue_len_le_size(q.drop_first());
        assert(tree_size(q[0].tree) >= 1);
    }
}

/// Runs the expansion protocol on an in-memory tree: every visible
/// entry yields exactly one result event, and the one sentinel follows
/// them all — never earlier, because the pending count reaches zero
/// only once nothing is queued and nothing is mid-expansion.
pub fn expand_tree(root: FsTree) -> (events: Vec<ScanEvent>)
    requires
        tree_size(root) < usize::MAX,
    ensures
        events@.len() == visible_count(root) + 1,
        forall|i: int| 0 <= i < events@.len() - 1 ==> events@[i] is PathFound,
        events@[events@.len() - 1] is Sentinel,
{
    let ghost total = visible_count(root);
    let ghost bound = tree_size(root);
    let mut queue: Vec<WorkItem> = Vec::new();
    let mut counter = PendingCounter { count: 0 };
    let mut events: Vec<ScanEvent> = Vec::new();
    proof {
        lemma_queue_push(queue@, WorkItem { tree: root, marked: false });
    }
    queue.push(WorkItem { tree: root, marked: false });
    increment_counter(&mut counter);
    while queue.len() > 0
        invariant
            counter.count == queue.len(),
            queue_size(queue@) <= bound,
            bound < usize::MAX,
            forall|i: int|
                0 <= i < queue@.len() ==> ((#[trigger] queue@[i]).marked
                    ==> queue@[i].tree is Dir),
            queue@.len() > 0 ==> {
                &&& events@.len() + queue_visible(queue@) == total
                &&& forall|i: int| 0 <= i < events@.len() ==> events@[i] is PathFound
            },
            queue@.len() == 0 ==> {
                &&& events@.len() == total + 1
                &&& forall|i: int| 0 <= i < total ==> events@[i] is PathFound
                &&& events@[total as int] is Sentinel
            },
        decreases queue_size(queue@),
    {
        let ghost q_entry = queue@;
        proof {
            lemma_queue_pop(queue@);
            lemma_queue_len_le_size(queue@);
        }
        let item = queue.pop().unwrap();
        proof {
            assert(item == q_entry.last());
            assert(queue@ =~= q_entry.drop_last());
            assert(events@.len() + queue_visible(queue@) + item_visible(item) == total);
        }
        match item.tree {
            FsTree::File => {
                proof {
                    assert(!item.marked);
                    assert(item_visible(item) == 1);
                }
                events.push(ScanEvent::PathFound);
                let last = decrement_counter(&mut counter);
                if last {
                    events.push(ScanEvent::Sentinel);
                }
            },
            FsTree::Dir { children } => {
                proof {
                    if item.marked {
                        assert(item_visible(item) == visible_count_seq(children@, 0));
                    } else {
                        assert(item_visible(item) == 1 + visible_count_seq(children@, 0));
                    }
                    assert(tree_size(item.tree) == 1 + tree_size_seq(children@, 0));
                }
                if !item.marked {
                    events.push(ScanEvent::PathFound);
                }
                let mut cs = children;
                let ghost inner_size = queue_size(queue@) + tree_size_seq(cs@, 0);
                proof {
                    assert(inner_size == queue_size(q_entry) - 1);
                }
                while cs.len() > 0
                    invariant
                        counter.count == queue.len() + 1,
                        queue_size(queue@) + tree_size_seq(cs@, 0) == inner_size,
                        inner_size <= bound - 1,
                        bound < usize::MAX,
                        forall|i: int|
                            0 <= i < queue@.len() ==> ((#[trigger] queue@[i]).marked
                                ==> queue@[i].tree is Dir),
                        events@.len() + queue_visible(queue@) + visible_count_seq(cs@, 0)
                            == total,
                        forall|i: int| 0 <= i < events@.len() ==> events@[i] is PathFound,
                    decreases cs.len(),
                {
                    proof {
                        lemma_seq_sums_drop_last(cs@, 0);
                        lemma_queue_len_le_size(queue@);
                    }
                    let c = cs.pop().unwrap();
                    proof {
                        lemma_queue_push(queue@, WorkItem { tree: c, marked: false });
                    }
                    queue.push(WorkItem { tree: c, marked: false });
                    increment_counter(&mut counter);
                }
                proof {
                    assert(visible_count_seq(cs@, 0) == 0);
                    assert(tree_size_seq(cs@, 0) == 0);
                    assert(queue_size(queue@) < queue_size(q_entry));
                }
                let last = decrement_counter(&mut counter);
                if last {
                    events.push(ScanEvent::Sentinel);
                }
            },
            FsTree::Archive { unpacked } => {
                proof {
                    assert(!item.marked);
                }
                events.push(ScanEvent::PathFound);
                match unpacked {
                    Some(cs) => {
                        proof {
                            assert(item_visible(item) == 1 + visible_count_seq(cs@, 0));
                            assert(tree_size(item.tree) == 2 + tree_size_seq(cs@, 0));
                        }
                        let w = WorkItem { tree: FsTree::Dir { children: cs }, marked: true };
                        proof {
                            assert(item_visible(w) == visible_count(w.tree) - 1);
                            lemma_queue_push(queue@, w);
                            lemma_queue_len_le_size(queue@);
                        }
                        queue.push(w);
                        increment_counter(&mut counter);
                    },
                    None => {
                        proof {
                            assert(item_visible(item) == 1);
                        }
                    },
                }
                let last = decrement_counter(&mut counter);
                if last {
                    events.push(ScanEvent::Sentinel);
                }
            },
            FsTree::Symlink { target } => {
                proof {
                    assert(!item.marked);
                    assert(item_visible(item) == visible_count(item.tree));
                }
                let w = WorkItem { tree: *target, marked: false };
                proof {
                    assert(item_visible(w) == visible_count(w.tree));
                    assert(visible_count(item.tree) == visible_count(w.tree));
                    assert(tree_size(item.tree) == 1 + tree_size(w.tree));
                    lemma_queue_push(queue@, w);
                    lemma_queue_len_le_size(queue@);
                }
                queue.push(w);
                increment_counter(&mut counter);
                let last = decrement_counter(&mut counter);
                if last {
                    events.push(ScanEvent::Sentinel);
                }
            },
        }
    }
    proof {
        assert(events@.len() == total + 1);
    }
    events
}


/// The suffix marking an archive's unpacked output directory.
pub open spec fn out_marker() -> Seq<char> {
    seq!['.', 'o', 'u', 't']
}

/// Whether the path names a pipeline-internal unpacked-archive output
/// directory, which is never forwarded as a visible result.
pub open spec fn spec_is_out_dir(s: Seq<char>) -> bool {
    s.len() >= 4 && s.subrange(s.len() - 4, s.len() as int) == out_marker()
}

/// Recognises the internal unpacked-archive marker suffix on a path.
pub fn is_unpacked_out_dir(path: &str) -> (r: bool)
    ensures
        r == spec_is_out_dir(path@),
{
    let n = path.unicode_len();
    if n < 4 {
        return false;
    }
    let r = path.get_char(n - 4) == '.' && path.get_char(n - 3) == 'o' && path.get_char(n - 2)
        == 'u' && path.get_char(n - 1) == 't';
    proof {
        if r {
            assert(path@.subrange(n - 4, n as int) =~= out_marker());
        } else {
            if path@.subrange(n - 4, n as int) == out_marker() {
                assert(path@.subrange(n - 4, n as int)[0] == path@[n - 4]);
                assert(path@.subrange(n - 4, n as int)[1] == path@[n - 3]);
                assert(path@.subrange(n - 4, n as int)[2] == path@[n - 2]);
                assert(path@.subrange(n - 4, n as int)[3] == path@[n - 1]);
                assert(false);
            }
        }
    }
    r
}

} // verus!
