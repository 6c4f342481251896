//! Exhaustive checks of the walks over real locks and flags, run under the loom
//! model checker.
//!
//! The tree here is built on loom's instrumented primitives and driven by the
//! library's walks, so the checker explores every schedule and every ordering
//! that the memory model allows. Each model asserts only on the final read,
//! after every writer has joined: a read that races a live writer may come back
//! stale, but a write that has returned may not be lost.
use std::mem;
use std::sync::Arc;

use loom::sync::atomic::AtomicBool;
use loom::sync::atomic::AtomicUsize;
use loom::sync::atomic::Ordering;
use loom::sync::Mutex;

use mergex::owes;
use mergex::retires;
use mergex::stays;
use mergex::Action;
use mergex::Climb;
use mergex::Marks;
use mergex::Reply;
use mergex::Walk;

struct Node {
    sons: Mutex<Vec<Arc<Node>>>,
    handles: AtomicUsize,
    dead: AtomicBool,
    data: Mutex<i64>,
    dirty: AtomicBool,
    subtree_dirty: Arc<AtomicBool>,
    ancestor_flags: Vec<Arc<AtomicBool>>,
}

/// A handle to a node of a tree of sums.
struct Shared {
    node: Arc<Node>,
}

impl Clone for Shared {
    fn clone(&self) -> Self {
        self.node.handles.fetch_add(1, Ordering::Relaxed);
        Shared { node: Arc::clone(&self.node) }
    }
}

impl Drop for Shared {
    fn drop(&mut self) {
        if retires(self.node.handles.fetch_sub(1, Ordering::AcqRel)) {
            self.node.dead.store(true, Ordering::Release);
        }
    }
}

impl Node {
    fn fresh(ancestor_flags: Vec<Arc<AtomicBool>>) -> Arc<Node> {
        Arc::new(Node {
            sons: Mutex::new(vec![]),
            handles: AtomicUsize::new(1),
            dead: AtomicBool::new(false),
            data: Mutex::new(0),
            dirty: AtomicBool::new(false),
            subtree_dirty: Arc::new(AtomicBool::new(false)),
            ancestor_flags,
        })
    }

    fn raise_dirty(&self) -> bool {
        let was_dirty = self.dirty.load(Ordering::Relaxed);
        self.dirty.store(true, Ordering::Release);
        was_dirty
    }

    fn climb(&self, was_dirty: bool) {
        let mut climb = Climb::after_write(was_dirty, self.ancestor_flags.len());
        while let Some(at) = climb.target() {
            climb = climb.resume(self.ancestor_flags[at].swap(true, Ordering::AcqRel));
        }
    }

    fn take(&self) -> i64 {
        let mut guard = self.data.lock().unwrap();
        self.dirty.store(false, Ordering::Release);
        mem::replace(&mut *guard, 0)
    }

    fn unlink(&self, sons: &[Arc<Node>], places: &[usize]) {
        let key = |son: &Arc<Node>| Arc::as_ptr(son) as usize;
        let marks = Marks::new(places.iter().map(|at| key(&sons[*at])).collect());
        self.sons.lock().unwrap().retain(|son| {
            stays(
                marks.contains(key(son)),
                son.handles.load(Ordering::Acquire),
                son.dirty.load(Ordering::Acquire),
            )
        });
    }

    fn merge_sons(this: &Arc<Node>) -> bool {
        let mut walk: Walk<Arc<Node>, i64> = Walk::new(Arc::clone(this));
        loop {
            let reply = match walk.action() {
                Action::Lower(node) => {
                    Reply::Flag(node.subtree_dirty.swap(false, Ordering::AcqRel))
                }
                Action::List(node) => Reply::Sons(node.sons.lock().unwrap().to_vec()),
                Action::LoadDirty(node) => Reply::Flag(node.dirty.load(Ordering::Acquire)),
                Action::Take(node) => Reply::Delta(node.take()),
                Action::Fold(node, delta) => {
                    *node.data.lock().unwrap() += *delta;
                    Reply::Ack
                }
                Action::LoadDead(node) => Reply::Flag(node.dead.load(Ordering::Acquire)),
                Action::LoadHandles(node) => Reply::Count(node.handles.load(Ordering::Acquire)),
                Action::IsEmpty(node) => Reply::Flag(node.sons.lock().unwrap().is_empty()),
                Action::Unlink(node, sons, places) => {
                    node.unlink(sons, places);
                    Reply::Ack
                }
                Action::Finish(changed) => return changed,
            };
            walk = walk.resume(reply);
        }
    }
}

impl Shared {
    fn copy(&self) -> Shared {
        let mut flags = vec![Arc::clone(&self.node.subtree_dirty)];
        flags.extend(self.node.ancestor_flags.iter().cloned());
        let son = Node::fresh(flags);
        self.node.sons.lock().unwrap().push(Arc::clone(&son));
        Shared { node: son }
    }

    fn set(&self, data: i64) {
        self.update(|slot| *slot = data);
    }

    fn update(&self, f: impl FnOnce(&mut i64)) {
        let mut guard = self.node.data.lock().unwrap();
        f(&mut guard);
        let was_dirty = self.node.raise_dirty();
        drop(guard);
        self.node.climb(was_dirty);
    }

    fn get(&self) -> i64 {
        let changed = Node::merge_sons(&self.node);
        let guard = self.node.data.lock().unwrap();
        let data = *guard;
        if owes(changed, self.node.ancestor_flags.len()) {
            let was_dirty = self.node.raise_dirty();
            drop(guard);
            self.node.climb(was_dirty);
        }
        data
    }
}

fn adder() -> Shared {
    Shared { node: Node::fresh(vec![]) }
}

fn model(f: impl Fn() + Sync + Send + 'static) {
    let mut builder = loom::model::Builder::new();
    builder.preemption_bound = None;
    builder.check(f);
}

/// root -> son. One writer, one merging reader.
#[test]
fn a_write_to_a_son_survives_a_concurrent_read() {
    model(|| {
        let root = adder();
        let son = root.copy();

        let reader = root.clone();
        let w = loom::thread::spawn(move || son.set(1));
        let r = loom::thread::spawn(move || {
            reader.get();
        });

        w.join().unwrap();
        r.join().unwrap();

        assert_eq!(root.get(), 1, "the write to the son was lost");
    });
}

/// root -> son -> grandson. One writer at the bottom, one merging reader at the
/// top: the writer's walk up and the reader's walk down can cross in the middle.
#[test]
fn a_write_to_a_grandson_survives_a_concurrent_read() {
    model(|| {
        let root = adder();
        let son = root.copy();
        let grandson = son.copy();

        let reader = root.clone();
        let w = loom::thread::spawn(move || grandson.set(1));
        let r = loom::thread::spawn(move || {
            reader.get();
        });

        w.join().unwrap();
        r.join().unwrap();

        assert_eq!(root.get(), 1, "the write to the grandson was lost");
    });
}

/// root -> son -> {g1, g2}. One thread writes both grandsons in sequence while a
/// reader merges. By the second write the flag of the son is up, so the walk up
/// stops early and never touches the root's flag.
#[test]
fn the_early_return_in_mark_ancestors_never_hides_a_write() {
    model(|| {
        let root = adder();
        let son = root.copy();
        let g1 = son.copy();
        let g2 = son.copy();

        let reader = root.clone();
        let w = loom::thread::spawn(move || {
            g1.set(1);
            g2.set(1); // sees the flag of the son already up, bails out early
        });
        let r = loom::thread::spawn(move || {
            reader.get();
        });

        w.join().unwrap();
        r.join().unwrap();

        assert_eq!(root.get(), 2, "the early return swallowed a write");
    });
}

/// Two writers on sibling sons, no reader.
#[test]
fn two_writers_racing_to_flag_the_same_father() {
    model(|| {
        let root = adder();
        let a = root.copy();
        let b = root.copy();

        let ta = loom::thread::spawn(move || a.set(1));
        let tb = loom::thread::spawn(move || b.set(1));
        ta.join().unwrap();
        tb.join().unwrap();

        assert_eq!(root.get(), 2, "one brother overran the other");
    });
}

/// A writer that accumulates in place, against a reader that folds mid-stream.
#[test]
fn an_interleaved_read_never_folds_the_same_delta_twice() {
    model(|| {
        let root = adder();
        let son = root.copy();

        let reader = root.clone();
        let w = loom::thread::spawn(move || {
            son.update(|x| *x += 1);
            son.update(|x| *x += 1);
        });
        let r = loom::thread::spawn(move || {
            reader.get();
        });

        w.join().unwrap();
        r.join().unwrap();

        assert_eq!(root.get(), 2, "a delta was counted twice");
    });
}

/// Two writes to the same grandson, where the second one skips the walk up
/// because the dirty bit was still raised, against a reader merging from the
/// root.
#[test]
fn a_second_write_that_skips_the_mark_is_still_found() {
    model(|| {
        let root = adder();
        let son = root.copy();
        let grandson = son.copy();

        let reader = root.clone();
        let w = loom::thread::spawn(move || {
            grandson.update(|x| *x += 1); // raises dirty, walks up
            grandson.update(|x| *x += 1); // dirty still up -> no walk
        });
        let r = loom::thread::spawn(move || {
            reader.get();
        });

        w.join().unwrap();
        r.join().unwrap();

        assert_eq!(root.get(), 2, "the second write skipped the mark and was lost");
    });
}

/// root -> son -> grandson. A reader in the middle collects what the grandson
/// owes while another reads the root: whoever gets it, the root ends up with it.
#[test]
fn a_read_in_the_middle_survives_a_concurrent_read_of_the_root() {
    model(|| {
        let root = adder();
        let son = root.copy();
        let grandson = son.copy();
        grandson.set(1);

        let reader = root.clone();
        let m = loom::thread::spawn(move || {
            son.get();
        });
        let r = loom::thread::spawn(move || {
            reader.get();
        });

        m.join().unwrap();
        r.join().unwrap();

        assert_eq!(root.get(), 1, "what the reader in the middle collected was lost");
    });
}
