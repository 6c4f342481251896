//! Every step of every worker keeps a crew sound.
use vstd::prelude::*;

use crate::interleave::CrewState;
use crate::interleave::TaskState;
use crate::state::NodeState;
use crate::state::TreeState;
use crate::sweep::lemma_filter_is_part;
use crate::walk::picked;
use crate::walk::Found;
use crate::walk::FrameState;
use crate::walk::Stage;
use crate::walk::WalkState;

verus! {

impl<T> TreeState<T> {
    /// What time cannot change: names and ancestors stay, and a node without
    /// handles gets none, stays dead, stays clean and stays without sons.
    pub open spec fn evolves(self, new: Self) -> bool {
        &&& self.nodes.len() <= new.nodes.len()
        &&& forall|x: usize|
            self.has(x) ==> (#[trigger] new.node(x)).ancestors == self.node(x).ancestors
        &&& forall|x: usize|
            self.has(x) && self.node(x).handles == 0 ==> {
                let was = self.node(x);
                let now = #[trigger] new.node(x);
                &&& now.handles == 0
                &&& was.dead ==> now.dead
                &&& !was.dirty ==> !now.dirty
                &&& was.sons.len() == 0 ==> now.sons.len() == 0
            }
    }

    /// What a worker knows stays true while others work.
    proof fn lemma_admits_kept(self, new: Self, task: TaskState<T>)
        requires
            self.shaped(),
            self.evolves(new),
            self.admits(task),
            forall|n: usize| task.engages(n) ==> #[trigger] new.held(n),
        ensures
            new.admits(task),
    {
        match task {
            TaskState::Read(walk) => {
                assert(task.engages(walk.origin));
                assert forall|k: int, j: int|
                    0 <= k < walk.frames.len() && 0 <= j < walk.frames[k].sons.len() implies {
                    let s = #[trigger] walk.frames[k].sons[j];
                    new.has(s) && 0 < s && new.father(s) == walk.place(k)
                } by {
                    let s = walk.frames[k].sons[j];
                    assert(new.node(s).ancestors == self.node(s).ancestors);
                }
                assert forall|k: int, i: int|
                    0 <= k < walk.frames.len() && 0 <= i < walk.frames[k].spent.len() implies new.spent(
                    walk.frames[k].sons[#[trigger] walk.frames[k].spent[i] as int],
                ) by {
                    let place = walk.frames[k].spent[i];
                    let s = walk.frames[k].sons[place as int];
                    assert(self.spent(s));
                    assert(self.has(s));
                    assert(new.node(s).handles == 0);
                }
                if walk.stage is Handles || walk.stage is Clean || walk.stage is Empty {
                    let top = walk.frames.len() - 1;
                    let s = walk.frames[top].sons[walk.frames[top].at as int];
                    assert(self.has(s));
                    assert(s == walk.top().current());
                    assert(self.node(s).dead);
                    assert(self.node(s).handles == 0);
                    assert(new.node(s).handles == 0);
                }
            },
            TaskState::Mark(node, climb) => {
                assert(task.engages(node));
                assert(new.node(node).ancestors == self.node(node).ancestors);
            },
            TaskState::Retire(n) => {
                assert(new.node(n).handles == 0);
            },
            TaskState::Idle => {},
        }
    }

    /// Where the fathers are the same, so is what a worker sees to.
    proof fn lemma_attends_kept(self, new: Self, task: TaskState<T>, c: usize)
        requires
            self.evolves(new),
            self.admits(task),
            self.has(c),
        ensures
            self.attends_flag(task, c) == new.attends_flag(task, c),
            self.attends_dirt(task, c) == new.attends_dirt(task, c),
            self.attends_data(task, c) == new.attends_data(task, c),
    {
        assert(new.node(c).ancestors == self.node(c).ancestors);
        match task {
            TaskState::Mark(node, climb) => {
                assert(new.node(node).ancestors == self.node(node).ancestors);
            },
            _ => {},
        }
    }
}

impl<T: Clone> CrewState<T> {
    /// Nothing that the flag of `c` rests on was lost in a step of worker `i`.
    spec fn flag_accounted(self, new: Self, i: int, c: usize) -> bool {
        let f = self.tree.father(c);
        ||| !new.tree.node(c).subtree_dirty
        ||| new.tree.node(f).subtree_dirty
        ||| new.tree.attends_flag(new.tasks[i], c)
        ||| {
            &&& self.tree.linked(c)
            &&& self.tree.node(c).subtree_dirty
            &&& !self.tree.node(f).subtree_dirty
            &&& !self.tree.attends_flag(self.tasks[i], c)
        }
    }

    /// Nothing that the dirty bit of `c` rests on was lost in a step of worker `i`.
    spec fn dirt_accounted(self, new: Self, i: int, c: usize) -> bool {
        let f = self.tree.father(c);
        ||| !new.tree.node(c).dirty
        ||| new.tree.node(f).subtree_dirty
        ||| new.tree.attends_dirt(new.tasks[i], c)
        ||| {
            &&& self.tree.linked(c)
            &&& self.tree.node(c).dirty
            &&& !self.tree.node(f).subtree_dirty
            &&& !self.tree.attends_dirt(self.tasks[i], c)
        }
    }

    /// Nothing that the data of `c` rests on was lost in a step of worker `i`.
    spec fn data_accounted(self, new: Self, i: int, c: usize) -> bool {
        ||| new.tree.node(c).dirty
        ||| cloned(self.tree.identity, new.tree.node(c).data)
        ||| new.tree.attends_data(new.tasks[i], c)
        ||| {
            &&& !self.tree.node(c).dirty
            &&& !cloned(self.tree.identity, self.tree.node(c).data)
            &&& !self.tree.attends_data(self.tasks[i], c)
        }
    }

    /// No node was left without handles and without anybody to declare it dead in a
    /// step of worker `i`.
    spec fn tomb_accounted(self, new: Self, i: int, c: usize) -> bool {
        ||| new.tree.node(c).handles > 0
        ||| new.tree.node(c).dead
        ||| new.tasks[i] == TaskState::<T>::Retire(c)
        ||| {
            &&& self.tree.has(c)
            &&& self.tree.node(c).handles == 0
            &&& !self.tree.node(c).dead
            &&& self.tasks[i] != TaskState::<T>::Retire(c)
        }
    }

    /// A step of one worker that loses nothing keeps the crew sound.
    proof fn lemma_step_sound(self, new: Self, i: int)
        requires
            self.sound(),
            self.employs(i),
            new.tasks == self.tasks.update(i, new.tasks[i]),
            new.tree.identity == self.tree.identity,
            new.tree.shaped(),
            self.tree.evolves(new.tree),
            new.tree.admits(new.tasks[i]),
            forall|j: int, n: usize|
                self.employs(j) && j != i && (#[trigger] self.tasks[j]).engages(n)
                    ==> #[trigger] new.tree.held(n),
            forall|c: usize|
                0 < c && self.tree.has(c) && new.tree.linked(c) ==> #[trigger] self.flag_accounted(
                    new,
                    i,
                    c,
                ),
            forall|c: usize|
                0 < c && self.tree.has(c) && new.tree.linked(c) ==> #[trigger] self.dirt_accounted(
                    new,
                    i,
                    c,
                ),
            forall|c: usize|
                0 < c && self.tree.has(c) ==> #[trigger] self.data_accounted(new, i, c),
            forall|c: usize|
                new.tree.has(c) && !self.tree.has(c) ==> {
                    let node = #[trigger] new.tree.node(c);
                    !node.dirty && !node.subtree_dirty && cloned(self.tree.identity, node.data)
                },
            forall|c: usize| new.tree.has(c) ==> #[trigger] self.tomb_accounted(new, i, c),
        ensures
            new.sound(),
    {
        assert forall|c: usize| new.tree.has(c) implies #[trigger] new.tomb_seen_to(c) by {
            assert(self.tomb_accounted(new, i, c));
            if new.tasks[i] == TaskState::<T>::Retire(c) {
                assert(new.employs(i));
            } else if new.tree.node(c).handles == 0 && !new.tree.node(c).dead {
                assert(self.tomb_seen_to(c));
                let j = choose|j: int|
                    self.employs(j) && #[trigger] self.tasks[j] == TaskState::<T>::Retire(c);
                assert(new.employs(j) && new.tasks[j] == self.tasks[j]);
            }
        }
        assert forall|j: int| new.employs(j) implies #[trigger] new.tree.admits(new.tasks[j]) by {
            if j != i {
                assert(new.tasks[j] == self.tasks[j]);
                assert(self.tree.admits(self.tasks[j]));
                self.tree.lemma_admits_kept(new.tree, self.tasks[j]);
            }
        }
        assert forall|c: usize|
            0 < c && new.tree.has(c) && new.tree.linked(c) implies #[trigger] new.flag_seen_to(c) by {
            if self.tree.has(c) {
                assert(self.flag_accounted(new, i, c));
                assert(new.tree.node(c).ancestors == self.tree.node(c).ancestors);
                if new.tree.attends_flag(new.tasks[i], c) {
                    assert(new.employs(i));
                } else if new.tree.node(c).subtree_dirty && !new.tree.node(
                    new.tree.father(c),
                ).subtree_dirty {
                    assert(self.flag_seen_to(c));
                    let j = choose|j: int|
                        self.employs(j) && #[trigger] self.tree.attends_flag(self.tasks[j], c);
                    assert(self.tree.admits(self.tasks[j]));
                    self.tree.lemma_attends_kept(new.tree, self.tasks[j], c);
                    assert(new.tasks[j] == self.tasks[j]);
                    assert(new.employs(j) && new.tree.attends_flag(new.tasks[j], c));
                }
            } else {
                assert(!new.tree.node(c).subtree_dirty);
            }
        }
        assert forall|c: usize|
            0 < c && new.tree.has(c) && new.tree.linked(c) implies #[trigger] new.dirt_seen_to(c) by {
            if self.tree.has(c) {
                assert(self.dirt_accounted(new, i, c));
                assert(new.tree.node(c).ancestors == self.tree.node(c).ancestors);
                if new.tree.attends_dirt(new.tasks[i], c) {
                    assert(new.employs(i));
                } else if new.tree.node(c).dirty && !new.tree.node(
                    new.tree.father(c),
                ).subtree_dirty {
                    assert(self.dirt_seen_to(c));
                    let j = choose|j: int|
                        self.employs(j) && #[trigger] self.tree.attends_dirt(self.tasks[j], c);
                    assert(self.tree.admits(self.tasks[j]));
                    self.tree.lemma_attends_kept(new.tree, self.tasks[j], c);
                    assert(new.tasks[j] == self.tasks[j]);
                    assert(new.employs(j) && new.tree.attends_dirt(new.tasks[j], c));
                }
            } else {
                assert(!new.tree.node(c).dirty);
            }
        }
        assert forall|c: usize| 0 < c && new.tree.has(c) implies #[trigger] new.data_seen_to(c) by {
            if self.tree.has(c) {
                assert(self.data_accounted(new, i, c));
                if new.tree.attends_data(new.tasks[i], c) {
                    assert(new.employs(i));
                } else if !new.tree.node(c).dirty && !cloned(
                    new.tree.identity,
                    new.tree.node(c).data,
                ) {
                    assert(self.data_seen_to(c));
                    let j = choose|j: int|
                        self.employs(j) && #[trigger] self.tree.attends_data(self.tasks[j], c);
                    assert(self.tree.admits(self.tasks[j]));
                    self.tree.lemma_attends_kept(new.tree, self.tasks[j], c);
                    assert(new.tasks[j] == self.tasks[j]);
                    assert(new.employs(j) && new.tree.attends_data(new.tasks[j], c));
                }
            } else {
                assert(!new.tree.node(c).dirty);
            }
        }
    }
}

// ---------------------------------------------------------------------------
// A read, on its way down
// ---------------------------------------------------------------------------

impl<T> TreeState<T> {
    /// The node that a frame is inside of is a node.
    pub proof fn lemma_place(self, walk: WalkState<usize, T>, k: int)
        requires
            self.vouches(walk),
            self.has(walk.origin),
            0 <= k <= walk.frames.len(),
            0 < k ==> walk.frames[k - 1].busy(),
        ensures
            self.has(walk.place(k)),
    {
        if 0 < k {
            let frame = walk.frames[k - 1];
            assert(self.has(walk.frames[k - 1].sons[frame.at as int]));
        }
    }

    /// What `found` says holds of this tree.
    pub open spec fn confirms(self, walk: WalkState<usize, T>, found: Found<usize, T>) -> bool {
        let cur = walk.top().current();
        match walk.stage {
            Stage::List => found->Sons_0 == self.node(walk.place(walk.frames.len() - 1)).sons,
            Stage::Dead => found->Flag_0 ==> self.node(cur).dead,
            Stage::Handles => found->Count_0 == 0 ==> self.node(cur).handles == 0,
            Stage::Clean => !found->Flag_0 ==> !self.node(cur).dirty,
            Stage::Empty => found->Flag_0 ==> self.node(cur).sons.len() == 0,
            _ => true,
        }
    }

    /// A step to the next son, or out of a node, takes along what was known.
    proof fn lemma_seeking_vouched(self, walk: WalkState<usize, T>, top: FrameState<usize>)
        requires
            self.vouches(walk),
            walk.frames.len() > 0,
            top.sons.len() <= usize::MAX,
            walk.seeking(top).fits(),
            forall|j: int|
                0 <= j < top.sons.len() ==> {
                    let s = #[trigger] top.sons[j];
                    self.has(s) && 0 < s && self.father(s) == walk.place(walk.frames.len() - 1)
                },
            forall|i: int|
                0 <= i < top.spent.len() ==> self.spent(
                    top.sons[#[trigger] top.spent[i] as int],
                ),
        ensures
            self.vouches(walk.seeking(top)),
    {
        let new = walk.seeking(top);
        let last = walk.frames.len() - 1;
        assert(walk.frames.drop_last().push(top).drop_last() =~= walk.frames.drop_last());
        assert forall|k: int| 0 <= k < new.frames.len() implies (#[trigger] new.frames[k]).sons.len()
            <= usize::MAX by {
            if k < last {
                assert(new.frames[k] == walk.frames[k]);
            }
        }
        assert forall|k: int, j: int|
            0 <= k < new.frames.len() && 0 <= j < new.frames[k].sons.len() implies {
            let s = #[trigger] new.frames[k].sons[j];
            self.has(s) && 0 < s && self.father(s) == new.place(k)
        } by {
            if k > 0 {
                assert(new.frames[k - 1] == walk.frames[k - 1]);
            }
            assert(new.place(k) == walk.place(k));
            if k < last {
                assert(new.frames[k] == walk.frames[k]);
                assert(self.has(walk.frames[k].sons[j]));
            } else {
                assert(new.frames[k] == top);
                assert(self.has(top.sons[j]));
            }
        }
        assert forall|k: int, i: int|
            0 <= k < new.frames.len() && 0 <= i < new.frames[k].spent.len() implies self.spent(
            new.frames[k].sons[#[trigger] new.frames[k].spent[i] as int],
        ) by {
            if k < last {
                assert(new.frames[k] == walk.frames[k]);
                assert(self.spent(walk.frames[k].sons[walk.frames[k].spent[i] as int]));
            } else {
                assert(new.frames[k] == top);
                assert(self.spent(top.sons[top.spent[i] as int]));
            }
        }
    }

    /// A step takes along what was known, and what was found.
    proof fn lemma_next_vouched(self, walk: WalkState<usize, T>, found: Found<usize, T>)
        requires
            self.shaped(),
            self.vouches(walk),
            self.has(walk.origin),
            walk.awaits(found),
            !(walk.stage is Done),
            self.confirms(walk, found),
        ensures
            self.vouches(walk.next(found)),
    {
        walk.lemma_next_fits(found);
        let new = walk.next(found);
        let last = walk.frames.len() - 1;
        if walk.moves_on(found) {
            let top = walk.next_top(found);
            assert(new == walk.seeking(top));
            assert(walk.frames[last] == walk.top());
            if walk.stage is List {
                let p = walk.place(last);
                self.lemma_place(walk, last);
                assert(self.lists_its_own(p));
                self.lemma_few_sons(p);
            } else {
                assert forall|j: int| 0 <= j < top.sons.len() implies {
                    let s = #[trigger] top.sons[j];
                    self.has(s) && 0 < s && self.father(s) == walk.place(last)
                } by {
                    assert(self.has(walk.frames[last].sons[j]));
                }
                assert forall|i: int| 0 <= i < top.spent.len() implies self.spent(
                    top.sons[#[trigger] top.spent[i] as int],
                ) by {
                    if i < walk.top().spent.len() {
                        assert(self.spent(
                            walk.frames[last].sons[walk.frames[last].spent[i] as int],
                        ));
                    } else {
                        assert(top.spent[i] == walk.top().at);
                        assert(self.spent(walk.top().current()));
                    }
                }
            }
            self.lemma_seeking_vouched(walk, top);
        } else if walk.stage is Unlink {
            assert(new == walk.left());
            assert forall|k: int, j: int|
                0 <= k < new.frames.len() && 0 <= j < new.frames[k].sons.len() implies {
                let s = #[trigger] new.frames[k].sons[j];
                self.has(s) && 0 < s && self.father(s) == new.place(k)
            } by {
                if k > 0 {
                    assert(new.frames[k - 1] == walk.frames[k - 1]);
                }
                assert(self.has(walk.frames[k].sons[j]));
            }
            assert forall|k: int, i: int|
                0 <= k < new.frames.len() && 0 <= i < new.frames[k].spent.len() implies self.spent(
                new.frames[k].sons[#[trigger] new.frames[k].spent[i] as int],
            ) by {
                assert(self.spent(walk.frames[k].sons[walk.frames[k].spent[i] as int]));
            }
            assert forall|k: int| 0 <= k < new.frames.len() implies (
            #[trigger] new.frames[k]).sons.len() <= usize::MAX by {
                assert(new.frames[k] == walk.frames[k]);
            }
        } else {
            assert forall|k: int, j: int|
                0 <= k < new.frames.len() && 0 <= j < new.frames[k].sons.len() implies {
                let s = #[trigger] new.frames[k].sons[j];
                self.has(s) && 0 < s && self.father(s) == new.place(k)
            } by {
                if k > 0 {
                    assert(new.frames[k - 1].sons == walk.frames[k - 1].sons);
                    assert(new.frames[k - 1].at == walk.frames[k - 1].at);
                }
                assert(self.has(walk.frames[k].sons[j]));
            }
            assert forall|k: int, i: int|
                0 <= k < new.frames.len() && 0 <= i < new.frames[k].spent.len() implies self.spent(
                new.frames[k].sons[#[trigger] new.frames[k].spent[i] as int],
            ) by {
                assert(self.spent(walk.frames[k].sons[walk.frames[k].spent[i] as int]));
            }
            assert forall|k: int| 0 <= k < new.frames.len() implies (
            #[trigger] new.frames[k]).sons.len() <= usize::MAX by {
                if k < walk.frames.len() {
                    assert(new.frames[k].sons == walk.frames[k].sons);
                }
            }
        }
    }
}

impl<T> TreeState<T> {
    /// Unlinking what a walk found spent thins the list and nothing else.
    proof fn lemma_reaped(self, walk: WalkState<usize, T>)
        requires
            self.shaped(),
            self.has(walk.origin),
            self.vouches(walk),
            walk.stage is Unlink,
        ensures
            ({
                let p = walk.place(walk.frames.len() - 1);
                let new = self.reaped(p, picked(walk.top().sons, walk.top().spent));
                &&& self.has(p)
                &&& new.shaped()
                &&& self.evolves(new)
                &&& forall|x: usize|
                    self.has(x) && new.linked(x) ==> #[trigger] self.linked(x)
            }),
    {
        let last = walk.frames.len() - 1;
        let p = walk.place(last);
        let marked = picked(walk.top().sons, walk.top().spent);
        let new = self.reaped(p, marked);
        let keep = |s: usize|
            !(marked.contains(s) && self.node(s).handles == 0 && !self.node(s).dirty);
        let was = self.node(p).sons;
        self.lemma_place(walk, last);
        assert forall|x: usize| self.has(x) && x != p implies #[trigger] new.node(x) == self.node(
            x,
        ) by {}
        assert(self.lists_its_own(p));
        lemma_filter_is_part(was, keep);
        was.lemma_filter_len(keep);
        assert forall|x: usize| self.has(x) && #[trigger] self.spent(x) implies new.spent(x) by {
            if x == p {
                assert(new.node(p).sons.len() <= was.len());
            }
        }
        assert forall|x: usize| self.has(x) implies #[trigger] self.thinned(new, x) by {
            assert(self.lists_its_own(x));
            if x == p {
                assert forall|i: int| 0 <= i < was.len() implies new.node(p).sons.contains(
                    #[trigger] was[i],
                ) || new.spent(was[i]) by {
                    if keep(was[i]) {
                        was.lemma_filter_contains(keep, i);
                    } else {
                        let j = marked.index_of(was[i]);
                        assert(marked[j] == was[i]);
                        let place = walk.frames[last].spent[j];
                        assert(self.spent(walk.frames[last].sons[place as int]));
                        assert(self.has(was[i]));
                    }
                }
            }
        }
        assert(self.same_frame(new));
        self.lemma_thinning_keeps_shape(new);
        assert forall|x: usize| self.has(x) && new.linked(x) implies #[trigger] self.linked(x) by {
            if 0 < x && !self.linked(x) {
                assert(self.descends(x));
                let f = self.father(x);
                assert(self.thinned(new, f));
                let i = new.node(f).sons.index_of(x);
                assert(self.node(f).sons.contains(new.node(f).sons[i]));
            }
        }
        assert(self.evolves(new)) by {
            assert(new.node(p).sons.len() <= was.len());
        }
    }

    /// Changing what a node holds keeps the shape of the tree.
    proof fn lemma_cell_changed(self, n: usize, node: NodeState<T>)
        requires
            self.shaped(),
            self.has(n),
            node.sons == self.node(n).sons,
            node.ancestors == self.node(n).ancestors,
            node.handles == self.node(n).handles,
            node.dead == self.node(n).dead,
            self.node(n).handles == 0 && !self.node(n).dirty ==> !node.dirty,
        ensures
            self.with(n, node).shaped(),
            self.evolves(self.with(n, node)),
            forall|x: usize|
                self.has(x) && self.with(n, node).linked(x) ==> #[trigger] self.linked(x),
    {
        let new = self.with(n, node);
        assert forall|x: usize| self.has(x) && x != n implies #[trigger] new.node(x) == self.node(
            x,
        ) by {}
        assert(new.node(n) == node);
        assert(self.same_frame(new));
        self.lemma_shape_kept(new);
        assert forall|x: usize| self.has(x) && new.linked(x) implies #[trigger] self.linked(x) by {
            if 0 < x {
                assert(self.descends(x));
            }
        }
    }

    /// One touch of a walk: the shape is kept, time moves on, what is found is
    /// true, and nothing is linked.
    pub proof fn lemma_touched(self, g: spec_fn(T, T) -> T, fresh: T, walk: WalkState<usize, T>)
        requires
            self.shaped(),
            self.held(walk.origin),
            self.vouches(walk),
            !(walk.stage is Done),
        ensures
            ({
                let (new, found) = self.touched(g, fresh, walk.deed());
                &&& new.shaped()
                &&& self.evolves(new)
                &&& new.identity == self.identity
                &&& new.nodes.len() == self.nodes.len()
                &&& forall|x: usize|
                    self.has(x) ==> (#[trigger] new.node(x)).handles == self.node(x).handles
                &&& forall|x: usize|
                    self.has(x) && new.linked(x) ==> #[trigger] self.linked(x)
                &&& walk.awaits(found)
                &&& new.confirms(walk, found)
            }),
    {
        let last = walk.frames.len() - 1;
        let (new, found) = self.touched(g, fresh, walk.deed());
        if walk.stage is Enter {
            self.lemma_place(walk, walk.frames.len() as int);
            let n = walk.place(walk.frames.len() as int);
            self.lemma_cell_changed(n, (NodeState { subtree_dirty: false, ..self.node(n) }));
        } else if walk.stage is Take {
            let n = walk.top().current();
            self.lemma_place(walk, walk.frames.len() as int);
            self.lemma_cell_changed(
                n,
                (NodeState { data: fresh, dirty: false, ..self.node(n) }),
            );
        } else if walk.stage is Fold {
            let n = walk.place(last);
            self.lemma_place(walk, last);
            self.lemma_cell_changed(
                n,
                (NodeState { data: g(self.node(n).data, walk.stage->Fold_0), ..self.node(n) }),
            );
        } else if walk.stage is Unlink {
            self.lemma_reaped(walk);
        }
    }
}

impl<T: Clone> CrewState<T> {
    /// A step of a read keeps the crew sound.
    proof fn lemma_read_step(self, g: spec_fn(T, T) -> T, fresh: T, i: int)
        requires
            self.sound(),
            self.employs(i),
            self.tasks[i] is Read,
            !(self.tasks[i]->Read_0.stage is Done),
            cloned(self.tree.identity, fresh),
        ensures
            self.stepped(g, fresh, i).sound(),
    {
        let tree = self.tree;
        let new = self.stepped(g, fresh, i);
        let walk = self.tasks[i]->Read_0;
        assert(tree.admits(self.tasks[i]));
        let (after, found) = tree.touched(g, fresh, walk.deed());
        assert(new == self.assigned(after, i, TaskState::Read(walk.next(found))));
        tree.lemma_touched(g, fresh, walk);
        assert(after.node(walk.origin).handles == tree.node(walk.origin).handles);
        tree.lemma_admits_kept(after, self.tasks[i]);
        after.lemma_next_vouched(walk, found);
        let next = walk.next(found);
        assert(next.origin == walk.origin);
        assert forall|j: int, n: usize|
            self.employs(j) && j != i && (#[trigger] self.tasks[j]).engages(
                n,
            ) implies #[trigger] after.held(n) by {
            assert(tree.admits(self.tasks[j]));
            assert(tree.held(n));
            assert(after.node(n).handles == tree.node(n).handles);
        }
        assert forall|c: usize|
            0 < c && tree.has(c) && after.linked(c) implies #[trigger] self.flag_accounted(
            new,
            i,
            c,
        ) by {
            self.lemma_read_flag(g, fresh, i, c);
        }
        assert forall|c: usize|
            0 < c && tree.has(c) && after.linked(c) implies #[trigger] self.dirt_accounted(
            new,
            i,
            c,
        ) by {
            self.lemma_read_dirt(g, fresh, i, c);
        }
        assert forall|c: usize| 0 < c && tree.has(c) implies #[trigger] self.data_accounted(
            new,
            i,
            c,
        ) by {
            self.lemma_read_data(g, fresh, i, c);
        }
        self.lemma_step_sound(new, i);
    }

    proof fn lemma_read_flag(self, g: spec_fn(T, T) -> T, fresh: T, i: int, c: usize)
        requires
            self.sound(),
            self.employs(i),
            self.tasks[i] is Read,
            !(self.tasks[i]->Read_0.stage is Done),
            0 < c,
            self.tree.has(c),
            self.stepped(g, fresh, i).tree.linked(c),
        ensures
            self.flag_accounted(self.stepped(g, fresh, i), i, c),
    {
        let tree = self.tree;
        let new = self.stepped(g, fresh, i);
        let walk = self.tasks[i]->Read_0;
        assert(tree.admits(self.tasks[i]));
        let (after, found) = tree.touched(g, fresh, walk.deed());
        tree.lemma_touched(g, fresh, walk);
        assert(tree.linked(c));
        assert(tree.descends(c));
        let f = tree.father(c);
        assert(after.node(c).ancestors == tree.node(c).ancestors);
        assert(new.tasks[i] == TaskState::Read(walk.next(found)));
        let n = walk.place(walk.frames.len() as int);
        if walk.stage is Enter {
            tree.lemma_place(walk, walk.frames.len() as int);
        }
        if walk.stage is Fold || walk.stage is Unlink {
            tree.lemma_place(walk, walk.frames.len() - 1);
        }
        if walk.stage is Take {
            tree.lemma_place(walk, walk.frames.len() as int);
        }
        if after.node(c).subtree_dirty {
            assert(tree.node(c).subtree_dirty);
            assert(walk.stage is Enter ==> c != n);
            if tree.node(f).subtree_dirty && !after.node(f).subtree_dirty {
                assert(walk.stage is Enter && f == n);
                walk.lemma_entered(found, c);
            } else if walk.will_enter(f, c) {
                if walk.stage is List && walk.place(walk.frames.len() - 1) == f {
                    assert(tree.node(f).sons.contains(c));
                }
                walk.lemma_next_enters(found, f, c);
            }
        }
    }

    proof fn lemma_read_dirt(self, g: spec_fn(T, T) -> T, fresh: T, i: int, c: usize)
        requires
            self.sound(),
            self.employs(i),
            self.tasks[i] is Read,
            !(self.tasks[i]->Read_0.stage is Done),
            0 < c,
            self.tree.has(c),
            self.stepped(g, fresh, i).tree.linked(c),
        ensures
            self.dirt_accounted(self.stepped(g, fresh, i), i, c),
    {
        let tree = self.tree;
        let new = self.stepped(g, fresh, i);
        let walk = self.tasks[i]->Read_0;
        assert(tree.admits(self.tasks[i]));
        let (after, found) = tree.touched(g, fresh, walk.deed());
        tree.lemma_touched(g, fresh, walk);
        assert(tree.linked(c));
        assert(tree.descends(c));
        let f = tree.father(c);
        assert(after.node(c).ancestors == tree.node(c).ancestors);
        assert(new.tasks[i] == TaskState::Read(walk.next(found)));
        let n = walk.place(walk.frames.len() as int);
        if walk.stage is Enter {
            tree.lemma_place(walk, walk.frames.len() as int);
        }
        if walk.stage is Fold || walk.stage is Unlink {
            tree.lemma_place(walk, walk.frames.len() - 1);
        }
        if walk.stage is Take {
            tree.lemma_place(walk, walk.frames.len() as int);
        }
        if after.node(c).dirty {
            assert(tree.node(c).dirty);
            if tree.node(f).subtree_dirty && !after.node(f).subtree_dirty {
                assert(walk.stage is Enter && f == n);
                walk.lemma_entered(found, c);
            } else if walk.will_check(f, c) {
                if walk.stage is List && walk.place(walk.frames.len() - 1) == f {
                    assert(tree.node(f).sons.contains(c));
                }
                walk.lemma_next_checks(found, f, c);
            }
        }
    }

    proof fn lemma_read_data(self, g: spec_fn(T, T) -> T, fresh: T, i: int, c: usize)
        requires
            self.sound(),
            self.employs(i),
            self.tasks[i] is Read,
            !(self.tasks[i]->Read_0.stage is Done),
            cloned(self.tree.identity, fresh),
            0 < c,
            self.tree.has(c),
        ensures
            self.data_accounted(self.stepped(g, fresh, i), i, c),
    {
        let tree = self.tree;
        let new = self.stepped(g, fresh, i);
        let walk = self.tasks[i]->Read_0;
        assert(tree.admits(self.tasks[i]));
        let (after, found) = tree.touched(g, fresh, walk.deed());
        tree.lemma_touched(g, fresh, walk);
        assert(new.tasks[i] == TaskState::Read(walk.next(found)));
        if walk.stage is Enter || walk.stage is Take {
            tree.lemma_place(walk, walk.frames.len() as int);
        }
        if walk.stage is Fold || walk.stage is Unlink {
            tree.lemma_place(walk, walk.frames.len() - 1);
        }
        if walk.stage is Fold && c == walk.place(walk.frames.len() - 1) {
            walk.lemma_folded_delivers(found);
        } else if walk.stage is Take && c == walk.top().current() {
            assert(after.node(c).data == fresh);
        } else if walk.will_deliver(c) {
            walk.lemma_next_delivers(found, c);
        }
    }
}

// ---------------------------------------------------------------------------
// Everything else
// ---------------------------------------------------------------------------

impl<T> TreeState<T> {
    /// The last of the ancestors is the root.
    proof fn lemma_last_ancestor(self, n: usize)
        requires
            self.shaped(),
            self.has(n),
            0 < n,
        ensures
            self.node(n).ancestors.len() > 0,
            self.node(n).ancestors.last() == 0,
        decreases n,
    {
        assert(self.descends(n));
        let f = self.father(n);
        if f != 0 {
            self.lemma_last_ancestor(f);
        }
    }

    /// The next of the ancestors is the father of the one before.
    proof fn lemma_next_ancestor(self, n: usize, i: int)
        requires
            self.shaped(),
            self.has(n),
            0 <= i,
            i + 1 < self.node(n).ancestors.len(),
        ensures
            0 < self.node(n).ancestors[i],
            self.father(self.node(n).ancestors[i]) == self.node(n).ancestors[i + 1],
        decreases n,
    {
        assert(self.descends(n));
        let f = self.father(n);
        let up = self.node(f).ancestors;
        assert(self.node(n).ancestors[i + 1] == up[i]);
        if i == 0 {
            self.lemma_ancestor(f, 0);
        } else {
            assert(self.node(n).ancestors[i] == up[i - 1]);
            self.lemma_next_ancestor(f, i - 1);
        }
    }
}

impl<T: Clone> CrewState<T> {
    /// Nothing is lost where a step touches neither flags nor dirt nor data, and
    /// the worker had nothing to see to.
    proof fn lemma_untouched(self, new: Self, i: int)
        requires
            self.sound(),
            self.employs(i),
            self.tree.evolves(new.tree),
            self.tasks[i] is Idle || self.tasks[i] is Retire,
            forall|x: usize|
                self.tree.has(x) ==> {
                    &&& (#[trigger] new.tree.node(x)).dirty == self.tree.node(x).dirty
                    &&& new.tree.node(x).subtree_dirty == self.tree.node(x).subtree_dirty
                    &&& new.tree.node(x).data == self.tree.node(x).data
                },
            forall|x: usize|
                self.tree.has(x) && new.tree.linked(x) ==> #[trigger] self.tree.linked(x),
        ensures
            forall|c: usize|
                0 < c && self.tree.has(c) && new.tree.linked(c) ==> #[trigger] self.flag_accounted(
                    new,
                    i,
                    c,
                ),
            forall|c: usize|
                0 < c && self.tree.has(c) && new.tree.linked(c) ==> #[trigger] self.dirt_accounted(
                    new,
                    i,
                    c,
                ),
            forall|c: usize|
                0 < c && self.tree.has(c) ==> #[trigger] self.data_accounted(new, i, c),
    {
        assert forall|c: usize| 0 < c && self.tree.has(c) && new.tree.linked(c) implies
            #[trigger] self.flag_accounted(new, i, c) by {
            assert(self.tree.descends(c));
            assert(self.tree.linked(c));
            assert(new.tree.node(self.tree.father(c)).subtree_dirty == self.tree.node(
                self.tree.father(c),
            ).subtree_dirty);
        }
        assert forall|c: usize| 0 < c && self.tree.has(c) && new.tree.linked(c) implies
            #[trigger] self.dirt_accounted(new, i, c) by {
            assert(self.tree.descends(c));
            assert(self.tree.linked(c));
            assert(new.tree.node(self.tree.father(c)).subtree_dirty == self.tree.node(
                self.tree.father(c),
            ).subtree_dirty);
        }
    }

    /// Raising the dirty bit of `n`, whatever is written, by a worker that is to
    /// flag the ancestors next.
    proof fn lemma_dirtied_step(self, i: int, n: usize, data: T)
        requires
            self.sound(),
            self.employs(i),
            self.tree.held(n),
            match self.tasks[i] {
                TaskState::Idle => true,
                TaskState::Read(walk) => {
                    &&& walk.stage is Done
                    &&& walk.origin == n
                    &&& data == self.tree.node(n).data
                },
                _ => false,
            },
        ensures
            self.began_write(i, n, data).sound(),
    {
        let tree = self.tree;
        let new = self.began_write(i, n, data);
        let was = tree.node(n);
        let now = NodeState { data, dirty: true, ..was };
        tree.lemma_cell_changed(n, now);
        assert(tree.admits(self.tasks[i]));
        let depth = was.ancestors.len();
        assert(depth <= usize::MAX) by {
            tree.lemma_shallow(n);
        }
        if 0 < n {
            assert(tree.descends(n));
        }
        assert forall|j: int, m: usize|
            self.employs(j) && j != i && (#[trigger] self.tasks[j]).engages(
                m,
            ) implies #[trigger] new.tree.held(m) by {
            assert(tree.admits(self.tasks[j]));
            assert(tree.held(m));
        }
        assert forall|c: usize| 0 < c && tree.has(c) && new.tree.linked(c) implies
            #[trigger] self.flag_accounted(new, i, c) by {
            assert(tree.linked(c));
            assert(tree.descends(c));
            assert(!tree.attends_flag(self.tasks[i], c)) by {
                self.lemma_done_attends_nothing(i, c);
            }
        }
        assert forall|c: usize| 0 < c && tree.has(c) && new.tree.linked(c) implies
            #[trigger] self.dirt_accounted(new, i, c) by {
            assert(tree.linked(c));
            assert(tree.descends(c));
            assert(!tree.attends_dirt(self.tasks[i], c)) by {
                self.lemma_done_attends_nothing(i, c);
            }
            if c == n && !was.dirty {
                assert(new.tree.attends_dirt(new.tasks[i], c));
            }
        }
        assert forall|c: usize| 0 < c && tree.has(c) implies #[trigger] self.data_accounted(
            new,
            i,
            c,
        ) by {
            if c != n {
                self.lemma_done_attends_nothing(i, c);
            }
        }
        self.lemma_step_sound(new, i);
    }

    /// A worker with nothing in hand, or a read at its end, sees to nothing but
    /// the node that was read.
    proof fn lemma_done_attends_nothing(self, i: int, c: usize)
        requires
            self.employs(i),
            match self.tasks[i] {
                TaskState::Idle => true,
                TaskState::Read(walk) => walk.stage is Done && walk.fits(),
                _ => false,
            },
        ensures
            !self.tree.attends_flag(self.tasks[i], c),
            !self.tree.attends_dirt(self.tasks[i], c),
            self.tree.attends_data(self.tasks[i], c) ==> self.tasks[i]->Read_0.origin == c
                && self.tasks[i]->Read_0.stage == Stage::<T>::Done(true),
    {
    }

    /// A read at its end keeps the crew sound.
    proof fn lemma_collect_step(self, g: spec_fn(T, T) -> T, fresh: T, i: int)
        requires
            self.sound(),
            self.employs(i),
            self.tasks[i] is Read,
            self.tasks[i]->Read_0.stage is Done,
        ensures
            self.stepped(g, fresh, i).sound(),
    {
        let tree = self.tree;
        let new = self.stepped(g, fresh, i);
        let walk = self.tasks[i]->Read_0;
        let n = walk.origin;
        assert(tree.admits(self.tasks[i]));
        let changed = walk.stage->Done_0;
        if changed && tree.node(n).ancestors.len() > 0 {
            assert(new == self.began_write(i, n, tree.node(n).data));
            self.lemma_dirtied_step(i, n, tree.node(n).data);
        } else {
            assert(new == self.assigned(tree, i, TaskState::Idle));
            assert(tree.evolves(tree));
            assert forall|c: usize| 0 < c && tree.has(c) && new.tree.linked(c) implies
                #[trigger] self.flag_accounted(new, i, c) by {
                self.lemma_done_attends_nothing(i, c);
            }
            assert forall|c: usize| 0 < c && tree.has(c) && new.tree.linked(c) implies
                #[trigger] self.dirt_accounted(new, i, c) by {
                self.lemma_done_attends_nothing(i, c);
            }
            assert forall|c: usize| 0 < c && tree.has(c) implies #[trigger] self.data_accounted(
                new,
                i,
                c,
            ) by {
                self.lemma_done_attends_nothing(i, c);
                assert(tree.descends(c));
            }
            assert forall|j: int, m: usize|
                self.employs(j) && j != i && (#[trigger] self.tasks[j]).engages(
                    m,
                ) implies #[trigger] tree.held(m) by {
                assert(tree.admits(self.tasks[j]));
            }
            self.lemma_step_sound(new, i);
        }
    }

    /// Raising the flag of an ancestor keeps the crew sound.
    proof fn lemma_mark_step(self, g: spec_fn(T, T) -> T, fresh: T, i: int)
        requires
            self.sound(),
            self.employs(i),
            self.tasks[i] is Mark,
        ensures
            self.stepped(g, fresh, i).sound(),
    {
        let tree = self.tree;
        let new = self.stepped(g, fresh, i);
        let n = self.tasks[i]->Mark_0;
        let climb = self.tasks[i]->Mark_1;
        assert(tree.admits(self.tasks[i]));
        let up = tree.node(n).ancestors;
        let a = up[climb.next as int];
        tree.lemma_ancestor(n, climb.next as int);
        tree.lemma_cell_changed(a, (NodeState { subtree_dirty: true, ..tree.node(a) }));
        if climb.next + 1 < up.len() {
            tree.lemma_next_ancestor(n, climb.next as int);
        } else {
            tree.lemma_last_ancestor(n);
        }
        assert forall|j: int, m: usize|
            self.employs(j) && j != i && (#[trigger] self.tasks[j]).engages(
                m,
            ) implies #[trigger] new.tree.held(m) by {
            assert(tree.admits(self.tasks[j]));
            assert(tree.held(m));
        }
        assert forall|c: usize| 0 < c && tree.has(c) && new.tree.linked(c) implies
            #[trigger] self.flag_accounted(new, i, c) by {
            assert(tree.linked(c));
            assert(tree.descends(c));
        }
        assert forall|c: usize| 0 < c && tree.has(c) && new.tree.linked(c) implies
            #[trigger] self.dirt_accounted(new, i, c) by {
            assert(tree.linked(c));
            assert(tree.descends(c));
        }
        self.lemma_step_sound(new, i);
    }

    /// Declaring a node dead keeps the crew sound.
    proof fn lemma_retire_step(self, g: spec_fn(T, T) -> T, fresh: T, i: int)
        requires
            self.sound(),
            self.employs(i),
            self.tasks[i] is Retire,
        ensures
            self.stepped(g, fresh, i).sound(),
    {
        let tree = self.tree;
        let new = self.stepped(g, fresh, i);
        let n = self.tasks[i]->Retire_0;
        assert(tree.admits(self.tasks[i]));
        tree.lemma_retired(n);
        assert forall|j: int, m: usize|
            self.employs(j) && j != i && (#[trigger] self.tasks[j]).engages(
                m,
            ) implies #[trigger] new.tree.held(m) by {
            assert(tree.admits(self.tasks[j]));
            assert(tree.held(m));
        }
        self.lemma_untouched(new, i);
        self.lemma_step_sound(new, i);
    }

    /// Any step of any worker, in any order, keeps the crew sound.
    pub proof fn law_every_step_keeps_the_crew_sound(
        self,
        g: spec_fn(T, T) -> T,
        fresh: T,
        i: int,
    )
        requires
            self.sound(),
            self.employs(i),
            cloned(self.tree.identity, fresh),
        ensures
            self.stepped(g, fresh, i).sound(),
    {
        match self.tasks[i] {
            TaskState::Read(walk) => {
                if walk.stage is Done {
                    self.lemma_collect_step(g, fresh, i);
                } else {
                    self.lemma_read_step(g, fresh, i);
                }
            },
            TaskState::Mark(n, climb) => {
                self.lemma_mark_step(g, fresh, i);
            },
            TaskState::Retire(n) => {
                self.lemma_retire_step(g, fresh, i);
            },
            TaskState::Idle => {
                assert(self.stepped(g, fresh, i) =~= self);
            },
        }
    }

    /// What is gone stays gone. Whatever worker takes a step, and whatever it is: a
    /// node without handles never gets one again, a dead node stays dead, a node
    /// that owes nothing by then never owes anything again, and a node that was
    /// unlinked is not linked again.
    pub proof fn law_what_is_gone_stays_gone(
        self,
        g: spec_fn(T, T) -> T,
        fresh: T,
        i: int,
        x: usize,
    )
        requires
            self.sound(),
            self.employs(i),
            self.tree.has(x),
        ensures
            self.tree.evolves(self.stepped(g, fresh, i).tree),
            self.stepped(g, fresh, i).tree.linked(x) ==> self.tree.linked(x),
    {
        let tree = self.tree;
        let new = self.stepped(g, fresh, i).tree;
        assert(tree.admits(self.tasks[i]));
        match self.tasks[i] {
            TaskState::Read(walk) => {
                if !(walk.stage is Done) {
                    tree.lemma_touched(g, fresh, walk);
                }
            },
            TaskState::Mark(n, climb) => {
                tree.lemma_ancestor(n, climb.next as int);
            },
            _ => {},
        }
        if 0 < x {
            assert(tree.descends(x));
        }
    }

    /// A write may be begun at any moment.
    pub proof fn law_a_write_may_begin(self, i: int, n: usize, data: T)
        requires
            self.sound(),
            self.employs(i),
            self.tasks[i] is Idle,
            self.tree.held(n),
        ensures
            self.began_write(i, n, data).sound(),
    {
        self.lemma_dirtied_step(i, n, data);
    }

    /// A read may be begun at any moment.
    pub proof fn law_a_read_may_begin(self, i: int, n: usize)
        requires
            self.sound(),
            self.employs(i),
            self.tasks[i] is Idle,
            self.tree.held(n),
        ensures
            self.began_read(i, n).sound(),
    {
        let new = self.began_read(i, n);
        assert forall|j: int, m: usize|
            self.employs(j) && j != i && (#[trigger] self.tasks[j]).engages(
                m,
            ) implies #[trigger] new.tree.held(m) by {
            assert(self.tree.admits(self.tasks[j]));
        }
        self.lemma_untouched(new, i);
        self.lemma_step_sound(new, i);
    }

    /// A handle may be given up at any moment, as long as no operation under way
    /// needs it.
    pub proof fn law_a_handle_may_go(self, i: int, n: usize)
        requires
            self.sound(),
            self.employs(i),
            self.tasks[i] is Idle,
            self.may_release(n),
        ensures
            self.began_release(i, n).sound(),
    {
        let tree = self.tree;
        let new = self.began_release(i, n);
        let left = (tree.node(n).handles - 1) as usize;
        tree.lemma_counted(n, left);
        assert forall|j: int, m: usize|
            self.employs(j) && j != i && (#[trigger] self.tasks[j]).engages(
                m,
            ) implies #[trigger] new.tree.held(m) by {
            assert(tree.admits(self.tasks[j]));
            assert(tree.held(m));
        }
        self.lemma_untouched(new, i);
        self.lemma_step_sound(new, i);
    }

    /// A handle may be cloned at any moment.
    pub proof fn law_a_handle_may_be_shared(self, i: int, n: usize)
        requires
            self.sound(),
            self.employs(i),
            self.tasks[i] is Idle,
            self.tree.held(n),
            self.tree.node(n).handles < usize::MAX,
        ensures
            self.shared(n).sound(),
    {
        let tree = self.tree;
        let new = self.shared(n);
        tree.lemma_counted(n, (tree.node(n).handles + 1) as usize);
        assert forall|j: int, m: usize|
            self.employs(j) && j != i && (#[trigger] self.tasks[j]).engages(
                m,
            ) implies #[trigger] new.tree.held(m) by {
            assert(tree.admits(self.tasks[j]));
            assert(tree.held(m));
        }
        assert(new.tasks =~= self.tasks.update(i, new.tasks[i]));
        self.lemma_untouched(new, i);
        self.lemma_step_sound(new, i);
    }

    /// A son may be registered at any moment.
    pub proof fn law_a_son_may_be_registered(self, i: int, n: usize, data: T)
        requires
            self.sound(),
            self.employs(i),
            self.tasks[i] is Idle,
            self.tree.held(n),
            self.tree.nodes.len() < usize::MAX,
            cloned(self.tree.identity, data),
        ensures
            self.registered(n, data).sound(),
    {
        let tree = self.tree;
        let new = self.registered(n, data);
        tree.lemma_grown_shaped(n, data);
        assert forall|x: usize| tree.has(x) && x != n implies #[trigger] new.tree.node(x)
            == tree.node(x) by {}
        assert forall|j: int, m: usize|
            self.employs(j) && j != i && (#[trigger] self.tasks[j]).engages(
                m,
            ) implies #[trigger] new.tree.held(m) by {
            assert(tree.admits(self.tasks[j]));
            assert(tree.held(m));
        }
        assert forall|x: usize| tree.has(x) && new.tree.linked(x) implies #[trigger] tree.linked(
            x,
        ) by {}
        assert(new.tasks =~= self.tasks.update(i, new.tasks[i]));
        self.lemma_untouched(new, i);
        self.lemma_step_sound(new, i);
    }
}

impl<T> TreeState<T> {
    /// A node has fewer ancestors than there are names before it.
    pub proof fn lemma_shallow(self, n: usize)
        requires
            self.shaped(),
            self.has(n),
        ensures
            self.node(n).ancestors.len() <= n,
        decreases n,
    {
        if 0 < n {
            assert(self.descends(n));
            self.lemma_shallow(self.father(n));
        }
    }

    /// A node without handles may be declared dead.
    proof fn lemma_retired(self, n: usize)
        requires
            self.shaped(),
            self.has(n),
            self.node(n).handles == 0,
        ensures
            self.with(n, (NodeState { dead: true, ..self.node(n) })).shaped(),
            self.evolves(self.with(n, (NodeState { dead: true, ..self.node(n) }))),
            forall|x: usize|
                self.has(x) && self.with(
                    n,
                    (NodeState { dead: true, ..self.node(n) }),
                ).linked(x) ==> #[trigger] self.linked(x),
    {
        let new = self.with(n, (NodeState { dead: true, ..self.node(n) }));
        assert forall|x: usize| self.has(x) && x != n implies #[trigger] new.node(x) == self.node(
            x,
        ) by {}
        assert forall|x: usize| 0 < x && new.has(x) implies #[trigger] new.descends(x) by {
            assert(self.descends(x));
        }
        assert forall|x: usize| new.has(x) implies #[trigger] new.lists_its_own(x) by {
            assert(self.lists_its_own(x));
        }
        assert forall|x: usize| self.has(x) implies new.linked(x) == #[trigger] self.linked(x) by {
            if 0 < x {
                assert(self.descends(x));
            }
        }
        assert forall|x: usize| new.has(x) && !#[trigger] new.linked(x) implies new.spent(x) by {
            assert(!self.linked(x));
        }
        assert forall|x: usize| new.has(x) && (#[trigger] new.node(x)).dead implies new.node(
            x,
        ).handles == 0 by {
            if x != n {
                assert(self.node(x).dead);
            }
        }
    }

    /// The handles of a node that somebody holds may be counted anew.
    proof fn lemma_counted(self, n: usize, handles: usize)
        requires
            self.shaped(),
            self.held(n),
        ensures
            self.with(n, (NodeState { handles, ..self.node(n) })).shaped(),
            self.evolves(self.with(n, (NodeState { handles, ..self.node(n) }))),
            forall|x: usize|
                self.has(x) && self.with(n, (NodeState { handles, ..self.node(n) })).linked(x)
                    ==> #[trigger] self.linked(x),
    {
        self.lemma_handles_shaped(n, handles, self.node(n).dead);
        let new = self.with(n, (NodeState { handles, ..self.node(n) }));
        assert forall|x: usize| self.has(x) && new.linked(x) implies #[trigger] self.linked(x) by {
            if 0 < x {
                assert(self.descends(x));
            }
        }
    }
}

} // verus!
