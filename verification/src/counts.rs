//! Handles are counted, and nodes hang where they were registered.
use vstd::prelude::*;

use crate::histories::Op;
use crate::interleave::CrewState;
use crate::monoid::commutative_monoid;
use crate::monoid::lemma_identity;
use crate::monoid::lemma_swap_last;
use crate::monoid::sum;
use crate::runs::Event;
use crate::state::TreeState;

verus! {

// ---------------------------------------------------------------------------
// Runs of a crew
// ---------------------------------------------------------------------------

/// How many times a handle to `n` is cloned in a run.
pub open spec fn clones<T>(run: Seq<Event<T>>, n: usize) -> nat
    decreases run.len(),
{
    if run.len() == 0 {
        0
    } else {
        clones(run.drop_last(), n) + match run.last() {
            Event::Share(i, m) => if m == n {
                1nat
            } else {
                0
            },
            _ => 0,
        }
    }
}

/// How many times a handle to `n` is given up in a run.
pub open spec fn drops<T>(run: Seq<Event<T>>, n: usize) -> nat
    decreases run.len(),
{
    if run.len() == 0 {
        0
    } else {
        drops(run.drop_last(), n) + match run.last() {
            Event::Release(i, m) => if m == n {
                1nat
            } else {
                0
            },
            _ => 0,
        }
    }
}

/// The nodes that sons are registered through in a run, in that order.
pub open spec fn fathers<T>(run: Seq<Event<T>>) -> Seq<usize>
    decreases run.len(),
{
    if run.len() == 0 {
        Seq::empty()
    } else {
        match run.last() {
            Event::Register(i, m) => fathers(run.drop_last()).push(m),
            _ => fathers(run.drop_last()),
        }
    }
}

impl<T: Clone> CrewState<T> {
    /// Whatever happens in a run, and in whatever order: a node has the handles it had
    /// before, or the one it was registered with, and one more for each clone and one
    /// less for each drop; no node but those that were registered is new; and each node
    /// hangs from where it hung before, or from the node it was registered through, for
    /// good.
    pub proof fn law_a_run_counts_every_handle(
        self,
        g: spec_fn(T, T) -> T,
        run: Seq<Event<T>>,
        n: usize,
    )
        requires
            self.sound(),
            self.allows_run(g, run),
            self.ran(g, run).tree.has(n),
        ensures
            ({
                let end = self.ran(g, run).tree;
                let len = self.tree.nodes.len();
                &&& end.nodes.len() == len + fathers(run).len()
                &&& end.node(n).handles == clones(run, n) - drops(run, n) + if n < len {
                    self.tree.node(n).handles as int
                } else {
                    1
                }
                &&& n < len ==> end.node(n).ancestors == self.tree.node(n).ancestors
                &&& n >= len ==> {
                    let father = fathers(run)[n - len];
                    end.has(father) && end.node(n).ancestors == seq![father] + end.node(
                        father,
                    ).ancestors
                }
            }),
        decreases run.len(),
    {
        if run.len() > 0 {
            let past = run.drop_last();
            let mid = self.ran(g, past);
            let e = mid.tree.identity;
            self.law_every_run_keeps_the_crew_sound(g, past);
            let len = self.tree.nodes.len();
            if mid.tree.has(n) {
                self.law_a_run_counts_every_handle(g, past, n);
                if n >= len {
                    self.law_a_run_counts_every_handle(g, past, fathers(past)[n - len]);
                }
            } else {
                self.lemma_not_counted_before(g, past, n);
                self.law_a_run_counts_every_handle(g, past, 0);
            }
            match run.last() {
                Event::Step(i) => {
                    mid.law_steps_count_no_handles(g, e, i, 0);
                    mid.law_steps_count_no_handles(g, e, i, n);
                    if n >= len {
                        mid.law_steps_count_no_handles(g, e, i, fathers(past)[n - len]);
                    }
                },
                _ => {},
            }
        }
    }

    /// A handle to a node that is not there yet is neither cloned nor given up.
    proof fn lemma_not_counted_before(self, g: spec_fn(T, T) -> T, run: Seq<Event<T>>, n: usize)
        requires
            self.sound(),
            self.allows_run(g, run),
            !self.ran(g, run).tree.has(n),
        ensures
            clones(run, n) == 0,
            drops(run, n) == 0,
        decreases run.len(),
    {
        if run.len() > 0 {
            let past = run.drop_last();
            let mid = self.ran(g, past);
            self.law_every_run_keeps_the_crew_sound(g, past);
            match run.last() {
                Event::Step(i) => {
                    mid.law_steps_count_no_handles(g, mid.tree.identity, i, 0);
                },
                _ => {},
            }
            self.lemma_not_counted_before(g, past, n);
        }
    }

    /// A node with as many clones as drops, in any order and whatever else is done, has
    /// the handles it had before. If it was held it is held, it is not dead, and its
    /// father lists it.
    pub proof fn law_as_many_drops_as_clones_leave_a_node_held(
        self,
        g: spec_fn(T, T) -> T,
        run: Seq<Event<T>>,
        n: usize,
    )
        requires
            self.sound(),
            self.allows_run(g, run),
            self.tree.has(n),
            self.tree.node(n).handles > 0,
            clones(run, n) == drops(run, n),
        ensures
            ({
                let end = self.ran(g, run).tree;
                &&& end.has(n)
                &&& end.node(n).handles == self.tree.node(n).handles
                &&& !end.node(n).dead
                &&& n != 0 ==> end.node(end.node(n).ancestors[0]).sons.contains(n)
            }),
    {
        self.law_every_run_keeps_the_crew_sound(g, run);
        self.law_a_run_counts_every_handle(g, run, 0);
        self.law_a_run_counts_every_handle(g, run, n);
        let end = self.ran(g, run).tree;
        assert(end.held(n));
        end.lemma_held_is_linked(n);
    }

    /// A son is held from the moment it is registered until the last handle to it is
    /// given up, whatever happens meanwhile: its father lists it all that time.
    pub proof fn law_a_registered_son_stays_until_it_is_dropped(
        self,
        g: spec_fn(T, T) -> T,
        i: int,
        n: usize,
        run: Seq<Event<T>>,
    )
        requires
            self.sound(),
            self.allows(Event::Register(i, n)),
            self.after(g, Event::Register(i, n)).allows_run(g, run),
            drops(run, self.tree.nodes.len() as usize) <= clones(
                run,
                self.tree.nodes.len() as usize,
            ),
        ensures
            ({
                let end = self.after(g, Event::Register(i, n)).ran(g, run).tree;
                let son = self.tree.nodes.len() as usize;
                &&& end.has(son)
                &&& end.node(son).handles > 0
                &&& !end.node(son).dead
                &&& end.node(son).ancestors == seq![n] + self.tree.node(n).ancestors
                &&& end.node(n).sons.contains(son)
            }),
    {
        let start = self.after(g, Event::Register(i, n));
        let son = self.tree.nodes.len() as usize;
        self.law_a_son_may_be_registered(i, n, self.tree.identity);
        self.law_a_registered_son_hangs_from_its_father(n, self.tree.identity, n);
        start.law_every_run_keeps_the_crew_sound(g, run);
        start.law_a_run_counts_every_handle(g, run, 0);
        start.law_a_run_counts_every_handle(g, run, son);
        let end = start.ran(g, run).tree;
        assert(end.held(son));
        end.lemma_held_is_linked(son);
    }

    /// What is folded into a new son is added to what its father and every node above
    /// add up to, and to nothing else, in any crew, whatever the others have in hand.
    pub proof fn law_what_a_registered_son_writes_goes_to_its_father(
        self,
        g: spec_fn(T, T) -> T,
        i: int,
        n: usize,
        x: T,
        a: usize,
    )
        requires
            self.sound(),
            self.employs(i),
            self.tasks[i] is Idle,
            self.tree.held(n),
            self.tree.nodes.len() < usize::MAX,
            self.tree.has(a),
            commutative_monoid(g, self.tree.identity),
        ensures
            ({
                let son = self.tree.nodes.len() as usize;
                let new = self.registered(n, self.tree.identity).began_write(
                    i,
                    son,
                    g(self.tree.identity, x),
                );
                &&& a == n || self.tree.node(n).ancestors.contains(a) ==> new.subtotal(g, a) == g(
                    self.subtotal(g, a),
                    x,
                )
                &&& a != n && !self.tree.node(n).ancestors.contains(a) ==> new.subtotal(g, a)
                    == self.subtotal(g, a)
            }),
    {
        let tree = self.tree;
        let e = tree.identity;
        let son = tree.nodes.len() as usize;
        let new = self.registered(n, e).began_write(i, son, g(e, x));
        lemma_identity(g, e, x);
        assert(new.hands() =~= self.hands());
        let was = tree.holdings_within(a);
        let now = new.tree.holdings_within(a);
        assert forall|y: int| 0 <= y < was.len() implies #[trigger] now[y] == was[y] by {
            assert(new.tree.node(y as usize).ancestors == tree.node(y as usize).ancestors);
        }
        assert(now.drop_last() =~= was);
        let up = new.tree.node(son).ancestors;
        assert(up == seq![n] + tree.node(n).ancestors);
        assert(up.contains(a) == (a == n || tree.node(n).ancestors.contains(a))) by {
            if a == n {
                assert(up[0] == a);
            }
            if tree.node(n).ancestors.contains(a) {
                assert(up[tree.node(n).ancestors.index_of(a) + 1] == a);
            }
            if up.contains(a) {
                let k = up.index_of(a);
                assert(k > 0 ==> tree.node(n).ancestors[k - 1] == a);
            }
        }
        let sv = sum(g, e, was);
        let sh = sum(g, e, self.hands());
        if up.contains(a) {
            assert(now.last() == x);
            lemma_swap_last(g, e, sv, x, sh);
        } else {
            assert(now.last() == e);
            lemma_identity(g, e, sv);
        }
    }
}

// ---------------------------------------------------------------------------
// What the owner of a tree does
// ---------------------------------------------------------------------------

/// How many times a handle to `n` is cloned in a history.
pub open spec fn shares<T>(ops: Seq<Op<T>>, n: usize) -> nat
    decreases ops.len(),
{
    if ops.len() == 0 {
        0
    } else {
        shares(ops.drop_last(), n) + match ops.last() {
            Op::Share(m) => if m == n {
                1nat
            } else {
                0
            },
            _ => 0,
        }
    }
}

/// How many times a handle to `n` is given up in a history.
pub open spec fn releases<T>(ops: Seq<Op<T>>, n: usize) -> nat
    decreases ops.len(),
{
    if ops.len() == 0 {
        0
    } else {
        releases(ops.drop_last(), n) + match ops.last() {
            Op::Release(m) => if m == n {
                1nat
            } else {
                0
            },
            _ => 0,
        }
    }
}

impl<T: Clone> TreeState<T> {
    /// Whatever its owner does with a tree: a node has the handles it had before, one
    /// more for each clone and one less for each drop, at every depth, and it is where it
    /// was. As long as it has any it is not dead, and its father lists it.
    pub proof fn law_a_history_counts_every_handle(
        self,
        g: spec_fn(T, T) -> T,
        ops: Seq<Op<T>>,
        trees: Seq<Self>,
        n: usize,
    )
        requires
            self.sound(),
            self.has(n),
            self.lived(g, ops, trees),
        ensures
            trees.last().sound(),
            trees.last().has(n),
            trees.last().node(n).handles == self.node(n).handles + shares(ops, n) - releases(
                ops,
                n,
            ),
            trees.last().node(n).ancestors == self.node(n).ancestors,
            trees.last().node(n).handles > 0 ==> !trees.last().node(n).dead,
            trees.last().node(n).handles > 0 && n != 0 ==> trees.last().node(
                self.node(n).ancestors[0],
            ).sons.contains(n),
        decreases ops.len(),
    {
        if ops.len() > 0 {
            let past = ops.drop_last();
            let before = trees.drop_last();
            assert(self.lived(g, past, before)) by {
                assert forall|k: int| 0 <= k < past.len() implies before[k].permits(
                    #[trigger] past[k],
                ) && before[k].turns(g, past[k], before[k + 1]) by {
                    assert(past[k] == ops[k]);
                }
            }
            self.law_a_history_counts_every_handle(g, past, before, n);
            let mid = before.last();
            let new = trees.last();
            let op = ops[ops.len() - 1];
            assert(mid.permits(op) && mid.turns(g, op, new));
            mid.lemma_turn_sound(g, op, new);
            match op {
                Op::Update(m, f) => {
                    assert(mid.nodes[n as int] == mid.node(n));
                },
                Op::Read(m) => {
                    mid.law_a_read_stays_below_its_node(new, m, n);
                },
                _ => {},
            }
        }
        let end = trees.last();
        if end.node(n).handles > 0 {
            assert(end.held(n));
            end.lemma_held_is_linked(n);
        }
    }

    /// A new son is held from the moment it is registered until the last handle to it is
    /// given up, whatever state its father is in and whatever is done meanwhile: no read
    /// unlinks it, and its father lists it all that time.
    pub proof fn law_a_new_son_stays_until_it_is_dropped(
        self,
        g: spec_fn(T, T) -> T,
        n: usize,
        ops: Seq<Op<T>>,
        trees: Seq<Self>,
    )
        requires
            self.sound(),
            self.held(n),
            self.nodes.len() < usize::MAX,
            self.grown(n, self.identity).lived(g, ops, trees),
            releases(ops, self.nodes.len() as usize) <= shares(ops, self.nodes.len() as usize),
        ensures
            ({
                let son = self.nodes.len() as usize;
                let end = trees.last();
                &&& end.has(son)
                &&& end.node(son).handles > 0
                &&& !end.node(son).dead
                &&& end.node(son).ancestors == seq![n] + self.node(n).ancestors
                &&& end.node(n).sons.contains(son)
            }),
    {
        let son = self.nodes.len() as usize;
        let start = self.grown(n, self.identity);
        self.lemma_grown_sound(n, self.identity);
        self.law_a_new_son_hangs_from_its_father(n, self.identity, n);
        start.law_a_history_counts_every_handle(g, ops, trees, son);
        assert(start.node(son).ancestors[0] == n);
    }

    /// What is written to a new son is what its father reads on top of what it read
    /// before, whatever the fold.
    pub proof fn law_what_a_new_son_writes_its_father_reads(
        self,
        g: spec_fn(T, T) -> T,
        n: usize,
        x: T,
    )
        requires
            self.sound(),
            self.held(n),
            self.nodes.len() < usize::MAX,
        ensures
            self.grown(n, self.identity).written(self.nodes.len() as usize, x).folded(g, n) == g(
                self.folded(g, n),
                x,
            ),
    {
        let son = self.nodes.len() as usize;
        let grown = self.grown(n, self.identity);
        let new = grown.written(son, x);
        let sons = new.node(n).sons;
        self.lemma_grown_sound(n, self.identity);
        grown.lemma_written_sound(son, x);
        assert forall|y: usize| self.has(y) implies {
            &&& (#[trigger] new.node(y)).data == self.node(y).data
            &&& new.node(y).dirty == self.node(y).dirty
            &&& new.node(y).ancestors == self.node(y).ancestors
            &&& y != n ==> new.node(y).sons == self.node(y).sons
        } by {
            assert(grown.nodes[y as int] == grown.node(y));
        }
        assert(sons == self.node(n).sons.push(son)) by {
            assert(grown.nodes[n as int] == grown.node(n));
        }
        assert(new.node(son).data == x && new.node(son).dirty && new.node(son).sons.len() == 0) by {
            assert(grown.nodes[son as int] == grown.node(son));
        }
        self.lemma_folds_beside(new, g, n, n, self.node(n).sons.len());
        assert(new.folded_upto(g, son, 0) == x);
    }

    /// The older sons of `n` fold to the same beside a new one.
    proof fn lemma_folds_beside(
        self,
        new: Self,
        g: spec_fn(T, T) -> T,
        n: usize,
        m: usize,
        k: nat,
    )
        requires
            self.shaped(),
            new.shaped(),
            self.held(n),
            self.has(m),
            m == n || !self.under(n, m),
            new.nodes.len() == self.nodes.len() + 1,
            new.node(self.nodes.len() as usize).ancestors == seq![n] + self.node(n).ancestors,
            new.node(n).sons == self.node(n).sons.push(self.nodes.len() as usize),
            forall|y: usize|
                self.has(y) ==> {
                    &&& (#[trigger] new.node(y)).data == self.node(y).data
                    &&& new.node(y).dirty == self.node(y).dirty
                    &&& new.node(y).ancestors == self.node(y).ancestors
                    &&& y != n ==> new.node(y).sons == self.node(y).sons
                },
            k <= self.node(m).sons.len(),
        ensures
            new.folded_upto(g, m, k) == self.folded_upto(g, m, k),
        decreases self.nodes.len() - m, k,
    {
        let son = self.nodes.len() as usize;
        assert(new.node(m).data == self.node(m).data);
        if k > 0 {
            let s = self.node(m).sons[k - 1];
            self.lemma_son(m, k - 1);
            assert(new.node(m).sons[k - 1] == s);
            self.lemma_folds_beside(new, g, n, m, (k - 1) as nat);
            assert(!self.within(n, s)) by {
                if self.within(n, s) {
                    if m == n {
                        self.lemma_under_is_younger(n, s);
                    } else {
                        self.lemma_under_trans(n, s, m);
                    }
                }
            }
            self.lemma_folds_beside(new, g, n, s, self.node(s).sons.len());
            assert(new.node(s).dirty == self.node(s).dirty);
            assert(new.pending(s) == self.pending(s)) by {
                if self.stirred(s) {
                    let y = choose|y: usize|
                        self.has(y) && #[trigger] self.under(y, s) && self.node(y).dirty;
                    assert(new.node(y).dirty);
                    assert(new.under(y, s));
                }
                if new.stirred(s) {
                    let y = choose|y: usize|
                        new.has(y) && #[trigger] new.under(y, s) && new.node(y).dirty;
                    if y == son {
                        let up = new.node(son).ancestors;
                        let i = up.index_of(s);
                        assert(up[i] == s);
                        if i > 0 {
                            assert(self.node(n).ancestors[i - 1] == s);
                        }
                        assert(false);
                    }
                    assert(new.node(y).dirty == self.node(y).dirty);
                    assert(self.under(y, s));
                }
            }
        }
    }
}

} // verus!
