//! The tree as a mathematical object, and what its operations make of it.
//!
//! Nodes are named by their place in one sequence. Node `0` is the root, and a
//! son always has a larger name than its father, so every walk down the tree
//! comes to an end.
use vstd::prelude::*;

verus! {

/// One node of the tree.
#[verifier::ext_equal]
pub struct NodeState<T> {
    /// The sons that are linked under this node, oldest first.
    pub sons: Seq<usize>,
    /// The number of live handles to this node.
    pub handles: usize,
    /// Whether the last handle is gone.
    pub dead: bool,
    /// Away from the root: the delta still owed to the father.
    pub data: T,
    /// Whether this node owes its father something.
    pub dirty: bool,
    /// Whether some strict descendant may be dirty.
    pub subtree_dirty: bool,
    /// Every ancestor, father first.
    pub ancestors: Seq<usize>,
}

/// The whole tree.
#[verifier::ext_equal]
pub struct TreeState<T> {
    /// Every node that was ever registered, in the order of registration.
    pub nodes: Seq<NodeState<T>>,
    /// What a node holds when it owes its father nothing.
    pub identity: T,
}

impl<T> TreeState<T> {
    /// The node named `n`.
    pub open spec fn node(self, n: usize) -> NodeState<T> {
        self.nodes[n as int]
    }

    /// `n` names a node.
    pub open spec fn has(self, n: usize) -> bool {
        n < self.nodes.len()
    }

    /// The father of a node other than the root.
    pub open spec fn father(self, n: usize) -> usize {
        self.node(n).ancestors[0]
    }

    /// `x` is a strict descendant of `n`.
    pub open spec fn under(self, x: usize, n: usize) -> bool {
        self.node(x).ancestors.contains(n)
    }

    /// `x` is `n` or a descendant of `n`.
    pub open spec fn within(self, x: usize, n: usize) -> bool {
        x == n || self.under(x, n)
    }

    /// The root, or a node that its father still lists.
    pub open spec fn linked(self, n: usize) -> bool {
        n == 0 || self.node(self.father(n)).sons.contains(n)
    }

    /// A node with no handles left, nothing pending, and nothing underneath it.
    pub open spec fn vacant(self, n: usize) -> bool {
        let node = self.node(n);
        node.handles == 0 && !node.dirty && node.sons.len() == 0
    }

    /// A vacant node that was declared dead.
    pub open spec fn spent(self, n: usize) -> bool {
        self.node(n).dead && self.vacant(n)
    }

    /// Every node without handles was declared dead, so what is vacant is spent.
    pub open spec fn marks_its_dead(self) -> bool {
        forall|n: usize| self.has(n) && (#[trigger] self.node(n)).handles == 0 ==> self.node(n).dead
    }

    /// The names of a list of sons that are not spent.
    pub open spec fn unspent(self, sons: Seq<usize>) -> Seq<usize> {
        sons.filter(|s: usize| !self.spent(s))
    }

    /// The fathers and sons agree with each other, and a node that its father no
    /// longer lists is spent.
    pub open spec fn shaped(self) -> bool {
        &&& 0 < self.nodes.len() <= usize::MAX
        &&& self.node(0).ancestors.len() == 0
        &&& forall|n: usize| 0 < n && self.has(n) ==> #[trigger] self.descends(n)
        &&& forall|n: usize| self.has(n) ==> #[trigger] self.lists_its_own(n)
        &&& forall|n: usize| self.has(n) && !#[trigger] self.linked(n) ==> self.spent(n)
        &&& forall|n: usize| self.has(n) && (#[trigger] self.node(n)).dead ==> self.node(n).handles == 0
    }

    /// The ancestors of `n` are its father, an older node, and the father's own.
    pub open spec fn descends(self, n: usize) -> bool {
        &&& self.node(n).ancestors.len() > 0
        &&& self.father(n) < n
        &&& self.node(n).ancestors == seq![self.father(n)] + self.node(self.father(n)).ancestors
    }

    /// Every node that `n` lists is a son of `n`, and is listed once.
    pub open spec fn lists_its_own(self, n: usize) -> bool {
        let sons = self.node(n).sons;
        &&& sons.no_duplicates()
        &&& forall|i: int| 0 <= i < sons.len() ==> self.has(#[trigger] sons[i]) && 0 < sons[i]
            && self.father(sons[i]) == n
    }

    /// The flag of the father of `x` is up if `x` has something to deliver.
    pub open spec fn announced(self, x: usize) -> bool {
        self.node(x).dirty || self.node(x).subtree_dirty ==> self.node(
            self.father(x),
        ).subtree_dirty
    }

    /// No flag below `n` is down that should be up: whoever sees a clear flag
    /// may skip everything below it.
    pub open spec fn coherent_below(self, n: usize) -> bool {
        forall|x: usize|
            self.has(x) && self.under(x, n) && self.linked(x) ==> #[trigger] self.announced(x)
    }

    /// No flag anywhere is down that should be up.
    pub open spec fn coherent(self) -> bool {
        self.coherent_below(0)
    }

    /// Some strict descendant of `n` is dirty.
    pub open spec fn stirred(self, n: usize) -> bool {
        exists|x: usize| self.has(x) && #[trigger] self.under(x, n) && self.node(x).dirty
    }

    /// `n` has something to deliver to its father: of its own, or from below.
    pub open spec fn pending(self, n: usize) -> bool {
        self.node(n).dirty || self.stirred(n)
    }

    /// The data of `n` with the first `k` of its sons folded in, oldest first,
    /// each one after its own sons. A son that has nothing to deliver is left
    /// out.
    pub open spec fn folded_upto(self, g: spec_fn(T, T) -> T, n: usize, k: nat) -> T
        decreases self.nodes.len() - n, k,
    {
        if k == 0 {
            self.node(n).data
        } else {
            let s = self.node(n).sons[k - 1];
            let rest = self.folded_upto(g, n, (k - 1) as nat);
            if self.pending(s) && n < s && self.has(s) {
                g(rest, self.folded_upto(g, s, self.node(s).sons.len()))
            } else {
                rest
            }
        }
    }

    /// The data of `n` with everything below it folded in, deepest first.
    pub open spec fn folded(self, g: spec_fn(T, T) -> T, n: usize) -> T {
        self.folded_upto(g, n, self.node(n).sons.len())
    }
}

impl<T: Clone> TreeState<T> {
    /// A node other than the root that is not dirty holds the identity.
    pub open spec fn settled(self) -> bool {
        forall|n: usize|
            0 < n && self.has(n) && !(#[trigger] self.node(n)).dirty ==> cloned(
                self.identity,
                self.node(n).data,
            )
    }

    /// What holds of every tree between operations.
    pub open spec fn sound(self) -> bool {
        &&& self.shaped()
        &&& self.marks_its_dead()
        &&& self.coherent()
        &&& self.settled()
    }
}

// ---------------------------------------------------------------------------
// The shape of the tree
// ---------------------------------------------------------------------------

impl<T> TreeState<T> {
    /// The descendants of `n` are its sons and their descendants.
    pub proof fn lemma_under_step(self, x: usize, n: usize)
        requires
            self.shaped(),
            self.has(x),
        ensures
            self.under(x, n) <==> 0 < x && self.within(self.father(x), n),
    {
        if 0 < x {
            assert(self.descends(x));
            let up = self.node(self.father(x)).ancestors;
            let all = self.node(x).ancestors;
            if all.contains(n) {
                let i = all.index_of(n);
                assert(all[i] == n);
                if i > 0 {
                    assert(up[i - 1] == n);
                }
            }
            if self.father(x) == n {
                assert(all[0] == n);
            }
            if up.contains(n) {
                let i = up.index_of(n);
                assert(all[i + 1] == n);
            }
        }
    }

    /// A descendant has a larger name than its ancestor.
    pub proof fn lemma_under_is_younger(self, x: usize, n: usize)
        requires
            self.shaped(),
            self.has(x),
            self.under(x, n),
        ensures
            n < x,
        decreases x,
    {
        self.lemma_under_step(x, n);
        assert(self.descends(x));
        if self.father(x) != n {
            self.lemma_under_is_younger(self.father(x), n);
        }
    }

    /// Every node but the root is under the root.
    pub proof fn lemma_under_root(self, x: usize)
        requires
            self.shaped(),
            self.has(x),
            0 < x,
        ensures
            self.under(x, 0),
        decreases x,
    {
        self.lemma_under_step(x, 0);
        assert(self.descends(x));
        if self.father(x) != 0 {
            self.lemma_under_root(self.father(x));
        }
    }

    /// A descendant of a descendant is a descendant.
    pub proof fn lemma_under_trans(self, x: usize, m: usize, n: usize)
        requires
            self.shaped(),
            self.has(x),
            self.within(x, m),
            self.under(m, n),
        ensures
            self.under(x, n),
        decreases x,
    {
        if x != m {
            self.lemma_under_step(x, m);
            assert(self.descends(x));
            self.lemma_under_trans(self.father(x), m, n);
            self.lemma_under_step(x, n);
        }
    }

    /// The son of `n` through which a descendant `x` hangs from `n`.
    pub open spec fn branch(self, x: usize, n: usize) -> usize
        decreases x,
    {
        if self.father(x) == n || self.father(x) >= x {
            x
        } else {
            self.branch(self.father(x), n)
        }
    }

    /// What `branch` finds: a node whose father is `n`, above `x`.
    pub proof fn lemma_branch(self, x: usize, n: usize)
        requires
            self.shaped(),
            self.has(x),
            self.under(x, n),
        ensures
            self.has(self.branch(x, n)),
            0 < self.branch(x, n),
            self.father(self.branch(x, n)) == n,
            self.within(x, self.branch(x, n)),
            self.linked(x) ==> self.node(n).sons.contains(self.branch(x, n)),
        decreases x,
    {
        self.lemma_under_step(x, n);
        assert(self.descends(x));
        let f = self.father(x);
        if f != n {
            self.lemma_branch(f, n);
            self.lemma_under_step(x, self.branch(f, n));
            self.lemma_linked_up(x);
        }
    }

    /// Two different sons of one father share no descendants.
    pub proof fn lemma_branches_part(self, x: usize, n: usize, s: usize, t: usize)
        requires
            self.shaped(),
            self.has(x),
            self.has(s),
            self.has(t),
            0 < s,
            0 < t,
            self.father(s) == n,
            self.father(t) == n,
            self.within(x, s),
            self.within(x, t),
        ensures
            s == t,
        decreases x,
    {
        if s != t {
            if x == s {
                self.lemma_under_step(x, t);
                assert(self.descends(t));
                if n != t {
                    self.lemma_under_is_younger(n, t);
                }
                assert(false);
            } else if x == t {
                self.lemma_under_step(x, s);
                assert(self.descends(s));
                if n != s {
                    self.lemma_under_is_younger(n, s);
                }
                assert(false);
            } else {
                self.lemma_under_step(x, s);
                self.lemma_under_step(x, t);
                assert(self.descends(x));
                self.lemma_branches_part(self.father(x), n, s, t);
            }
        }
    }

    /// The father of a linked node is linked.
    pub proof fn lemma_linked_up(self, x: usize)
        requires
            self.shaped(),
            self.has(x),
            0 < x,
        ensures
            self.has(self.father(x)),
            self.linked(x) ==> self.linked(self.father(x)),
    {
        assert(self.descends(x));
        if self.linked(x) && !self.linked(self.father(x)) {
            assert(self.spent(self.father(x)));
            assert(false);
        }
    }

    /// A node has fewer sons than the tree has nodes.
    pub proof fn lemma_few_sons(self, n: usize)
        requires
            self.shaped(),
            self.has(n),
        ensures
            self.node(n).sons.len() <= self.nodes.len(),
    {
        assert(self.lists_its_own(n));
        let sons = self.node(n).sons;
        let names = sons.map_values(|s: usize| s as int);
        assert(names.no_duplicates()) by {
            assert forall|i: int, j: int| 0 <= i < names.len() && 0 <= j < names.len() && i != j
                implies names[i] != names[j] by {
                assert(sons[i] != sons[j]);
            }
        }
        names.unique_seq_to_set();
        let all = vstd::set_lib::set_int_range(0, self.nodes.len() as int);
        vstd::set_lib::lemma_int_range(0, self.nodes.len() as int);
        assert(names.to_set().subset_of(all)) by {
            assert forall|v: int| names.to_set().contains(v) implies all.contains(v) by {
                let i = names.index_of(v);
                assert(names[i] == v);
                assert(self.has(sons[i]));
            }
        }
        vstd::set_lib::lemma_len_subset(names.to_set(), all);
    }

    /// A listed son is linked.
    pub proof fn lemma_son(self, n: usize, i: int)
        requires
            self.shaped(),
            self.has(n),
            0 <= i < self.node(n).sons.len(),
        ensures
            self.has(self.node(n).sons[i]),
            n < self.node(n).sons[i],
            self.father(self.node(n).sons[i]) == n,
            self.linked(self.node(n).sons[i]),
            self.under(self.node(n).sons[i], n),
    {
        assert(self.lists_its_own(n));
        let s = self.node(n).sons[i];
        assert(self.descends(s));
        self.lemma_under_step(s, n);
        assert(self.node(n).sons.contains(s));
    }
}

// ---------------------------------------------------------------------------
// What is pending
// ---------------------------------------------------------------------------

impl<T> TreeState<T> {
    /// Something dirty below `n` keeps the flag of `n` up.
    pub proof fn lemma_dirty_flags_up(self, x: usize, n: usize)
        requires
            self.shaped(),
            self.coherent_below(n),
            self.has(x),
            self.under(x, n),
            self.linked(x),
            self.node(x).dirty || self.node(x).subtree_dirty,
        ensures
            self.node(n).subtree_dirty,
        decreases x,
    {
        assert(self.announced(x));
        self.lemma_under_step(x, n);
        self.lemma_linked_up(x);
        assert(self.descends(x));
        let f = self.father(x);
        if f != n {
            self.lemma_dirty_flags_up(f, n);
        }
    }

    /// A clear flag means that nothing below is dirty.
    pub proof fn lemma_stirred_is_flagged(self, n: usize)
        requires
            self.shaped(),
            self.coherent_below(n),
            self.stirred(n),
        ensures
            self.node(n).subtree_dirty,
    {
        let x = choose|x: usize| self.has(x) && #[trigger] self.under(x, n) && self.node(x).dirty;
        assert(self.linked(x));
        self.lemma_dirty_flags_up(x, n);
    }

    /// A node is stirred exactly when one of its sons has something to deliver.
    pub proof fn lemma_stirred_by_sons(self, n: usize)
        requires
            self.shaped(),
            self.has(n),
        ensures
            self.stirred(n) <==> exists|i: int|
                0 <= i < self.node(n).sons.len() && #[trigger] self.pending(self.node(n).sons[i]),
    {
        if self.stirred(n) {
            let x = choose|x: usize|
                self.has(x) && #[trigger] self.under(x, n) && self.node(x).dirty;
            assert(self.linked(x));
            self.lemma_branch(x, n);
            let s = self.branch(x, n);
            let i = self.node(n).sons.index_of(s);
            assert(self.pending(self.node(n).sons[i]));
        }
        if exists|i: int|
            0 <= i < self.node(n).sons.len() && #[trigger] self.pending(self.node(n).sons[i]) {
            let i = choose|i: int|
                0 <= i < self.node(n).sons.len() && #[trigger] self.pending(self.node(n).sons[i]);
            let s = self.node(n).sons[i];
            self.lemma_son(n, i);
            if !self.node(s).dirty {
                let x = choose|x: usize|
                    self.has(x) && #[trigger] self.under(x, s) && self.node(x).dirty;
                self.lemma_under_trans(x, s, n);
            }
        }
    }

    /// A part of the tree that is coherent is coherent in each of its branches.
    pub proof fn lemma_coherent_branch(self, n: usize, s: usize)
        requires
            self.shaped(),
            self.coherent_below(n),
            self.under(s, n),
        ensures
            self.coherent_below(s),
    {
        assert forall|x: usize|
            self.has(x) && self.under(x, s) && self.linked(x) implies #[trigger] self.announced(
            x,
        ) by {
            self.lemma_under_trans(x, s, n);
        }
    }

    /// Where no son has anything to deliver, folding changes nothing.
    pub proof fn lemma_folded_still(self, g: spec_fn(T, T) -> T, n: usize, k: nat)
        requires
            self.shaped(),
            self.has(n),
            !self.stirred(n),
            k <= self.node(n).sons.len(),
        ensures
            self.folded_upto(g, n, k) == self.node(n).data,
        decreases k,
    {
        self.lemma_stirred_by_sons(n);
        if k > 0 {
            self.lemma_folded_still(g, n, (k - 1) as nat);
            assert(!self.pending(self.node(n).sons[k - 1]));
        }
    }
}

/// Two tests that agree on a sequence filter it alike.
pub proof fn lemma_filter_agrees<A>(s: Seq<A>, p: spec_fn(A) -> bool, q: spec_fn(A) -> bool)
    requires
        forall|i: int| 0 <= i < s.len() ==> p(#[trigger] s[i]) == q(s[i]),
    ensures
        s.filter(p) == s.filter(q),
    decreases s.len(),
{
    reveal(Seq::filter);
    if s.len() > 0 {
        lemma_filter_agrees(s.drop_last(), p, q);
        assert(p(s[s.len() - 1]) == q(s[s.len() - 1]));
    }
}

/// A test that holds of a whole sequence filters nothing out.
pub proof fn lemma_filter_keeps_all<A>(s: Seq<A>, p: spec_fn(A) -> bool)
    requires
        forall|i: int| 0 <= i < s.len() ==> p(#[trigger] s[i]),
    ensures
        s.filter(p) == s,
    decreases s.len(),
{
    reveal(Seq::filter);
    if s.len() > 0 {
        lemma_filter_keeps_all(s.drop_last(), p);
        assert(p(s[s.len() - 1]));
        assert(s.drop_last().push(s.last()) =~= s);
    }
}

/// What passes a filter is what was there and meets the test.
pub proof fn lemma_filter_holds<A>(s: Seq<A>, p: spec_fn(A) -> bool, a: A)
    ensures
        s.filter(p).contains(a) == (s.contains(a) && p(a)),
{
    if s.filter(p).contains(a) {
        let i = s.filter(p).index_of(a);
        s.lemma_filter_pred(p, i);
        s.lemma_filter_contains_rev(p, a);
    }
    if s.contains(a) && p(a) {
        let i = s.index_of(a);
        s.lemma_filter_contains(p, i);
    }
}

} // verus!
