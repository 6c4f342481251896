//! A merge tree: every writer has a slot of its own, and the aggregate is
//! assembled only when someone asks for it.
//!
//! Writers only ever touch the node they own; the aggregate is rebuilt on
//! demand, when someone reads the root.
//!
//! # Contract
//!
//! `merge` and `identity` must form a commutative monoid over `T`:
//!
//!  * **identity**: `merge(&mut x, &identity)` leaves `x` unchanged.
//!  * **associative** and **commutative**: sons are folded in an order that
//!    depends on thread scheduling, so any order must give the same answer.
//!
//! A node's data is the **delta not yet folded into its father**, not a local
//! copy of the aggregate. A fresh son starts at `identity`, and a node is reset
//! to `identity` as soon as its data has been folded upward.
//!
//! # Layout
//!
//!  * `handle`, `tree`, `merge`, `marks`, `outline`: the tree and its handles,
//!    for one owner at a time.
//!  * `walk`, `climb`, `probe`: the same operations cut into single touches of
//!    shared memory, for threads that share a tree.
//!  * `crew`: threads at work on one tree, their steps in any order.
//!  * `state`, `sweep`, `interleave`, `walk_facts`, `steps`, `strides`, `ends`: the
//!    tree and the threads as mathematics, why every step keeps them sound, and why
//!    every operation comes to its end with what it is to do.
//!  * `monoid`, `totals`, `laws`, `histories`, `runs`, `closed`: what the tree adds up
//!    to, and what the operations promise together.
//!  * `effects`, `moves`, `counts`: what each operation and each step changes and what it
//!    leaves alone, and how handles and nodes are counted.
//!  * `heard`: what a read takes in while others write.
pub mod climb;
pub mod closed;
pub mod counts;
pub mod crew;
pub mod effects;
pub mod ends;
pub mod handle;
pub mod heard;
pub mod histories;
pub mod interleave;
pub mod laws;
pub mod marks;
pub mod merge;
pub mod monoid;
pub mod moves;
pub mod outline;
pub mod probe;
pub mod runs;
pub mod state;
pub mod steps;
pub mod strides;
pub mod sweep;
pub mod totals;
pub mod tree;
pub mod walk;
pub mod walk_facts;

pub use crate::climb::owes;
pub use crate::climb::retires;
pub use crate::climb::stays;
pub use crate::climb::Climb;
pub use crate::crew::Crew;
pub use crate::handle::Mergex;
pub use crate::marks::Marks;
pub use crate::outline::Outline;
pub use crate::probe::Glance;
pub use crate::probe::Probe;
pub use crate::tree::Tree;
pub use crate::walk::Action;
pub use crate::walk::Reply;
pub use crate::walk::Walk;
