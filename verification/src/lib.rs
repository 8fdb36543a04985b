//! A linked concurrent ring queue: an unbounded first-in-first-out queue of
//! non-zero 64-bit values, made of a chain of fixed-capacity ring queues.
//!
//! - [`flag_and_u63`] and [`node`] are the packed words that the rings are
//!   made of.
//! - [`atomics`] holds the read-modify-write primitives. Each takes an
//!   exclusive reference, so it runs as one indivisible step.
//! - [`crq`] is the ring queue: the steps of its protocol one by one, and
//!   whole `enqueue` and `dequeue` operations made of them.
//! - [`protocol`] states what holds of a ring, and of a chain of rings,
//!   after any sequence of steps, in whatever order producers and
//!   consumers take them.
//! - [`lcrq`] is the linked queue, and [`fifo`] what it is to one owner.

pub mod atomics;
pub mod crq;
pub mod fifo;
pub mod flag_and_u63;
pub mod lcrq;
pub mod node;
pub mod protocol;
