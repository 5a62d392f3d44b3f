//! Linked-list containers with machine-checked contracts: a FIFO queue, a
//! doubly-linked list over an index arena, a two-stack finger deque and an
//! immutable list whose nodes are shared between lists.
pub mod fifth;
pub mod fourth;
pub mod silly1;
pub mod third_with_arc;
