//! A singly linked list whose nodes can be shared between several lists.
//!
//! Nodes live in a [`linked_list::NodeArena`] and are addressed by stable
//! handles, so one node (and the whole chain it reaches) can stand in two
//! independent lists at once; a structural change made through one list is
//! then visible through the other.

pub mod linked_list;
