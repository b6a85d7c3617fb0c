use vstd::prelude::*;

pub mod decimal;
pub mod engine;
pub mod helper;
pub mod linked_list;
pub mod order;
pub mod queue;
pub mod ring_buffer;
pub mod shell;
pub mod sort;
pub mod stack;
pub mod tree;
pub mod vec_queue;
pub mod words;

verus! {

} // verus!
