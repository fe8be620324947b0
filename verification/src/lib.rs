//! Generic data structures and algorithms: lists, hash maps, graphs, priority
//! queues and two sorting routines, each with a contract that Verus proves.

pub mod error;
pub mod list;
pub mod arraylist;
pub mod sorting;
pub mod bubblesort;
pub mod insertion_sort;
pub mod map;
mod chain;
pub mod hashmap;
mod store;
pub mod graph;
pub mod adjmat_graph;
pub mod set;
pub mod stack;
pub mod queue;
pub mod priority_queue;
pub mod heap;
pub mod tree;
pub mod arraytree;
