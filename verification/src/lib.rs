//! Linked data structures with verified contracts: a capacity-bounded
//! LRU cache built on an index arena, together with the simpler
//! collaborators that share its techniques (stack, queues, deque, graph).

pub mod deque;
pub mod graph;
pub mod linked_queue;
pub mod lru_cache;
pub mod queue;
pub mod stack;

pub use deque::Deque;
pub use linked_queue::List;
pub use lru_cache::LRUCache;
pub use queue::Queue;
pub use stack::Stack;
