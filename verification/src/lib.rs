//! Two verified linear containers — a singly linked list and a sentinel-based
//! doubly linked list — that both satisfy one shared, contract-bearing `List`
//! trait: push and pop at either end, indexed access, emptiness and sortedness
//! queries, and length tracking.

mod doubly;
mod laws;
mod list;
mod singly;

pub use doubly::DoublyLinkedList;
pub use doubly::DoublyLinkedNode;
pub use laws::drained_back;
pub use laws::drained_front;
pub use laws::lemma_pop_back_drains;
pub use laws::lemma_pop_front_drains;
pub use laws::lemma_push_back_run;
pub use laws::lemma_push_front_run;
pub use laws::lemma_pushed_back_appends;
pub use laws::lemma_sorted_trivial;
pub use laws::pushed_back;
pub use laws::pushed_front;
pub use list::List;
pub use list::ListError;
pub use list::sorted;
pub use singly::Node;
pub use singly::SinglyLinkedList;
