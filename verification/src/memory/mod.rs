//! Object memory: objects, address space and the table of written cards.
pub mod cards;
pub mod heap;
pub mod layout;
pub mod reservation;
