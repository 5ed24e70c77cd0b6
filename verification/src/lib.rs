//! Verified solutions to a handful of classic data-structure exercises.
//!
//! The centrepiece is [`tree::RandomTree`], an unbalanced binary search tree
//! whose nodes cache the size of their subtrees, so that an entry can be drawn
//! uniformly at random by one weighted walk from the root. [`reservoir`] draws
//! from any sequence in a single pass instead. Both take their randomness
//! from the generator in [`chance`], and [`counting`] is where their fairness
//! is counted out.
//!
//! The other modules stand alone: a shelter that gives out the animal that
//! has waited longest ([`shelter`]), a screen of one bit to the pixel
//! ([`screen`], over [`bitref`]), a linked list kept in a table ([`slist`]),
//! and the test whether a text can be shuffled into a palindrome
//! ([`palindrome`]).
pub mod bitref;
pub mod chance;
pub mod counting;
pub mod node;
pub mod order;
pub mod palindrome;
pub mod reservoir;
pub mod screen;
pub mod shelter;
pub mod slist;
pub mod traversal;
pub mod tree;
