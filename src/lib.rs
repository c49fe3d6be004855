//! Which subsets of an inventory of rectangular pieces fit, without overlap, inside a
//! container, and which three disjoint fitting subsets together use up the inventory.
//!
//! - `rect`: pieces, placed pieces, collision and compaction towards the origin.
//! - `config`: the container, the inventory and each piece's orientation set.
//! - `placement`: the shelf placement of one ordering, and the search over orientations
//!   and orderings of a subset.
//! - `combination`: subsets of the inventory, their dedup keys, and their expansion over
//!   class-mates of equal shape.
//! - `matching`: three-layer coverings of the inventory.
//! - `text`: reading a combination back from its stored line of ids.
//! - `steps`: the stages of a run, from subset generation to the final ranking.
//! - `combinatorics`: the enumerations, sorts and text joins taken from itertools.
//! - `gcd`: Euclid's greatest common divisor.

pub mod combination;
pub mod combinatorics;
pub mod config;
pub mod gcd;
pub mod matching;
pub mod placement;
pub mod rect;
pub mod settings;
pub mod steps;
pub mod text;
