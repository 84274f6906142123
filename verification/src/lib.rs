//! Verified core of a committee-based randomness beacon: message types,
//! codeword dissemination with Merkle witnesses, and the counting rules of
//! the agreement phases.
use vstd::prelude::*;

pub mod text;
pub mod text_facts;
pub mod merkle;
pub mod pvss_agreement;
pub mod deliver;
pub mod codeword;
pub mod dissemination;
pub mod selection;
pub mod retrieve;
pub mod retrieval;
pub mod adversary;
pub mod committees;
pub mod keys;
pub mod wire;
pub mod communication;
pub mod aggregate;
pub mod beacon;
pub mod phases;
pub mod accum;
pub mod gba;
pub mod generic;
pub mod message;
pub mod reactor;
pub mod buffer;
pub mod node;

verus! {
}
