//! A Poseidon chip for `halo2_proofs`, over the base field of the Pallas curve.
//!
//! The chip lays out the Poseidon permutation with an $x^5$ S-box, one full round or two partial
//! rounds to a row, and a sponge on top of it.
//!
//! - [`permutation`] says what the permutation and a sponge are, over the arithmetic of [`field`]
//!   and [`linear`].
//! - [`config`] says which gates the chip has, in the terms of [`gate`] and [`column`], and
//!   [`configure`] adds them to a [`constraint_system`].
//! - [`plan`] says what the chip asks of a [`region`], under the names of [`label`], and which
//!   replies it may get; [`state`], [`chip`] and [`sponge`] ask for it.
//! - [`rows`] says what the gates demand of a row, [`laws`] that gates and instructions agree with
//!   the permutation, [`hash`] that they give a hash together, and [`witness`] that what is asked
//!   for can be had.
//! - [`injectivity`] says that the permutation merges no two states, by [`fermat`].
//! - [`array`] turns vectors into arrays.
//! - [`op_conversion`] holds the integer conversions of WebAssembly and evaluates them; it is no
//!   circuit.
pub mod array;
pub mod chip;
pub mod column;
pub mod config;
pub mod configure;
pub mod constraint_system;
pub mod fermat;
pub mod field;
pub mod gate;
pub mod hash;
pub mod injectivity;
pub mod label;
pub mod laws;
pub mod linear;
pub mod op_conversion;
pub mod permutation;
pub mod plan;
pub mod region;
pub mod rows;
pub mod sponge;
pub mod state;
pub mod witness;
