//! A verifiable causal clock library.
//!
//! Independent peers in a network each advance their own dimension of a
//! sparse vector clock, merge what they learn from one another, and can hand
//! a third party enough evidence to check that a claimed clock transition was
//! computed by measured code: the clock's canonical fingerprint is bound to a
//! hardware attestation document.

pub mod accumulator;
pub mod clock;
pub mod codec;
pub mod innermsg;
pub mod nitro_clock;
pub mod ordinary_clock;
pub mod portal;
