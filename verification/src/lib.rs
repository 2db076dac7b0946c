//! Modifier-map algebra for pinning a guest's CPU identity.
//!
//! A CPU configuration is modelled as a keyed collection of bit-level
//! overrides (a modifier map). This crate provides the model, the strip
//! engine that removes the entries shared verbatim by several maps, the
//! verify engine that checks an observed configuration against a template,
//! and a codec between a modifier map and its portable document form.

pub mod codec;
pub mod model;
pub mod strip;
pub mod verify;
