//! A consistent hashing ring: routes string keys to a changing set of
//! named members, so that a change of membership moves few keys.
pub mod key;
pub mod laws;
pub mod model;
pub mod outside;
pub mod ring;

pub use key::elt_key;
pub use ring::{slice_contains_member, Consistent, Error};
