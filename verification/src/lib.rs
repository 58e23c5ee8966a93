use vstd::prelude::*;

pub mod cbor;
pub mod color;
pub mod csil;
pub mod float;
pub mod jsontext;
pub mod laws;
pub mod list;
pub mod objects;
pub mod payload;
pub mod prompt;
pub mod roundtrip;
pub mod send;
pub mod steps;
pub mod text;
pub mod value;

verus! {
}
