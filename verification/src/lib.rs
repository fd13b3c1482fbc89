use vstd::prelude::*;

pub mod connect4;
pub mod decode_base16k;
pub mod drone;
pub mod fish;
pub mod scan;
pub mod scoring;
pub mod xorshift;

verus! {
}
