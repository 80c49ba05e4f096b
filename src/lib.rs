//! Wire-level messages of a Quake 3 era game protocol: NUL-free byte strings,
//! bounded info maps, the adaptive Huffman coder and packet framing.
use vstd::prelude::*;

pub mod huffman;
pub mod info;
pub mod protocol;
pub mod qstr;

verus! {

} // verus!
