//! Encoding and decoding of Paper Mario's BGM (background music) format, with the
//! editing operations that Mamar performs on decoded songs.

pub mod bgm;
pub mod color;
pub mod history;
pub mod hot;
pub mod id;
pub mod interface;
pub mod rw;
pub mod sbn;

use vstd::prelude::*;

verus! {

} // verus!
