//! Files of the game's sound archive.

use vstd::prelude::*;

use crate::bgm::de::{bgm_shows, decode_bgm, Error};
use crate::bgm::Bgm;
use crate::id::IdGen;
use crate::rw::{cstr_bytes, field_at, IoError, ReadExt, Reader};

verus! {

/// The signature of a sound archive.
pub const MAGIC: &'static str = "SBN ";

/// Where the sound archive starts in the game's ROM.
pub const SBN_START: u64 = 0xF00000;

/// A file of the archive.
#[derive(Debug, Clone, PartialEq, Eq)]
pub struct File {
    pub name: String,
    pub data: Vec<u8>,
}

impl File {
    /// The signature at the start of the file: the text before the first NUL of its first
    /// four bytes.
    pub fn magic(&self) -> (r: Result<String, IoError>)
        ensures
            ({
                let n = if self.data@.len() < 4 { self.data@.len() as int } else { 4 };
                let text = cstr_bytes(field_at(self.data@, 0, n));
                &&& vstd::utf8::valid_utf8(text) ==> (r matches Ok(s) && s@ == vstd::utf8::decode_utf8(text))
                &&& !vstd::utf8::valid_utf8(text) ==> r == Err::<String, IoError>(IoError::InvalidData)
            }),
    {
        let mut f = Reader::new(self.data.as_slice());
        f.read_cstring(4)
    }

    /// Decodes the file as a song (see [`Bgm::from_bytes`]).
    pub fn as_bgm(&self, ids: &mut IdGen) -> (r: Result<(Bgm, Option<u64>), Error>)
        requires
            self.data@.len() <= usize::MAX / 2,
        ensures
            match decode_bgm(self.data@, old(ids).peek()) {
                Ok((m, meta, next)) => (r matches Ok((b, at)) && bgm_shows(self.data@, b, m) && at == meta)
                    && final(ids).peek() == next,
                Err(e) => r matches Err(e2) && e2 == e,
            },
    {
        Bgm::from_bytes(self.data.as_slice(), ids)
    }
}

} // verus!
