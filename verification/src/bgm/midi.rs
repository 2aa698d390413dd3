//! Telling MIDI files apart from song files.

use vstd::prelude::*;

use crate::bgm::de::cstring_at;
use crate::rw::{lemma_reader_cursor, IoError, ReadExt, Reader, SeekExt};
use vstd::utf8::{decode_utf8, encode_utf8, valid_utf8};

verus! {

/// The signature that a standard MIDI file starts with: "MThd".
pub open spec fn midi_magic() -> Seq<u8> {
    seq![0x4Du8, 0x54u8, 0x68u8, 0x64u8]
}

proof fn lemma_midi_magic()
    ensures
        encode_utf8("MThd"@) == midi_magic(),
{
    broadcast use vstd::utf8::is_ascii_chars_encode_utf8;

    reveal_strlit("MThd");
    assert(vstd::utf8::is_ascii_chars("MThd"@));
    assert(encode_utf8("MThd"@) =~= midi_magic());
}

/// Whether `file` holds a standard MIDI file: whether the text at its start, read as a C string
/// of at most four bytes, is "MThd". The read position is put back where it was; a text that is
/// not UTF-8 is an error, after which the position is past the four bytes (or at the end).
pub fn is_midi(file: &mut Reader) -> (r: Result<bool, IoError>)
    ensures
        final(file).input() == old(file).input(),
        valid_utf8(cstring_at(old(file).input(), 0, 4)) ==> r == Ok::<bool, IoError>(
            cstring_at(old(file).input(), 0, 4) == midi_magic(),
        ) && final(file).cursor() == old(file).cursor(),
        !valid_utf8(cstring_at(old(file).input(), 0, 4)) ==> r == Err::<bool, IoError>(IoError::InvalidData),
{
    broadcast use lemma_reader_cursor;

    let previous_pos = file.pos();
    file.seek(0);
    let text = file.read_cstring(4)?;
    file.seek(previous_pos as usize);
    let magic = "MThd".to_owned();
    let found = text == magic;
    proof {
        let bytes = cstring_at(old(file).input(), 0, 4);
        lemma_midi_magic();
        broadcast use vstd::utf8::encode_utf8_decode_utf8, vstd::utf8::decode_utf8_encode_utf8;

        if found {
            assert(encode_utf8(decode_utf8(bytes)) == bytes);
        }
        if bytes == midi_magic() {
            assert(decode_utf8(encode_utf8("MThd"@)) == "MThd"@);
        }
    }
    Ok(found)
}

} // verus!
