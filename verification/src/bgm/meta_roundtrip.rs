//! What reading a song file gives back of the editor metadata written after the song.

use vstd::prelude::*;

use crate::bgm::de::{cstring_at, decode_bgm, decode_header, mamar_magic, mamar_magic_at, size_check, HeaderModel};
use crate::bgm::en::{finish_bgm, metadata_out, Out};
use crate::rw::{align_up, be32, cstr_bytes, cstring_field, field_at, lemma_cstr_len, overwrite, spec_align, zeros};

verus! {

/// Where the payload of the editor metadata starts when it follows a song of `len` bytes: past
/// the song, aligned to 8, and the 8-byte signature field.
pub open spec fn metadata_start(len: int) -> int {
    align_up(len, 8) + 8
}

/// The signature field holds "MAMAR" and then zeros.
proof fn lemma_magic_field()
    ensures
        cstring_field("MAMAR"@, 8) == mamar_magic() + zeros(3),
{
    reveal_strlit("MAMAR");
    let s = "MAMAR"@;
    assert(s.len() == 5);
    assert(s.drop_last().drop_last().drop_last().drop_last().drop_last() =~= Seq::<char>::empty());
    reveal_with_fuel(crate::rw::ascii_bytes, 6);
    assert(crate::rw::ascii_bytes(s) =~= mamar_magic());
    assert(cstring_field(s, 8) =~= mamar_magic() + zeros(3));
}

/// The bytes that writing the metadata leaves: the song, zeros up to a multiple of 8, the
/// signature field and the payload.
proof fn lemma_metadata_bytes(o: Out, payload: Seq<u8>)
    requires
        o.bytes.len() == o.pos,
        metadata_out(o, true, payload) is Ok,
    ensures
        ({
            let o4 = metadata_out(o, true, payload)->Ok_0;
            let q = align_up(o.pos, 8);
            &&& o4.bytes == o.bytes + zeros((q - o.pos) as nat) + (mamar_magic() + zeros(3)) + payload
            &&& o4.pos == o4.bytes.len()
        }),
{
    lemma_magic_field();
    let q = align_up(o.pos, 8);
    let f = mamar_magic() + zeros(3);
    let o1 = crate::bgm::en::align_out(o, 8)->Ok_0;
    assert(o1.bytes =~= o.bytes + zeros((q - o.pos) as nat));
    assert(o1.pos == q);
    let o2 = crate::bgm::en::emit(o1, f)->Ok_0;
    assert(o2.bytes =~= o1.bytes + f);
    let o3 = crate::bgm::en::emit(o2, payload)->Ok_0;
    assert(o3.bytes =~= o2.bytes + payload);
}

/// Editor metadata reads back from where it was written: after a song of `o.pos` bytes whose
/// header gives that size, writing the metadata with [`finish_bgm`] (which
/// [`Bgm::write_metadata`](crate::bgm::Bgm::write_metadata) does) leaves the payload at
/// [`metadata_start`], the size check of the header finds it there, reading the header gives
/// what it gave before with that position as where the metadata starts, and reading the song
/// reports that position whenever it succeeds.
pub proof fn law_metadata_read_back(o: Out, payload: Seq<u8>)
    requires
        0x24 <= o.pos,
        o.bytes.len() == o.pos,
        be32(o.bytes[4], o.bytes[5], o.bytes[6], o.bytes[7]) == o.pos,
        finish_bgm(o, true, payload) is Ok,
    ensures
        ({
            let s = finish_bgm(o, true, payload)->Ok_0.bytes;
            let p = metadata_start(o.pos);
            &&& s.len() == p + payload.len()
            &&& s.subrange(0, o.pos) == o.bytes
            &&& s.subrange(p, p + payload.len()) == payload
            &&& size_check(s, o.pos) == Ok::<Option<u64>, crate::bgm::de::Error>(Some(p as u64))
            &&& (decode_header(o.bytes) matches Ok(h) ==> decode_header(s) == Ok::<
                HeaderModel,
                crate::bgm::de::Error,
            >(
                HeaderModel {
                    name: h.name,
                    metadata_at: Some(p as u64),
                    variation_offsets: h.variation_offsets,
                    drums_offset: h.drums_offset,
                    drums_count: h.drums_count,
                    voices_offset: h.voices_offset,
                    voices_count: h.voices_count,
                },
            ))
            &&& forall|id: u32| #[trigger] decode_bgm(s, id) matches Ok((_, meta, _)) ==> meta == Some(p as u64)
        }),
{
    lemma_metadata_bytes(o, payload);
    let o4 = metadata_out(o, true, payload)->Ok_0;
    let s = o4.bytes;
    let q = align_up(o.pos, 8);
    let p = q + 8;
    assert(q >= o.pos && q < o.pos + 8);
    assert(s.len() == p + payload.len());
    assert(s.subrange(0, o.pos) =~= o.bytes);
    assert(s.subrange(p, p + payload.len()) =~= payload);
    assert(s.len() < 0x8A90);
    assert(s.len() % 0x1_0000_0000 == s.len());
    assert(spec_align(o.pos, 8) == q);
    let field = field_at(s, q, 8);
    assert(field =~= mamar_magic() + zeros(3));
    lemma_cstr_len(field, 5);
    assert(cstr_bytes(field) =~= mamar_magic());
    assert(cstring_at(s, q, 8) == mamar_magic());
    assert(mamar_magic_at(s, q));
    assert(size_check(s, o.pos) == Ok::<Option<u64>, crate::bgm::de::Error>(Some(p as u64)));
    assert forall|i: int| 0 <= i < o.pos implies s[i] == o.bytes[i] by {
        assert(s.subrange(0, o.pos)[i] == s[i]);
    }
    assert(s.subrange(0, 4) =~= o.bytes.subrange(0, 4));
    assert(field_at(s, 8, 4) =~= field_at(o.bytes, 8, 4));
    assert(cstring_at(s, 8, 4) == cstring_at(o.bytes, 8, 4));
    assert(o.bytes.len() % 0x1_0000_0000 == o.bytes.len());
    assert(size_check(o.bytes, o.pos) == Ok::<Option<u64>, crate::bgm::de::Error>(None));
    assert(be32(s[4], s[5], s[6], s[7]) == o.pos);
    assert(crate::bgm::de::padding_check(s, 12, 4) == crate::bgm::de::padding_check(o.bytes, 12, 4));
    assert(crate::bgm::de::padding_check(s, 17, 3) == crate::bgm::de::padding_check(o.bytes, 17, 3));
    assert(s[16] == o.bytes[16]);
    assert forall|k: int| 0x14 <= k < 0x24 implies s[k] == o.bytes[k] by {}
    let t = o.bytes;
    assert(Seq::new(4, |i: int| (crate::rw::be16(s[0x14 + 2 * i], s[0x15 + 2 * i]) * 4) % 0x1_0000) =~= Seq::new(
        4,
        |i: int| (crate::rw::be16(t[0x14 + 2 * i], t[0x15 + 2 * i]) * 4) % 0x1_0000,
    ));
}

} // verus!
