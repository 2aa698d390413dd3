//! What decoding gives back of a whole song file that encoding wrote: the header, the tables of
//! drums and instruments, the variations' entries and the track lists that their subsegments
//! name.

use vstd::prelude::*;

use crate::bgm::de::{
    bgm_magic, cstring_at, decode_bgm, decode_drums, decode_header, decode_instruments, decode_variations,
    padding_check, size_check, special_unknown, BgmModel, Error, HeaderModel, ListModels,
};
use crate::bgm::roundtrip::{law_drum_roundtrip, law_instrument_roundtrip, law_segment_roundtrip, plain_segment};
use crate::bgm::{drum_bytes, drum_from_bytes, instrument_bytes, instrument_from_bytes, Drum, Instrument, Segment};
use crate::bgm::en::{
    align_out, drums_bytes, emit, emit_at, encode_bgm, finish_bgm, encode_header, encode_list, encode_pending, encode_segments,
    encode_table, encode_variation, encode_variations, file_size, insertion_point, instruments_bytes,
    lemma_drums_bytes_len, lemma_instruments_bytes_len, list_offset, pending_key, quarter, segment_bytes,
    sort_pending, EncodeFault, Out, Pending,
};
use crate::bgm::list_roundtrip::{
    add_names, lemma_decode_tracks, lemma_encode_list, list_bytes, list_names, plain_track, seqs_bytes, track_read_back,
};
use crate::bgm::de::{decode_segment, decode_segments, decode_tracks, find_pos, model_positions, TrackModel};
use crate::bgm::{segment_with_id, TrackList, TrackListId, NUM_TRACKS};
use crate::bgm::mamar::names_for;
use crate::bgm::meta_roundtrip::{law_metadata_read_back, metadata_start};
use crate::rw::{align_up, IoError};
use crate::id::next_id;
use crate::bgm::{Bgm, NUM_VARIATIONS};
use crate::rw::{be16, be32, cstr_bytes, field_at, lemma_cstr_len, lemma_u16_bytes, lemma_u32_bytes, overwrite, u16_bytes, u32_bytes, zero_run, zeros};
use vstd::utf8::encode_utf8;

verus! {

/// The four bytes of a song's name field: the name's UTF-8 bytes, then zeros.
pub open spec fn name_field(name: Seq<char>) -> Seq<u8> {
    let b = encode_utf8(name);
    b + zeros((4 - b.len()) as nat)
}

/// Whether a song holds no variations and no byte ranges to copy through.
pub open spec fn without_variations(b: Bgm) -> bool {
    &&& b.wf()
    &&& forall|v: int| 0 <= v < NUM_VARIATIONS ==> #[trigger] b.variations@[v] is None
    &&& b.unknowns@.len() == 0
}

/// The header of a song without variations: signature, size, name field, the variation count,
/// empty variation offsets, and the offsets (in units of 4 bytes) and counts of the tables.
pub open spec fn header_bytes(b: Bgm, size: u32, drums_at: u16, instruments_at: u16) -> Seq<u8> {
    bgm_magic() + u32_bytes(size) + name_field(b.name@) + seq![0u8, 0u8, 0u8, 0u8, 4u8, 0u8, 0u8, 0u8] + zeros(8)
        + u16_bytes(drums_at) + u16_bytes((b.drums@.len() % 0x1_0000) as u16) + u16_bytes(instruments_at)
        + u16_bytes((b.instruments@.len() % 0x1_0000) as u16)
}

/// Where the instrument table of a song without variations starts.
pub open spec fn instruments_start(b: Bgm) -> int {
    (0x24 + 12 * b.drums@.len()) as int
}

/// The length of the file that a song without variations is written as.
pub open spec fn song_size(b: Bgm) -> int {
    (0x24 + 12 * b.drums@.len() + 8 * b.instruments@.len()) as int
}

/// The bytes that a song without variations is written as.
pub open spec fn song_bytes(b: Bgm) -> Seq<u8> {
    header_bytes(
        b,
        (song_size(b) % 0x1_0000_0000) as u32,
        if b.drums@.len() > 0 { quarter(0x24) } else { 0 },
        if b.instruments@.len() > 0 { quarter(instruments_start(b)) } else { 0 },
    ) + drums_bytes(b.drums@) + instruments_bytes(b.instruments@)
}

proof fn lemma_header_len(b: Bgm, size: u32, d: u16, i: u16)
    requires
        encode_utf8(b.name@).len() <= 4,
    ensures
        header_bytes(b, size, d, i).len() == 0x24,
{
}

proof fn lemma_set_drums_at(b: Bgm, size: u32, i: u16, rest: Seq<u8>)
    requires
        encode_utf8(b.name@).len() <= 4,
    ensures
        overwrite(header_bytes(b, size, 0, i) + rest, 0x1C, u16_bytes(quarter(0x24))) == header_bytes(
            b,
            size,
            quarter(0x24),
            i,
        ) + rest,
{
    assert(overwrite(header_bytes(b, size, 0, i) + rest, 0x1C, u16_bytes(quarter(0x24))) =~= header_bytes(
        b,
        size,
        quarter(0x24),
        i,
    ) + rest);
}

proof fn lemma_set_instruments_at(b: Bgm, size: u32, d: u16, i: u16, rest: Seq<u8>)
    requires
        encode_utf8(b.name@).len() <= 4,
    ensures
        overwrite(header_bytes(b, size, d, 0) + rest, 0x20, u16_bytes(i)) == header_bytes(b, size, d, i) + rest,
{
    assert(overwrite(header_bytes(b, size, d, 0) + rest, 0x20, u16_bytes(i)) =~= header_bytes(b, size, d, i) + rest);
}

proof fn lemma_set_size(b: Bgm, size: u32, d: u16, i: u16, rest: Seq<u8>)
    requires
        encode_utf8(b.name@).len() <= 4,
    ensures
        overwrite(header_bytes(b, 0, d, i) + rest, 4, u32_bytes(size)) == header_bytes(b, size, d, i) + rest,
{
    assert(overwrite(header_bytes(b, 0, d, i) + rest, 4, u32_bytes(size)) =~= header_bytes(b, size, d, i) + rest);
}

proof fn lemma_append(buf: Seq<u8>, d: Seq<u8>)
    ensures
        overwrite(buf, buf.len() as int, d) == buf + d,
{
    assert(overwrite(buf, buf.len() as int, d) =~= buf + d);
}

proof fn lemma_encode_header(b: Bgm)
    requires
        b.wf(),
        encode_utf8(b.name@).len() <= 4,
    ensures
        encode_header(b, Out { bytes: Seq::empty(), pos: 0 }) == Ok::<Out, crate::rw::IoError>(
            Out { bytes: header_bytes(b, 0, 0, 0), pos: 0x24 },
        ),
{
    let nb = encode_utf8(b.name@);
    let x = bgm_magic() + u32_bytes(0) + nb;
    let o1 = Out { bytes: overwrite(Seq::empty(), 0, x), pos: x.len() as int };
    assert(o1.bytes =~= x);
    let y = seq![0u8, 0u8, 0u8, 0u8, (b.variations@.len() % 256) as u8, 0u8, 0u8, 0u8] + zeros(8) + u16_bytes(0)
        + u16_bytes((b.drums@.len() % 0x1_0000) as u16) + u16_bytes(0) + u16_bytes(
        (b.instruments@.len() % 0x1_0000) as u16,
    );
    assert(overwrite(o1.bytes, 0x0C, y) =~= header_bytes(b, 0, 0, 0));
}

proof fn lemma_no_variations(b: Bgm, o: Out, v: int)
    requires
        without_variations(b),
        0 <= v,
    ensures
        encode_variations(b, o, v, Seq::<Pending>::empty()) == Ok::<(Out, Seq<Pending>), crate::rw::IoError>(
            (o, Seq::empty()),
        ),
    decreases b.variations@.len() - v,
{
    if v < b.variations@.len() {
        lemma_no_variations(b, o, v + 1);
    }
}

/// The offset field of the drum table (in units of 4 bytes): after the header, if there are drums.
pub open spec fn drums_at(b: Bgm) -> u16 {
    if b.drums@.len() > 0 { quarter(0x24) } else { 0 }
}

/// The offset field of the instrument table, if there are instruments.
pub open spec fn instruments_at(b: Bgm) -> u16 {
    if b.instruments@.len() > 0 { quarter(instruments_start(b)) } else { 0 }
}

proof fn lemma_drum_table(b: Bgm)
    requires
        encode_utf8(b.name@).len() <= 4,
        instruments_start(b) < 0x4_0000,
    ensures
        encode_table(Out { bytes: header_bytes(b, 0, 0, 0), pos: 0x24 }, 0x1C, drums_bytes(b.drums@)) == Ok::<
            Out,
            crate::rw::IoError,
        >(Out { bytes: header_bytes(b, 0, drums_at(b), 0) + drums_bytes(b.drums@), pos: instruments_start(b) }),
{
    let db = drums_bytes(b.drums@);
    lemma_drums_bytes_len(b.drums@);
    lemma_header_len(b, 0, 0, 0);
    lemma_header_len(b, 0, drums_at(b), 0);
    if b.drums@.len() > 0 {
        lemma_set_drums_at(b, 0, 0, Seq::empty());
        assert(header_bytes(b, 0, 0, 0) + Seq::<u8>::empty() =~= header_bytes(b, 0, 0, 0));
        assert(header_bytes(b, 0, drums_at(b), 0) + Seq::<u8>::empty() =~= header_bytes(b, 0, drums_at(b), 0));
        lemma_append(header_bytes(b, 0, drums_at(b), 0), db);
    } else {
        assert(header_bytes(b, 0, drums_at(b), 0) + db =~= header_bytes(b, 0, 0, 0));
    }
}

proof fn lemma_instrument_table(b: Bgm)
    requires
        encode_utf8(b.name@).len() <= 4,
        instruments_start(b) < 0x4_0000,
        b.instruments@.len() < 0x1_0000,
    ensures
        encode_table(
            Out { bytes: header_bytes(b, 0, drums_at(b), 0) + drums_bytes(b.drums@), pos: instruments_start(b) },
            0x20,
            instruments_bytes(b.instruments@),
        ) == Ok::<Out, crate::rw::IoError>(
            Out {
                bytes: header_bytes(b, 0, drums_at(b), instruments_at(b)) + drums_bytes(b.drums@) + instruments_bytes(
                    b.instruments@,
                ),
                pos: song_size(b),
            },
        ),
{
    let db = drums_bytes(b.drums@);
    let ib = instruments_bytes(b.instruments@);
    lemma_drums_bytes_len(b.drums@);
    lemma_instruments_bytes_len(b.instruments@);
    lemma_header_len(b, 0, drums_at(b), 0);
    lemma_header_len(b, 0, drums_at(b), instruments_at(b));
    if b.instruments@.len() > 0 {
        assert(instruments_start(b) % 4 == 0);
        lemma_set_instruments_at(b, 0, drums_at(b), instruments_at(b), db);
        lemma_append(header_bytes(b, 0, drums_at(b), instruments_at(b)) + db, ib);
    } else {
        assert(header_bytes(b, 0, drums_at(b), instruments_at(b)) + db + ib =~= header_bytes(b, 0, drums_at(b), 0)
            + db);
    }
}

proof fn lemma_size(b: Bgm)
    requires
        encode_utf8(b.name@).len() <= 4,
        b.name@ != "117 "@,
        b.name@ != "322 "@,
    ensures
        emit_at(
            Out {
                bytes: header_bytes(b, 0, drums_at(b), instruments_at(b)) + drums_bytes(b.drums@) + instruments_bytes(
                    b.instruments@,
                ),
                pos: song_size(b),
            },
            4,
            u32_bytes(file_size(b, song_size(b))),
        ) == Ok::<Out, crate::rw::IoError>(Out { bytes: song_bytes(b), pos: song_size(b) }),
{
    let db = drums_bytes(b.drums@);
    let ib = instruments_bytes(b.instruments@);
    let size = (song_size(b) % 0x1_0000_0000) as u32;
    assert(file_size(b, song_size(b)) == size);
    lemma_set_size(b, size, drums_at(b), instruments_at(b), db + ib);
    assert(header_bytes(b, 0, drums_at(b), instruments_at(b)) + db + ib =~= header_bytes(
        b,
        0,
        drums_at(b),
        instruments_at(b),
    ) + (db + ib));
    assert(header_bytes(b, size, drums_at(b), instruments_at(b)) + (db + ib) =~= song_bytes(b));
}

/// Encoding a song without variations writes [`song_bytes`] and stores no track names.
#[verifier::rlimit(40)]
pub proof fn lemma_encode_without_variations(b: Bgm)
    requires
        without_variations(b),
        encode_utf8(b.name@).len() <= 4,
        b.name@ != "117 "@,
        b.name@ != "322 "@,
        instruments_start(b) < 0x4_0000,
        b.instruments@.len() < 0x1_0000,
    ensures
        encode_bgm(b, Out { bytes: Seq::empty(), pos: 0 }) == Ok::<
            (Out, Map<u16, Seq<Seq<char>>>),
            crate::bgm::en::EncodeFault,
        >((Out { bytes: song_bytes(b), pos: song_size(b) }, Map::empty())),
{
    let o3 = Out {
        bytes: header_bytes(b, 0, drums_at(b), instruments_at(b)) + drums_bytes(b.drums@) + instruments_bytes(
            b.instruments@,
        ),
        pos: song_size(b),
    };
    lemma_encode_header(b);
    lemma_drum_table(b);
    lemma_instrument_table(b);
    assert(Seq::new(b.unknowns@.len(), |i: int| Pending::Unknown { index: i }) =~= Seq::<Pending>::empty());
    lemma_no_variations(b, o3, 0);
    assert(sort_pending(b, Seq::<Pending>::empty(), 0, Seq::empty()) == Seq::<Pending>::empty());
    lemma_size(b);
}

proof fn lemma_drums_bytes_at(ds: Seq<Drum>, i: int)
    requires
        0 <= i < ds.len(),
    ensures
        drums_bytes(ds).subrange(12 * i, 12 * i + 12) == drum_bytes(ds[i]),
    decreases ds.len(),
{
    lemma_drums_bytes_len(ds.drop_last());
    if i < ds.len() - 1 {
        lemma_drums_bytes_at(ds.drop_last(), i);
        assert(drums_bytes(ds).subrange(12 * i, 12 * i + 12) =~= drums_bytes(ds.drop_last()).subrange(
            12 * i,
            12 * i + 12,
        ));
    } else {
        assert(drums_bytes(ds).subrange(12 * i, 12 * i + 12) =~= drum_bytes(ds[i]));
    }
}

proof fn lemma_instruments_bytes_at(is: Seq<Instrument>, i: int)
    requires
        0 <= i < is.len(),
    ensures
        instruments_bytes(is).subrange(8 * i, 8 * i + 8) == instrument_bytes(is[i]),
    decreases is.len(),
{
    lemma_instruments_bytes_len(is.drop_last());
    if i < is.len() - 1 {
        lemma_instruments_bytes_at(is.drop_last(), i);
        assert(instruments_bytes(is).subrange(8 * i, 8 * i + 8) =~= instruments_bytes(is.drop_last()).subrange(
            8 * i,
            8 * i + 8,
        ));
    } else {
        assert(instruments_bytes(is).subrange(8 * i, 8 * i + 8) =~= instrument_bytes(is[i]));
    }
}

/// Whether a song's name is written whole into its four-byte field and read back from it: at
/// most four bytes of UTF-8, none of them NUL, and not the name of one of the three songs of
/// the game whose files decoding copies a byte range of.
pub open spec fn name_roundtrips(name: Seq<char>) -> bool {
    let b = encode_utf8(name);
    &&& b.len() <= 4
    &&& forall|i: int| 0 <= i < b.len() ==> b[i] != 0
    &&& name_field(name) != seq![0x31u8, 0x36u8, 0x39u8, 0x20u8]
    &&& name_field(name) != seq![0x31u8, 0x31u8, 0x37u8, 0x20u8]
    &&& name_field(name) != seq![0x33u8, 0x32u8, 0x32u8, 0x20u8]
}

proof fn lemma_special_names(name: Seq<char>)
    requires
        name_roundtrips(name),
    ensures
        name != "117 "@,
        name != "322 "@,
{
    broadcast use vstd::utf8::is_ascii_chars_encode_utf8;
    reveal_strlit("117 ");
    reveal_strlit("322 ");
    if name == "117 "@ {
        assert(vstd::utf8::is_ascii_chars(name));
        assert(encode_utf8(name).len() == 4);
        assert(name_field(name) =~= seq![0x31u8, 0x31u8, 0x37u8, 0x20u8]);
    }
    if name == "322 "@ {
        assert(vstd::utf8::is_ascii_chars(name));
        assert(encode_utf8(name).len() == 4);
        assert(name_field(name) =~= seq![0x33u8, 0x32u8, 0x32u8, 0x20u8]);
    }
}

proof fn lemma_name_read(name: Seq<char>, s: Seq<u8>)
    requires
        name_roundtrips(name),
        s.len() >= 12,
        s.subrange(8, 12) == name_field(name),
    ensures
        cstring_at(s, 8, 4) == encode_utf8(name),
{
    let b = encode_utf8(name);
    let f = field_at(s, 8, 4);
    assert(f =~= name_field(name));
    lemma_cstr_len(f, b.len() as int);
    assert(cstr_bytes(f) =~= b);
}

/// The fields of a header without variations, byte by byte.
#[verifier::rlimit(40)]
proof fn lemma_header_fields(b: Bgm, size: u32, da: u16, ia: u16)
    requires
        encode_utf8(b.name@).len() <= 4,
    ensures
        ({
            let h = header_bytes(b, size, da, ia);
            &&& h.len() == 0x24
            &&& h.subrange(0, 4) == bgm_magic()
            &&& h.subrange(4, 8) == u32_bytes(size)
            &&& h.subrange(8, 12) == name_field(b.name@)
            &&& h.subrange(12, 0x1C) == seq![0u8, 0u8, 0u8, 0u8, 4u8, 0u8, 0u8, 0u8] + zeros(8)
            &&& h.subrange(0x1C, 0x1E) == u16_bytes(da)
            &&& h.subrange(0x1E, 0x20) == u16_bytes((b.drums@.len() % 0x1_0000) as u16)
            &&& h.subrange(0x20, 0x22) == u16_bytes(ia)
            &&& h.subrange(0x22, 0x24) == u16_bytes((b.instruments@.len() % 0x1_0000) as u16)
        }),
{
    let h = header_bytes(b, size, da, ia);
    lemma_header_len(b, size, da, ia);
    assert(h.subrange(0, 4) =~= bgm_magic());
    assert(h.subrange(4, 8) =~= u32_bytes(size));
    assert(h.subrange(8, 12) =~= name_field(b.name@));
    assert(h.subrange(12, 0x1C) =~= seq![0u8, 0u8, 0u8, 0u8, 4u8, 0u8, 0u8, 0u8] + zeros(8));
    assert(h.subrange(0x1C, 0x1E) =~= u16_bytes(da));
    assert(h.subrange(0x1E, 0x20) =~= u16_bytes((b.drums@.len() % 0x1_0000) as u16));
    assert(h.subrange(0x20, 0x22) =~= u16_bytes(ia));
    assert(h.subrange(0x22, 0x24) =~= u16_bytes((b.instruments@.len() % 0x1_0000) as u16));
}

/// What a header holds, read from the fields it is made of.
proof fn lemma_header_read(s: Seq<u8>, name: Seq<char>, size: u32, da: u16, d: u16, ia: u16, n: u16)
    requires
        s.len() >= 0x24,
        s.subrange(0, 4) == bgm_magic(),
        s.subrange(4, 8) == u32_bytes(size),
        s.subrange(8, 12) == name_field(name),
        s.subrange(12, 0x1C) == seq![0u8, 0u8, 0u8, 0u8, 4u8, 0u8, 0u8, 0u8] + zeros(8),
        s.subrange(0x1C, 0x1E) == u16_bytes(da),
        s.subrange(0x1E, 0x20) == u16_bytes(d),
        s.subrange(0x20, 0x22) == u16_bytes(ia),
        s.subrange(0x22, 0x24) == u16_bytes(n),
    ensures
        be32(s[4], s[5], s[6], s[7]) == size,
        zero_run(s, 12, 4),
        s[16] == 4,
        zero_run(s, 17, 3),
        forall|i: int| 0 <= i < 8 ==> #[trigger] s[0x14 + i] == 0,
        be16(s[0x1C], s[0x1D]) == da,
        be16(s[0x1E], s[0x1F]) == d,
        be16(s[0x20], s[0x21]) == ia,
        be16(s[0x22], s[0x23]) == n,
{
    lemma_u32_bytes(size);
    lemma_u16_bytes(da);
    lemma_u16_bytes(d);
    lemma_u16_bytes(ia);
    lemma_u16_bytes(n);
    let z = seq![0u8, 0u8, 0u8, 0u8, 4u8, 0u8, 0u8, 0u8] + zeros(8);
    assert forall|i: int| 0 <= i < 16 implies s[12 + i] == z[i] by {
        assert(s.subrange(12, 0x1C)[i] == s[12 + i]);
    }
    assert(s[4] == s.subrange(4, 8)[0] && s[5] == s.subrange(4, 8)[1] && s[6] == s.subrange(4, 8)[2] && s[7]
        == s.subrange(4, 8)[3]);
    assert(s[0x1C] == s.subrange(0x1C, 0x1E)[0] && s[0x1D] == s.subrange(0x1C, 0x1E)[1]);
    assert(s[0x1E] == s.subrange(0x1E, 0x20)[0] && s[0x1F] == s.subrange(0x1E, 0x20)[1]);
    assert(s[0x20] == s.subrange(0x20, 0x22)[0] && s[0x21] == s.subrange(0x20, 0x22)[1]);
    assert(s[0x22] == s.subrange(0x22, 0x24)[0] && s[0x23] == s.subrange(0x22, 0x24)[1]);
    assert forall|i: int| 0 <= i < 4 implies #[trigger] s[12 + i] == 0 by {
        assert(s[12 + i] == z[i]);
    }
    assert(s[16int] == z[4]);
    assert forall|i: int| 0 <= i < 3 implies #[trigger] s[17 + i] == 0 by {
        assert(s[12 + (5 + i)] == z[5 + i]);
    }
    assert forall|i: int| 0 <= i < 8 implies #[trigger] s[0x14 + i] == 0 by {
        assert(s[12 + (8 + i)] == z[8 + i]);
    }
}

/// The fields of the header of [`song_bytes`], byte by byte.
#[verifier::rlimit(80)]
#[verifier::spinoff_prover]
proof fn lemma_song_header_fields(b: Bgm)
    requires
        without_variations(b),
        encode_utf8(b.name@).len() <= 4,
        instruments_start(b) < 0x4_0000,
        b.instruments@.len() < 0x1_0000,
    ensures
        ({
            let s = song_bytes(b);
            &&& s.len() == song_size(b)
            &&& s.subrange(0, 4) == bgm_magic()
            &&& be32(s[4], s[5], s[6], s[7]) == song_size(b)
            &&& s.subrange(8, 12) == name_field(b.name@)
            &&& zero_run(s, 12, 4)
            &&& s[16] == 4
            &&& zero_run(s, 17, 3)
            &&& forall|i: int| 0 <= i < 8 ==> #[trigger] s[0x14 + i] == 0
            &&& be16(s[0x1C], s[0x1D]) * 4 == if b.drums@.len() > 0 { 0x24int } else { 0int }
            &&& be16(s[0x1E], s[0x1F]) == b.drums@.len()
            &&& be16(s[0x20], s[0x21]) * 4 == if b.instruments@.len() > 0 { instruments_start(b) } else { 0int }
            &&& be16(s[0x22], s[0x23]) == b.instruments@.len()
        }),
{
    let s = song_bytes(b);
    let size = (song_size(b) % 0x1_0000_0000) as u32;
    let h = header_bytes(b, size, drums_at(b), instruments_at(b));
    lemma_drums_bytes_len(b.drums@);
    lemma_instruments_bytes_len(b.instruments@);
    lemma_header_fields(b, size, drums_at(b), instruments_at(b));
    assert(s.subrange(0, 0x24) =~= h);
    assert(s.subrange(0, 4) =~= h.subrange(0, 4));
    assert(s.subrange(4, 8) =~= h.subrange(4, 8));
    assert(s.subrange(8, 12) =~= h.subrange(8, 12));
    assert(s.subrange(12, 0x1C) =~= h.subrange(12, 0x1C));
    assert(s.subrange(0x1C, 0x1E) =~= h.subrange(0x1C, 0x1E));
    assert(s.subrange(0x1E, 0x20) =~= h.subrange(0x1E, 0x20));
    assert(s.subrange(0x20, 0x22) =~= h.subrange(0x20, 0x22));
    assert(s.subrange(0x22, 0x24) =~= h.subrange(0x22, 0x24));
    lemma_header_read(
        s,
        b.name@,
        size,
        drums_at(b),
        (b.drums@.len() % 0x1_0000) as u16,
        instruments_at(b),
        (b.instruments@.len() % 0x1_0000) as u16,
    );
    assert(instruments_start(b) % 4 == 0);
}

/// Reading a header whose fields are those of a song whose only variation, if any, is the
/// first, at `v0`.
#[verifier::rlimit(40)]
proof fn lemma_decode_header(
    s: Seq<u8>,
    name: Seq<char>,
    offs: Seq<int>,
    d: int,
    doff: int,
    n: int,
    ioff: int,
    meta: Option<u64>,
)
    requires
        name_roundtrips(name),
        0x24 <= s.len(),
        s.subrange(0, 4) == bgm_magic(),
        size_check(s, be32(s[4], s[5], s[6], s[7])) == Ok::<Option<u64>, Error>(meta),
        s.subrange(8, 12) == name_field(name),
        zero_run(s, 12, 4),
        s[16] == 4,
        zero_run(s, 17, 3),
        offs.len() == NUM_VARIATIONS,
        forall|k: int| 0 <= k < NUM_VARIATIONS ==> (be16(s[0x14 + 2 * k], s[0x15 + 2 * k]) * 4) % 0x1_0000 == #[trigger] offs[k],
        be16(s[0x1C], s[0x1D]) * 4 == doff,
        be16(s[0x1E], s[0x1F]) == d,
        be16(s[0x20], s[0x21]) * 4 == ioff,
        be16(s[0x22], s[0x23]) == n,
    ensures
        decode_header(s) == Ok::<HeaderModel, Error>(
            HeaderModel {
                name,
                metadata_at: meta,
                variation_offsets: offs,
                drums_offset: doff,
                drums_count: d,
                voices_offset: ioff,
                voices_count: n,
            },
        ),
{
    broadcast use vstd::utf8::encode_utf8_valid_utf8, vstd::utf8::encode_utf8_decode_utf8;
    lemma_name_read(name, s);
    assert(padding_check(s, 12, 4) == Ok::<(), Error>(()));
    assert(padding_check(s, 17, 3) == Ok::<(), Error>(()));
    let read = Seq::new(4, |i: int| (be16(s[0x14 + 2 * i], s[0x15 + 2 * i]) * 4) % 0x1_0000);
    assert(read =~= offs);
}

proof fn lemma_decode_drums(b: Bgm, s: Seq<u8>)
    requires
        s.len() >= instruments_start(b),
        s.subrange(0x24, instruments_start(b)) == drums_bytes(b.drums@),
    ensures
        decode_drums(s, if b.drums@.len() > 0 { 0x24int } else { 0int }, b.drums@.len() as int) == Ok::<Seq<Drum>, Error>(
            b.drums@,
        ),
{
    let d = b.drums@.len() as int;
    let db = drums_bytes(b.drums@);
    lemma_drums_bytes_len(b.drums@);
    if d > 0 {
        let got = Seq::new(d as nat, |i: int| drum_from_bytes(s.subrange(0x24 + 12 * i, 0x24 + 12 * i + 12)));
        assert forall|i: int| 0 <= i < d implies got[i] == b.drums@[i] by {
            lemma_drums_bytes_at(b.drums@, i);
            assert(s.subrange(0x24 + 12 * i, 0x24 + 12 * i + 12) =~= db.subrange(12 * i, 12 * i + 12));
            law_drum_roundtrip(b.drums@[i]);
        }
        assert(got =~= b.drums@);
    } else {
        assert(b.drums@ =~= Seq::<Drum>::empty());
    }
}

proof fn lemma_decode_instruments(b: Bgm, s: Seq<u8>, start: int)
    requires
        start >= 0x24,
        s.len() >= start + 8 * b.instruments@.len(),
        s.subrange(start, start + 8 * b.instruments@.len()) == instruments_bytes(b.instruments@),
    ensures
        decode_instruments(s, if b.instruments@.len() > 0 { start } else { 0 }, b.instruments@.len() as int)
            == Ok::<Seq<Instrument>, Error>(b.instruments@),
{
    let n = b.instruments@.len() as int;
    let ib = instruments_bytes(b.instruments@);
    lemma_instruments_bytes_len(b.instruments@);
    if n > 0 {
        let got = Seq::new(n as nat, |i: int| instrument_from_bytes(s.subrange(start + 8 * i, start + 8 * i + 8)));
        assert forall|i: int| 0 <= i < n implies got[i] == b.instruments@[i] by {
            lemma_instruments_bytes_at(b.instruments@, i);
            assert(s.subrange(start + 8 * i, start + 8 * i + 8) =~= ib.subrange(8 * i, 8 * i + 8));
            law_instrument_roundtrip(b.instruments@[i]);
        }
        assert(got =~= b.instruments@);
    } else {
        assert(b.instruments@ =~= Seq::<Instrument>::empty());
    }
}

proof fn lemma_tables_in_song(b: Bgm)
    requires
        encode_utf8(b.name@).len() <= 4,
    ensures
        ({
            let s = song_bytes(b);
            let d = b.drums@.len();
            let n = b.instruments@.len();
            &&& s.subrange(0x24, instruments_start(b)) == drums_bytes(b.drums@)
            &&& s.subrange(instruments_start(b), instruments_start(b) + 8 * n) == instruments_bytes(b.instruments@)
            &&& s.subrange(8, 12) == name_field(b.name@)
        }),
{
    let s = song_bytes(b);
    let size = (song_size(b) % 0x1_0000_0000) as u32;
    lemma_drums_bytes_len(b.drums@);
    lemma_instruments_bytes_len(b.instruments@);
    lemma_header_len(b, size, drums_at(b), instruments_at(b));
    assert(s.subrange(0x24, instruments_start(b)) =~= drums_bytes(b.drums@));
    assert(s.subrange(instruments_start(b), instruments_start(b) + 8 * b.instruments@.len()) =~= instruments_bytes(
        b.instruments@,
    ));
    assert(s.subrange(8, 12) =~= name_field(b.name@));
}

proof fn lemma_no_variations_read(s: Seq<u8>, id: u32)
    ensures
        decode_variations(s, seq![0int, 0int, 0int, 0int], 0, Seq::empty(), Seq::empty(), id) == Ok::<
            (Seq<Option<Seq<Segment>>>, ListModels, u32),
            Error,
        >((seq![None, None, None, None], Seq::empty(), id)),
{
    let offs = seq![0int, 0int, 0int, 0int];
    let ls: ListModels = Seq::empty();
    let e: Seq<Option<Seq<Segment>>> = Seq::empty();
    let a1 = e.push(None);
    let a2 = a1.push(None);
    let a3 = a2.push(None);
    let a4 = a3.push(None);
    assert(decode_variations(s, offs, 4, a4, ls, id) == Ok::<(Seq<Option<Seq<Segment>>>, ListModels, u32), Error>(
        (a4, ls, id),
    ));
    assert(offs[3] == 0);
    assert(decode_variations(s, offs, 3, a3, ls, id) == decode_variations(s, offs, 4, a4, ls, id));
    assert(offs[2] == 0);
    assert(decode_variations(s, offs, 2, a2, ls, id) == decode_variations(s, offs, 3, a3, ls, id));
    assert(offs[1] == 0);
    assert(decode_variations(s, offs, 1, a1, ls, id) == decode_variations(s, offs, 2, a2, ls, id));
    assert(offs[0] == 0);
    assert(decode_variations(s, offs, 0, e, ls, id) == decode_variations(s, offs, 1, a1, ls, id));
    assert(a4 =~= seq![None, None, None, None]);
}

/// The variation offsets of a song without variations: all 0.
pub open spec fn no_offsets() -> Seq<int> {
    seq![0int, 0int, 0int, 0int]
}

/// A file as long as the size its header gives passes the size check with no editor metadata.
proof fn lemma_size_matches(s: Seq<u8>)
    requires
        8 <= s.len() < 0x1_0000_0000,
        be32(s[4], s[5], s[6], s[7]) == s.len(),
    ensures
        size_check(s, be32(s[4], s[5], s[6], s[7])) == Ok::<Option<u64>, Error>(None),
{
    assert(s.len() % 0x1_0000_0000 == s.len());
}

/// Decoding a file whose header and tables are those of a song without variations.
#[verifier::rlimit(80)]
proof fn lemma_decode_song(s: Seq<u8>, b: Bgm, id: u32)
    requires
        without_variations(b),
        name_roundtrips(b.name@),
        instruments_start(b) < 0x4_0000,
        b.instruments@.len() < 0x1_0000,
        s.len() == song_size(b),
        s.subrange(0, 4) == bgm_magic(),
        be32(s[4], s[5], s[6], s[7]) == song_size(b),
        s.subrange(8, 12) == name_field(b.name@),
        zero_run(s, 12, 4),
        s[16] == 4,
        zero_run(s, 17, 3),
        forall|i: int| 0 <= i < 8 ==> #[trigger] s[0x14 + i] == 0,
        be16(s[0x1C], s[0x1D]) * 4 == if b.drums@.len() > 0 { 0x24int } else { 0int },
        be16(s[0x1E], s[0x1F]) == b.drums@.len(),
        be16(s[0x20], s[0x21]) * 4 == if b.instruments@.len() > 0 { instruments_start(b) } else { 0int },
        be16(s[0x22], s[0x23]) == b.instruments@.len(),
        s.subrange(0x24, instruments_start(b)) == drums_bytes(b.drums@),
        s.subrange(instruments_start(b), instruments_start(b) + 8 * b.instruments@.len()) == instruments_bytes(
            b.instruments@,
        ),
    ensures
        decode_bgm(s, id) == Ok::<(BgmModel, Option<u64>, u32), Error>(
            (
                BgmModel {
                    name: b.name@,
                    variations: seq![None, None, None, None],
                    drums: b.drums@,
                    instruments: b.instruments@,
                    lists: Seq::empty(),
                    unknowns: Seq::empty(),
                },
                None,
                id,
            ),
        ),
{
    let d = b.drums@.len() as int;
    let n = b.instruments@.len() as int;
    assert forall|k: int| 0 <= k < NUM_VARIATIONS implies (be16(s[0x14 + 2 * k], s[0x15 + 2 * k]) * 4) % 0x1_0000
        == #[trigger] no_offsets()[k] by {
        assert(s[0x14 + 2 * k] == 0 && s[0x14 + (2 * k + 1)] == 0);
    }
    lemma_size_matches(s);
    lemma_decode_header(
        s,
        b.name@,
        no_offsets(),
        d,
        if d > 0 { 0x24int } else { 0int },
        n,
        if n > 0 { instruments_start(b) } else { 0int },
        None,
    );
    assert(s.subrange(8, 12) == name_field(b.name@));
    assert(special_unknown(s) is None);
    lemma_no_variations_read(s, id);
    lemma_decode_drums(b, s);
    lemma_decode_instruments(b, s, instruments_start(b));
    lemma_decode_bgm_parts(
        s,
        id,
        HeaderModel {
            name: b.name@,
            metadata_at: None,
            variation_offsets: no_offsets(),
            drums_offset: if d > 0 { 0x24int } else { 0int },
            drums_count: d,
            voices_offset: if n > 0 { instruments_start(b) } else { 0int },
            voices_count: n,
        },
        seq![None, None, None, None],
        Seq::empty(),
        id,
        b.drums@,
        b.instruments@,
    );
}

/// Decoding a song file from what reading its header, variations and tables gives.
proof fn lemma_decode_bgm_parts(
    s: Seq<u8>,
    id: u32,
    h: HeaderModel,
    vars: Seq<Option<Seq<Segment>>>,
    ls: ListModels,
    id2: u32,
    drums: Seq<Drum>,
    ins: Seq<Instrument>,
)
    requires
        decode_header(s) == Ok::<HeaderModel, Error>(h),
        special_unknown(s) is None,
        decode_variations(s, h.variation_offsets, 0, Seq::empty(), Seq::empty(), id) == Ok::<
            (Seq<Option<Seq<Segment>>>, ListModels, u32),
            Error,
        >((vars, ls, id2)),
        decode_drums(s, h.drums_offset, h.drums_count) == Ok::<Seq<Drum>, Error>(drums),
        decode_instruments(s, h.voices_offset, h.voices_count) == Ok::<Seq<Instrument>, Error>(ins),
    ensures
        decode_bgm(s, id) == Ok::<(BgmModel, Option<u64>, u32), Error>(
            (
                BgmModel { name: h.name, variations: vars, drums, instruments: ins, lists: ls, unknowns: Seq::empty() },
                h.metadata_at,
                id2,
            ),
        ),
{
}

/// Decoding [`song_bytes`] gives back the song's name, drums and instruments, no variations
/// and no track lists.
pub proof fn lemma_decode_without_variations(b: Bgm, id: u32)
    requires
        without_variations(b),
        name_roundtrips(b.name@),
        instruments_start(b) < 0x4_0000,
        b.instruments@.len() < 0x1_0000,
    ensures
        decode_bgm(song_bytes(b), id) == Ok::<(BgmModel, Option<u64>, u32), Error>(
            (
                BgmModel {
                    name: b.name@,
                    variations: seq![None, None, None, None],
                    drums: b.drums@,
                    instruments: b.instruments@,
                    lists: Seq::empty(),
                    unknowns: Seq::empty(),
                },
                None,
                id,
            ),
        ),
{
    lemma_song_header_fields(b);
    lemma_tables_in_song(b);
    lemma_decode_song(song_bytes(b), b, id);
}

/// A song without variations reads back as it was written: decoding the bytes that encoding
/// writes into an empty writer gives back its name, its drums and its instruments, with no
/// variations, no track lists and no editor metadata, and takes no identifiers. It holds for every
/// such song whose name fits the four-byte name field (see [`name_roundtrips`]), whose drum
/// table ends below 0x40000 (where the 16-bit offset of the instrument table ends) and that has
/// fewer than 0x10000 instruments (the 16-bit count).
pub proof fn law_song_without_variations_roundtrip(b: Bgm, id: u32)
    requires
        without_variations(b),
        name_roundtrips(b.name@),
        instruments_start(b) < 0x4_0000,
        b.instruments@.len() < 0x1_0000,
    ensures
        encode_bgm(b, Out { bytes: Seq::empty(), pos: 0 }) matches Ok((o, names)) && names == Map::<
            u16,
            Seq<Seq<char>>,
        >::empty() && decode_bgm(o.bytes, id) == Ok::<(BgmModel, Option<u64>, u32), Error>(
            (
                BgmModel {
                    name: b.name@,
                    variations: seq![None, None, None, None],
                    drums: b.drums@,
                    instruments: b.instruments@,
                    lists: Seq::empty(),
                    unknowns: Seq::empty(),
                },
                None,
                id,
            ),
        ),
{
    lemma_special_names(b.name@);
    lemma_encode_without_variations(b);
    lemma_decode_without_variations(b, id);
}

/// The entries of the `v`-th variation of a song (none when its slot is empty).
pub open spec fn var_entries(b: Bgm, v: int) -> Seq<Segment> {
    match b.variations@[v] {
        Some(var) => var.segments@,
        None => Seq::empty(),
    }
}

/// The words that the `v`-th variation of a song is written as: one for each entry, then the
/// zero word that closes it (`None`); none when its slot is empty.
pub open spec fn var_words(b: Bgm, v: int) -> Seq<Option<Segment>> {
    if b.variations@[v] is Some {
        var_entries(b, v).map_values(|seg: Segment| Some(seg)).push(None)
    } else {
        Seq::empty()
    }
}

/// The words of the variations before the `v`-th, one after the other.
pub open spec fn words_upto(b: Bgm, v: int) -> Seq<Option<Segment>>
    decreases v,
{
    if v <= 0 {
        Seq::empty()
    } else {
        words_upto(b, v - 1) + var_words(b, v - 1)
    }
}

/// The words of all the variations of a song, in the order they are written after its tables.
pub open spec fn song_words(b: Bgm) -> Seq<Option<Segment>> {
    words_upto(b, NUM_VARIATIONS as int)
}

/// Where the `v`-th variation of a song starts: after the tables and the variations before it.
pub open spec fn var_start(b: Bgm, v: int) -> int {
    song_size(b) + 4 * words_upto(b, v).len()
}

/// The starts of the variations that the words of the variations before the `v`-th belong to.
pub open spec fn starts_upto(b: Bgm, v: int) -> Seq<int>
    decreases v,
{
    if v <= 0 {
        Seq::empty()
    } else {
        starts_upto(b, v - 1) + Seq::new(var_words(b, v - 1).len(), |j: int| var_start(b, v - 1))
    }
}

/// Where the variation that the `w`-th word belongs to starts: what its offset is counted from.
pub open spec fn word_start(b: Bgm, w: int) -> int {
    starts_upto(b, NUM_VARIATIONS as int)[w]
}

/// Whether the `w`-th word is a subsegment.
pub open spec fn is_subseg(b: Bgm, w: int) -> bool {
    song_words(b)[w] matches Some(seg) && seg is Subseg
}

/// The key of the track list that the `w`-th word, a subsegment, names.
pub open spec fn word_list(b: Bgm, w: int) -> TrackListId {
    song_words(b)[w]->Some_0->track_list
}

/// The track list that the `w`-th word, a subsegment, names.
pub open spec fn entry_list(b: Bgm, w: int) -> TrackList {
    b.track_lists@[word_list(b, w)]
}

/// Whether the `w`-th word of a song is a subsegment naming a track list of the song without
/// a position of its own, whose tracks are [`plain_track`]s with sequences that end within
/// 0x10000 bytes of the list's start.
pub open spec fn plain_subseg(b: Bgm, w: int) -> bool {
    &&& is_subseg(b, w)
    &&& b.track_lists@.contains_key(word_list(b, w))
    &&& entry_list(b, w).wf()
    &&& entry_list(b, w).pos is None
    &&& forall|i: int| 0 <= i < NUM_TRACKS ==> plain_track(#[trigger] entry_list(b, w).tracks@[i])
    &&& 0x40 + seqs_bytes(entry_list(b, w).tracks@, NUM_TRACKS as int).len() < 0x1_0000
}

/// Whether the `w`-th word of a song is written in four bytes: a closing word, a loop or wait
/// entry ([`plain_segment`]) or a subsegment.
pub open spec fn plain_word(b: Bgm, w: int) -> bool {
    match song_words(b)[w] {
        None => true,
        Some(seg) => seg is Subseg || plain_segment(seg),
    }
}

/// Whether a song is one that encoding writes and decoding reads back as it is: no byte ranges
/// to copy, and variations whose entries are each either a loop or wait entry
/// ([`plain_segment`]) or a subsegment ([`plain_subseg`]).
pub open spec fn plain_song(b: Bgm) -> bool {
    &&& b.wf()
    &&& b.unknowns@.len() == 0
    &&& forall|w: int|
        0 <= w < song_words(b).len() ==> plain_word(b, w) && (is_subseg(b, w) ==> plain_subseg(b, w))
}

/// Whether every word of a song is written in four bytes.
pub open spec fn entries_plain(b: Bgm) -> bool {
    forall|w: int| 0 <= w < song_words(b).len() ==> #[trigger] plain_word(b, w)
}

/// Where the search for a word naming the list `id`, from the `k`-th word on and before the
/// `j`-th, ends: at the first such word, or at `j`.
pub open spec fn find_naming(b: Bgm, id: TrackListId, k: int, j: int) -> int
    decreases j - k,
{
    if k >= j {
        j
    } else if is_subseg(b, k) && word_list(b, k) == id {
        k
    } else {
        find_naming(b, id, k + 1, j)
    }
}

/// The first word of the song that names the track list of the `j`-th word.
pub open spec fn first_naming(b: Bgm, j: int) -> int {
    find_naming(b, word_list(b, j), 0, j)
}

/// Whether the `j`-th word is a subsegment whose track list no word before it names: the
/// subsegments for which a list is written.
pub open spec fn fresh(b: Bgm, j: int) -> bool {
    is_subseg(b, j) && first_naming(b, j) == j
}

/// How many of the first `j` words of a song are subsegments.
pub open spec fn subsegs_before(b: Bgm, j: int) -> int
    decreases j,
{
    if j <= 0 {
        0
    } else {
        subsegs_before(b, j - 1) + if is_subseg(b, j - 1) { 1int } else { 0int }
    }
}

/// How many of the first `j` words of a song are [`fresh`]: the number of track lists written
/// for them.
pub open spec fn lists_before(b: Bgm, j: int) -> int
    decreases j,
{
    if j <= 0 {
        0
    } else {
        lists_before(b, j - 1) + if fresh(b, j - 1) { 1int } else { 0int }
    }
}

/// Where the track lists of a song start: after the tables and the variations.
pub open spec fn lists_start(b: Bgm) -> int {
    song_size(b) + 4 * song_words(b).len()
}

/// The bytes of the track lists of the [`fresh`] subsegments among the first `k` words of a
/// song, each at a multiple of 4.
pub open spec fn lists_bytes(b: Bgm, k: int) -> Seq<u8>
    decreases k,
{
    if k <= 0 {
        Seq::empty()
    } else {
        let prev = lists_bytes(b, k - 1);
        let p = lists_start(b) + prev.len();
        if fresh(b, k - 1) {
            prev + zeros((align_up(p, 4) - p) as nat) + list_bytes(entry_list(b, k - 1).tracks@)
        } else {
            prev
        }
    }
}

/// Where the track list of the `k`-th word of a song starts, if it is a [`fresh`] subsegment.
pub open spec fn list_start(b: Bgm, k: int) -> int {
    align_up(lists_start(b) + lists_bytes(b, k).len(), 4)
}

/// The bytes of the `j`-th word: for a subsegment, its kind and the offset of its list (where
/// the first word naming it put it, from the start of the subsegment's variation) once filled
/// in (when `j < filled`).
pub open spec fn entry_bytes(b: Bgm, j: int, filled: int) -> Seq<u8> {
    match song_words(b)[j] {
        None => zeros(4),
        Some(seg) => if seg is Subseg {
            u16_bytes(0x1000) + u16_bytes(
                if j < filled {
                    list_offset(list_start(b, first_naming(b, j)), word_start(b, j))
                } else {
                    0
                },
            )
        } else {
            segment_bytes(seg)
        },
    }
}

/// The first `n` words, with the offsets of the subsegments among the first `filled` filled in.
pub open spec fn entries_bytes(b: Bgm, n: int, filled: int) -> Seq<u8>
    decreases n,
{
    if n <= 0 {
        Seq::empty()
    } else {
        entries_bytes(b, n - 1, filled) + entry_bytes(b, n - 1, filled)
    }
}

/// The offset field of the `k`-th variation in the header, once the variations before the
/// `v`-th are written.
pub open spec fn var_field(b: Bgm, k: int, v: int) -> u16 {
    if k < v && b.variations@[k] is Some {
        quarter(var_start(b, k))
    } else {
        0
    }
}

/// The variation offset fields of the header once the variations before the `v`-th are
/// written.
pub open spec fn var_fields(b: Bgm, v: int) -> Seq<u8> {
    u16_bytes(var_field(b, 0, v)) + u16_bytes(var_field(b, 1, v)) + u16_bytes(var_field(b, 2, v)) + u16_bytes(
        var_field(b, 3, v),
    )
}

/// The header of a song with `size` in its size field, once the variations before the `v`-th
/// are written.
pub open spec fn song_header(b: Bgm, size: u32, v: int) -> Seq<u8> {
    overwrite(header_bytes(b, size, drums_at(b), instruments_at(b)), 0x14, var_fields(b, v))
}

/// The bytes of a song with the offsets of the subsegments among the first `filled` words filled
/// in, the lists of the first `filled` words written and `size` in the header.
pub open spec fn song_file(b: Bgm, filled: int, size: u32) -> Seq<u8> {
    song_header(b, size, NUM_VARIATIONS as int) + drums_bytes(b.drums@) + instruments_bytes(b.instruments@)
        + entries_bytes(b, song_words(b).len() as int, filled) + lists_bytes(b, filled)
}

proof fn lemma_entries_len(b: Bgm, n: int, filled: int)
    requires
        entries_plain(b),
        0 <= n <= song_words(b).len(),
    ensures
        entries_bytes(b, n, filled).len() == 4 * n,
    decreases n,
{
    if n > 0 {
        lemma_entries_len(b, n - 1, filled);
        assert(plain_word(b, n - 1));
    }
}

/// The starts listed for the words of the variations before the `v`-th: one for each word.
proof fn lemma_starts_len(b: Bgm, v: int)
    requires
        0 <= v,
    ensures
        starts_upto(b, v).len() == words_upto(b, v).len(),
    decreases v,
{
    if v > 0 {
        lemma_starts_len(b, v - 1);
    }
}

/// The words of the variations before the `v`-th come first in those before the `k`-th, and so
/// do their variations' starts.
proof fn lemma_words_prefix(b: Bgm, v: int, k: int)
    requires
        0 <= v <= k,
    ensures
        words_upto(b, v).len() <= words_upto(b, k).len(),
        words_upto(b, k).subrange(0, words_upto(b, v).len() as int) == words_upto(b, v),
        starts_upto(b, k).len() == words_upto(b, k).len(),
        starts_upto(b, k).subrange(0, words_upto(b, v).len() as int) == starts_upto(b, v),
    decreases k - v,
{
    lemma_starts_len(b, k);
    lemma_starts_len(b, v);
    if v < k {
        lemma_words_prefix(b, v, k - 1);
        lemma_starts_len(b, k - 1);
        assert(words_upto(b, k).subrange(0, words_upto(b, v).len() as int) =~= words_upto(b, k - 1).subrange(
            0,
            words_upto(b, v).len() as int,
        ));
        assert(starts_upto(b, k).subrange(0, words_upto(b, v).len() as int) =~= starts_upto(b, k - 1).subrange(
            0,
            words_upto(b, v).len() as int,
        ));
    } else {
        assert(words_upto(b, k).subrange(0, words_upto(b, v).len() as int) =~= words_upto(b, v));
        assert(starts_upto(b, k).subrange(0, words_upto(b, v).len() as int) =~= starts_upto(b, v));
    }
}

/// The `j`-th word of the `v`-th variation, a present one: its entry, or the closing word, in
/// the song's words, at the variation's start.
proof fn lemma_var_word(b: Bgm, v: int, j: int)
    requires
        0 <= v < NUM_VARIATIONS,
        b.variations@[v] is Some,
        0 <= j <= var_entries(b, v).len(),
    ensures
        words_upto(b, v).len() + j < song_words(b).len(),
        song_words(b)[words_upto(b, v).len() + j] == if j < var_entries(b, v).len() {
            Some(var_entries(b, v)[j])
        } else {
            None::<Segment>
        },
        word_start(b, words_upto(b, v).len() + j) == var_start(b, v),
        words_upto(b, v + 1).len() == words_upto(b, v).len() + var_entries(b, v).len() + 1,
{
    let base = words_upto(b, v).len() as int;
    lemma_words_prefix(b, v + 1, NUM_VARIATIONS as int);
    lemma_words_prefix(b, v, v);
    let w1 = words_upto(b, v + 1);
    assert(w1[base + j] == var_words(b, v)[j]);
    assert(song_words(b)[base + j] == w1[base + j]) by {
        assert(song_words(b).subrange(0, w1.len() as int)[base + j] == song_words(b)[base + j]);
    }
    let s1 = starts_upto(b, v + 1);
    assert(s1[base + j] == var_start(b, v));
    assert(starts_upto(b, NUM_VARIATIONS as int)[base + j] == s1[base + j]) by {
        assert(starts_upto(b, NUM_VARIATIONS as int).subrange(0, w1.len() as int)[base + j] == starts_upto(
            b,
            NUM_VARIATIONS as int,
        )[base + j]);
    }
}

/// The pending writes of the first `i` words: one for each subsegment.
pub open spec fn entry_pendings(b: Bgm, i: int) -> Seq<Pending>
    decreases i,
{
    if i <= 0 {
        Seq::empty()
    } else if is_subseg(b, i - 1) {
        entry_pendings(b, i - 1).push(
            Pending::List {
                id: word_list(b, i - 1),
                tracks_pos: song_size(b) + 4 * (i - 1) + 2,
                segment_start: word_start(b, i - 1),
            },
        )
    } else {
        entry_pendings(b, i - 1)
    }
}

/// Writing the entries of the `v`-th variation, a present one, from the `j`-th on, after the
/// words before it.
proof fn lemma_encode_entries(b: Bgm, v: int, h: Seq<u8>, j: int)
    requires
        entries_plain(b),
        0 <= v < NUM_VARIATIONS,
        b.variations@[v] is Some,
        h.len() == song_size(b),
        0 <= j <= var_entries(b, v).len(),
        lists_start(b) <= usize::MAX,
    ensures
        ({
            let base = words_upto(b, v).len() as int;
            let n = var_entries(b, v).len() as int;
            encode_segments(
                var_entries(b, v),
                Out { bytes: h + entries_bytes(b, base + j, 0), pos: song_size(b) + 4 * (base + j) },
                j,
                var_start(b, v),
                entry_pendings(b, base + j),
            ) == Ok::<(Out, Seq<Pending>), IoError>(
                (
                    Out { bytes: h + entries_bytes(b, base + n, 0), pos: song_size(b) + 4 * (base + n) },
                    entry_pendings(b, base + n),
                ),
            )
        }),
    decreases var_entries(b, v).len() - j,
{
    let base = words_upto(b, v).len() as int;
    let segs = var_entries(b, v);
    if j < segs.len() {
        let w = base + j;
        lemma_var_word(b, v, j);
        lemma_var_word(b, v, segs.len() as int);
        lemma_words_prefix(b, v + 1, NUM_VARIATIONS as int);
        assert(plain_word(b, w));
        lemma_entries_len(b, w, 0);
        assert(segment_bytes(segs[j]) == entry_bytes(b, w, 0));
        assert(song_size(b) + 4 * w == var_start(b, v) + 4 * j);
        assert(overwrite(h + entries_bytes(b, w, 0), song_size(b) + 4 * w, segment_bytes(segs[j])) =~= h
            + entries_bytes(b, w + 1, 0));
        lemma_encode_entries(b, v, h, j + 1);
    }
}

/// The header with the offset field of the `v`-th variation, a present one, written.
proof fn lemma_header_field(b: Bgm, v: int)
    requires
        0 <= v < NUM_VARIATIONS,
        b.variations@[v] is Some,
        encode_utf8(b.name@).len() <= 4,
    ensures
        overwrite(song_header(b, 0, v), 0x14 + 2 * v, u16_bytes(quarter(var_start(b, v)))) == song_header(b, 0, v + 1),
        song_header(b, 0, v).len() == 0x24,
{
    let h = header_bytes(b, 0, drums_at(b), instruments_at(b));
    lemma_header_len(b, 0, drums_at(b), instruments_at(b));
    assert(overwrite(song_header(b, 0, v), 0x14 + 2 * v, u16_bytes(quarter(var_start(b, v)))) =~= song_header(
        b,
        0,
        v + 1,
    ));
}

/// The header is unchanged past an empty variation slot.
proof fn lemma_header_no_field(b: Bgm, v: int)
    requires
        0 <= v < NUM_VARIATIONS,
        b.variations@[v] is None,
    ensures
        song_header(b, 0, v) == song_header(b, 0, v + 1),
        words_upto(b, v + 1) == words_upto(b, v),
{
    assert(var_fields(b, v) =~= var_fields(b, v + 1));
    assert(words_upto(b, v + 1) =~= words_upto(b, v));
}

proof fn lemma_patch_prefix(h: Seq<u8>, rest: Seq<u8>, p: int, d: Seq<u8>)
    requires
        0 <= p,
        p + d.len() <= h.len(),
    ensures
        overwrite(h + rest, p, d) == overwrite(h, p, d) + rest,
{
    assert(overwrite(h + rest, p, d) =~= overwrite(h, p, d) + rest);
}

/// Writing the offset field of the `v`-th variation, a present one, into the header before
/// `rest`.
proof fn lemma_emit_var_field(b: Bgm, v: int, rest: Seq<u8>, pos: int)
    requires
        0 <= v < NUM_VARIATIONS,
        b.variations@[v] is Some,
        encode_utf8(b.name@).len() <= 4,
    ensures
        emit_at(
            Out { bytes: song_header(b, 0, v) + rest, pos },
            0x14 + 2 * v,
            u16_bytes(quarter(var_start(b, v))),
        ) == Ok::<Out, IoError>(Out { bytes: song_header(b, 0, v + 1) + rest, pos }),
{
    lemma_header_field(b, v);
    lemma_patch_prefix(song_header(b, 0, v), rest, 0x14 + 2 * v, u16_bytes(quarter(var_start(b, v))));
}

/// Writing the closing word of the `v`-th variation, a present one, after its entries.
proof fn lemma_close_variation(b: Bgm, v: int, h: Seq<u8>)
    requires
        entries_plain(b),
        0 <= v < NUM_VARIATIONS,
        b.variations@[v] is Some,
        h.len() == song_size(b),
        lists_start(b) <= usize::MAX,
    ensures
        ({
            let n = (words_upto(b, v).len() + var_entries(b, v).len()) as int;
            &&& emit(
                Out { bytes: h + entries_bytes(b, n, 0), pos: song_size(b) + 4 * n },
                seq![0u8, 0u8, 0u8, 0u8],
            ) == Ok::<Out, IoError>(
                Out { bytes: h + entries_bytes(b, words_upto(b, v + 1).len() as int, 0), pos: var_start(b, v + 1) },
            )
            &&& entry_pendings(b, words_upto(b, v + 1).len() as int) == entry_pendings(b, n)
        }),
{
    let n = (words_upto(b, v).len() + var_entries(b, v).len()) as int;
    lemma_var_word(b, v, var_entries(b, v).len() as int);
    lemma_words_prefix(b, v + 1, NUM_VARIATIONS as int);
    lemma_entries_len(b, n, 0);
    let x = h + entries_bytes(b, n, 0);
    assert(seq![0u8, 0u8, 0u8, 0u8] =~= zeros(4));
    lemma_append(x, zeros(4));
    assert(entry_bytes(b, n, 0) == zeros(4));
    assert(x + zeros(4) =~= h + entries_bytes(b, n + 1, 0));
}

/// Writing the `v`-th variation, a present one, after the words before it.
#[verifier::spinoff_prover]
#[verifier::rlimit(40)]
proof fn lemma_write_variation(b: Bgm, v: int)
    requires
        plain_song(b),
        encode_utf8(b.name@).len() <= 4,
        0 <= v < NUM_VARIATIONS,
        b.variations@[v] is Some,
        lists_start(b) <= usize::MAX,
    ensures
        ({
            let tables = drums_bytes(b.drums@) + instruments_bytes(b.instruments@);
            encode_variation(
                b.variations@[v]->Some_0,
                Out {
                    bytes: song_header(b, 0, v) + (tables + entries_bytes(b, words_upto(b, v).len() as int, 0)),
                    pos: var_start(b, v),
                },
                v,
                entry_pendings(b, words_upto(b, v).len() as int),
            ) == Ok::<(Out, Seq<Pending>), IoError>(
                (
                    Out {
                        bytes: song_header(b, 0, v + 1) + (tables + entries_bytes(
                            b,
                            words_upto(b, v + 1).len() as int,
                            0,
                        )),
                        pos: var_start(b, v + 1),
                    },
                    entry_pendings(b, words_upto(b, v + 1).len() as int),
                ),
            )
        }),
{
    let base = words_upto(b, v).len() as int;
    let n = var_entries(b, v).len() as int;
    let tables = drums_bytes(b.drums@) + instruments_bytes(b.instruments@);
    let h1 = song_header(b, 0, v + 1) + tables;
    lemma_drums_bytes_len(b.drums@);
    lemma_instruments_bytes_len(b.instruments@);
    lemma_header_field(b, v);
    lemma_words_prefix(b, v + 1, NUM_VARIATIONS as int);
    lemma_var_word(b, v, n);
    lemma_entries_len(b, base, 0);
    let o = Out { bytes: song_header(b, 0, v) + (tables + entries_bytes(b, base, 0)), pos: var_start(b, v) };
    assert(align_out(o, 4) == Ok::<Out, IoError>(o));
    lemma_emit_var_field(b, v, tables + entries_bytes(b, base, 0), var_start(b, v));
    assert(song_header(b, 0, v + 1) + (tables + entries_bytes(b, base, 0)) =~= h1 + entries_bytes(b, base + 0, 0));
    lemma_encode_entries(b, v, h1, 0);
    lemma_close_variation(b, v, h1);
    assert(h1 + entries_bytes(b, base + n + 1, 0) =~= song_header(b, 0, v + 1) + (tables + entries_bytes(
        b,
        base + n + 1,
        0,
    )));
    assert(b.variations@[v]->Some_0.segments@ == var_entries(b, v));
}

/// Writing the variations of a song from the `v`-th on, after the words before it.
proof fn lemma_write_variations(b: Bgm, v: int)
    requires
        plain_song(b),
        encode_utf8(b.name@).len() <= 4,
        0 <= v <= NUM_VARIATIONS,
        lists_start(b) <= usize::MAX,
    ensures
        ({
            let tables = drums_bytes(b.drums@) + instruments_bytes(b.instruments@);
            encode_variations(
                b,
                Out {
                    bytes: song_header(b, 0, v) + (tables + entries_bytes(b, words_upto(b, v).len() as int, 0)),
                    pos: var_start(b, v),
                },
                v,
                entry_pendings(b, words_upto(b, v).len() as int),
            ) == Ok::<(Out, Seq<Pending>), IoError>(
                (
                    Out {
                        bytes: song_header(b, 0, NUM_VARIATIONS as int) + (tables + entries_bytes(
                            b,
                            song_words(b).len() as int,
                            0,
                        )),
                        pos: lists_start(b),
                    },
                    entry_pendings(b, song_words(b).len() as int),
                ),
            )
        }),
    decreases NUM_VARIATIONS - v,
{
    if v < NUM_VARIATIONS {
        if b.variations@[v] is Some {
            lemma_write_variation(b, v);
        } else {
            lemma_header_no_field(b, v);
        }
        lemma_write_variations(b, v + 1);
    }
}

/// The bytes of the song up to the end of its variations, before any list is written.
pub open spec fn entries_written(b: Bgm) -> Seq<u8> {
    song_header(b, 0, NUM_VARIATIONS as int) + (drums_bytes(b.drums@) + instruments_bytes(b.instruments@)
        + entries_bytes(b, song_words(b).len() as int, 0))
}

/// Writing the variations of a song after its tables.
#[verifier::spinoff_prover]
proof fn lemma_encode_song_variations(b: Bgm)
    requires
        plain_song(b),
        encode_utf8(b.name@).len() <= 4,
        lists_start(b) <= usize::MAX,
    ensures
        encode_variations(
            b,
            Out {
                bytes: header_bytes(b, 0, drums_at(b), instruments_at(b)) + drums_bytes(b.drums@) + instruments_bytes(
                    b.instruments@,
                ),
                pos: song_size(b),
            },
            0,
            Seq::empty(),
        ) == Ok::<(Out, Seq<Pending>), IoError>(
            (Out { bytes: entries_written(b), pos: lists_start(b) }, entry_pendings(b, song_words(b).len() as int)),
        ),
{
    let h0 = header_bytes(b, 0, drums_at(b), instruments_at(b));
    let tables = drums_bytes(b.drums@) + instruments_bytes(b.instruments@);
    lemma_header_len(b, 0, drums_at(b), instruments_at(b));
    assert(var_fields(b, 0) =~= zeros(8));
    assert(song_header(b, 0, 0) =~= h0);
    assert(entries_bytes(b, 0, 0) =~= Seq::<u8>::empty());
    assert(song_header(b, 0, 0) + (tables + entries_bytes(b, 0, 0)) =~= h0 + drums_bytes(b.drums@)
        + instruments_bytes(b.instruments@));
    assert(entry_pendings(b, 0) =~= Seq::<Pending>::empty());
    assert(words_upto(b, 0).len() == 0);
    lemma_write_variations(b, 0);
}

/// Pending writes that all have the key 0 keep their order.
proof fn lemma_sort_zero_keys(b: Bgm, items: Seq<Pending>, i: int, acc: Seq<Pending>)
    requires
        0 <= i <= items.len(),
        forall|x: int| 0 <= x < items.len() ==> pending_key(b, #[trigger] items[x]) == 0,
        forall|x: int| 0 <= x < acc.len() ==> pending_key(b, #[trigger] acc[x]) == 0,
    ensures
        sort_pending(b, items, i, acc) == acc + items.skip(i),
    decreases items.len() - i,
{
    if i < items.len() {
        assert(insertion_point(b, acc, 0) == acc.len()) by {
            if acc.len() > 0 {
                assert(pending_key(b, acc.last()) == 0);
            }
        }
        assert(acc.insert(acc.len() as int, items[i]) =~= acc.push(items[i]));
        lemma_sort_zero_keys(b, items, i + 1, acc.push(items[i]));
        assert(acc.push(items[i]) + items.skip(i + 1) =~= acc + items.skip(i));
    } else {
        assert(acc + items.skip(i) =~= acc);
    }
}

proof fn lemma_entry_pendings(b: Bgm, i: int)
    requires
        plain_song(b),
        0 <= i <= song_words(b).len(),
    ensures
        entry_pendings(b, i).len() == subsegs_before(b, i),
        0 <= subsegs_before(b, i) <= i,
        forall|x: int|
            0 <= x < i && is_subseg(b, x) ==> #[trigger] entry_pendings(b, i)[subsegs_before(b, x)]
                == (Pending::List {
                id: word_list(b, x),
                tracks_pos: song_size(b) + 4 * x + 2,
                segment_start: word_start(b, x),
            }),
        forall|y: int|
            0 <= y < entry_pendings(b, i).len() ==> (#[trigger] entry_pendings(b, i)[y] matches Pending::List { id, .. }
                && b.track_lists@[id].pos is None),
    decreases i,
{
    if i > 0 {
        lemma_entry_pendings(b, i - 1);
        lemma_subsegs_before_grow(b, i - 1);
        assert(is_subseg(b, i - 1) ==> plain_subseg(b, i - 1));
        assert forall|x: int| 0 <= x < i && is_subseg(b, x) implies #[trigger] entry_pendings(
            b,
            i,
        )[subsegs_before(b, x)] == (Pending::List {
            id: word_list(b, x),
            tracks_pos: song_size(b) + 4 * x + 2,
            segment_start: word_start(b, x),
        }) by {
            if x < i - 1 {
                lemma_subsegs_before_grow(b, x);
                lemma_subsegs_before_mono(b, x + 1, i - 1);
                assert(entry_pendings(b, i - 1)[subsegs_before(b, x)] == entry_pendings(b, i)[subsegs_before(b, x)]);
            }
        }
    }
}

/// The count of subsegments grows by one at each subsegment.
proof fn lemma_subsegs_before_grow(b: Bgm, j: int)
    requires
        0 <= j,
    ensures
        subsegs_before(b, j + 1) == subsegs_before(b, j) + if is_subseg(b, j) { 1int } else { 0int },
        0 <= subsegs_before(b, j) <= j,
    decreases j,
{
    if j > 0 {
        lemma_subsegs_before_grow(b, j - 1);
    }
}

/// The count of subsegments does not shrink.
proof fn lemma_subsegs_before_mono(b: Bgm, j: int, k: int)
    requires
        0 <= j <= k,
    ensures
        subsegs_before(b, j) <= subsegs_before(b, k),
    decreases k - j,
{
    if j < k {
        lemma_subsegs_before_grow(b, k - 1);
        lemma_subsegs_before_mono(b, j, k - 1);
    }
}

/// The search for an entry naming `id` ends at one that does, or at `j`, and passes none.
proof fn lemma_find_naming(b: Bgm, id: TrackListId, k: int, j: int)
    requires
        0 <= k <= j,
    ensures
        k <= find_naming(b, id, k, j) <= j,
        find_naming(b, id, k, j) < j ==> is_subseg(b, find_naming(b, id, k, j)) && word_list(
            b,
            find_naming(b, id, k, j),
        ) == id,
        forall|x: int| k <= x < find_naming(b, id, k, j) ==> !(#[trigger] is_subseg(b, x) && word_list(b, x) == id),
    decreases j - k,
{
    if k < j && !(is_subseg(b, k) && word_list(b, k) == id) {
        lemma_find_naming(b, id, k + 1, j);
    }
}

/// The first entry naming the list of a subsegment is a [`fresh`] subsegment naming that list,
/// at or before it; the subsegment is fresh exactly when no entry before it names its list.
proof fn lemma_first_naming(b: Bgm, j: int)
    requires
        0 <= j < song_words(b).len(),
        is_subseg(b, j),
    ensures
        0 <= first_naming(b, j) <= j,
        is_subseg(b, first_naming(b, j)),
        word_list(b, first_naming(b, j)) == word_list(b, j),
        fresh(b, first_naming(b, j)),
        fresh(b, j) <==> forall|x: int|
            0 <= x < j ==> !(#[trigger] is_subseg(b, x) && word_list(b, x)
                == word_list(b, j)),
{
    let id = word_list(b, j);
    let f = first_naming(b, j);
    lemma_find_naming(b, id, 0, j);
    lemma_find_naming(b, id, 0, f);
    if find_naming(b, id, 0, f) < f {
        let y = find_naming(b, id, 0, f);
        assert(!(is_subseg(b, y) && word_list(b, y) == id));
    }
    if !fresh(b, j) {
        assert(is_subseg(b, f) && word_list(b, f) == id);
    }
}

/// The count of written lists grows by one at each fresh subsegment.
proof fn lemma_lists_before_grow(b: Bgm, j: int)
    requires
        0 <= j,
    ensures
        lists_before(b, j + 1) == lists_before(b, j) + if fresh(b, j) { 1int } else { 0int },
        0 <= lists_before(b, j) <= j,
    decreases j,
{
    if j > 0 {
        lemma_lists_before_grow(b, j - 1);
    }
}

/// The count of written lists does not shrink.
proof fn lemma_lists_before_mono(b: Bgm, j: int, k: int)
    requires
        0 <= j <= k,
    ensures
        lists_before(b, j) <= lists_before(b, k),
    decreases k - j,
{
    if j < k {
        lemma_lists_before_grow(b, k - 1);
        lemma_lists_before_mono(b, j, k - 1);
    }
}

proof fn lemma_fill_entry(b: Bgm, n: int, i: int, rest: Seq<u8>)
    requires
        entries_plain(b),
        0 <= i < n <= song_words(b).len(),
        is_subseg(b, i),
    ensures
        overwrite(
            entries_bytes(b, n, i) + rest,
            4 * i + 2,
            u16_bytes(list_offset(list_start(b, first_naming(b, i)), word_start(b, i))),
        ) == entries_bytes(b, n, i + 1) + rest,
    decreases n,
{
    lemma_entries_len(b, n - 1, i);
    lemma_entries_len(b, n - 1, i + 1);
    if i < n - 1 {
        let e = entry_bytes(b, n - 1, i);
        assert(entry_bytes(b, n - 1, i + 1) == e);
        lemma_fill_entry(b, n - 1, i, e + rest);
        assert(entries_bytes(b, n, i) + rest =~= entries_bytes(b, n - 1, i) + (e + rest));
        assert(entries_bytes(b, n, i + 1) + rest =~= entries_bytes(b, n - 1, i + 1) + (e + rest));
    } else {
        lemma_same_entries(b, n - 1, i, i + 1);
        assert(overwrite(
            entries_bytes(b, n, i) + rest,
            4 * i + 2,
            u16_bytes(list_offset(list_start(b, first_naming(b, i)), word_start(b, i))),
        ) =~= entries_bytes(b, n, i + 1) + rest);
    }
}

/// Subsegments naming the same list have the same first naming entry.
proof fn lemma_same_first_naming(b: Bgm, j: int, j2: int)
    requires
        0 <= j < song_words(b).len(),
        0 <= j2 < song_words(b).len(),
        is_subseg(b, j),
        is_subseg(b, j2),
        word_list(b, j) == word_list(b, j2),
    ensures
        first_naming(b, j) == first_naming(b, j2),
{
    let id = word_list(b, j);
    lemma_find_naming(b, id, 0, j);
    lemma_find_naming(b, id, 0, j2);
    let x = first_naming(b, j);
    let x2 = first_naming(b, j2);
    if x < x2 {
        assert(is_subseg(b, x) && word_list(b, x) == id);
    } else if x2 < x {
        assert(is_subseg(b, x2) && word_list(b, x2) == id);
    }
}

/// The track lists written for the fresh subsegments among the first `i` entries, by the list
/// each names: where each was written.
pub open spec fn written_lists(b: Bgm, i: int) -> Map<TrackListId, int>
    decreases i,
{
    if i <= 0 {
        Map::empty()
    } else if fresh(b, i - 1) {
        written_lists(b, i - 1).insert(word_list(b, i - 1), list_start(b, i - 1))
    } else {
        written_lists(b, i - 1)
    }
}

/// A subsegment's list has been written, after the first `i` entries, exactly when the entry
/// first naming it is among them, and then where that entry's list was put.
proof fn lemma_written_lists(b: Bgm, i: int)
    requires
        0 <= i <= song_words(b).len(),
    ensures
        forall|j: int|
            0 <= j < song_words(b).len() && is_subseg(b, j) ==> (written_lists(b, i).contains_key(
                #[trigger] word_list(b, j),
            ) <==> first_naming(b, j) < i),
        forall|j: int|
            0 <= j < song_words(b).len() && is_subseg(b, j) && first_naming(b, j) < i ==> written_lists(
                b,
                i,
            )[#[trigger] word_list(b, j)] == list_start(b, first_naming(b, j)),
    decreases i,
{
    if i > 0 {
        lemma_written_lists(b, i - 1);
        assert forall|j: int| 0 <= j < song_words(b).len() && is_subseg(b, j) implies (written_lists(
            b,
            i,
        ).contains_key(#[trigger] word_list(b, j)) <==> first_naming(b, j) < i) && (first_naming(b, j)
            < i ==> written_lists(b, i)[word_list(b, j)] == list_start(b, first_naming(b, j))) by {
            lemma_first_naming(b, j);
            if fresh(b, i - 1) && word_list(b, i - 1) == word_list(b, j) {
                lemma_same_first_naming(b, j, i - 1);
            } else if first_naming(b, j) == i - 1 {
                assert(fresh(b, i - 1));
            }
        }
    } else {
        assert forall|j: int| 0 <= j < song_words(b).len() && is_subseg(b, j) implies !(
        first_naming(b, j) < i) by {
            lemma_first_naming(b, j);
        }
    }
}

/// Filling in the entries up to a loop or wait entry changes nothing.
proof fn lemma_skip_entry(b: Bgm, n: int, i: int)
    requires
        0 <= i,
        !(is_subseg(b, i)),
    ensures
        entries_bytes(b, n, i) == entries_bytes(b, n, i + 1),
    decreases n,
{
    if n > 0 {
        lemma_skip_entry(b, n - 1, i);
        assert(entry_bytes(b, n - 1, i) == entry_bytes(b, n - 1, i + 1));
    }
}

proof fn lemma_same_entries(b: Bgm, n: int, f1: int, f2: int)
    requires
        n <= f1,
        n <= f2,
    ensures
        entries_bytes(b, n, f1) == entries_bytes(b, n, f2),
    decreases n,
{
    if n > 0 {
        lemma_same_entries(b, n - 1, f1, f2);
    }
}

proof fn lemma_lists_grow(b: Bgm, i: int, k: int)
    requires
        0 <= i <= k,
    ensures
        lists_bytes(b, i).len() <= lists_bytes(b, k).len(),
        lists_bytes(b, k).subrange(0, lists_bytes(b, i).len() as int) == lists_bytes(b, i),
        i < k && fresh(b, i) ==> list_start(b, i) + list_bytes(entry_list(b, i).tracks@).len()
            <= lists_start(b) + lists_bytes(b, k).len(),
    decreases k - i,
{
    if i < k {
        lemma_lists_grow(b, i, k - 1);
        assert(lists_bytes(b, k).subrange(0, lists_bytes(b, i).len() as int) =~= lists_bytes(b, k - 1).subrange(
            0,
            lists_bytes(b, i).len() as int,
        ));
    } else {
        assert(lists_bytes(b, k).subrange(0, lists_bytes(b, i).len() as int) =~= lists_bytes(b, i));
    }
}

proof fn lemma_song_file_len(b: Bgm, filled: int, size: u32)
    requires
        encode_utf8(b.name@).len() <= 4,
        entries_plain(b),
        0 <= filled,
    ensures
        song_file(b, filled, size).len() == lists_start(b) + lists_bytes(b, filled).len(),
{
    lemma_drums_bytes_len(b.drums@);
    lemma_instruments_bytes_len(b.instruments@);
    lemma_header_len(b, size, drums_at(b), instruments_at(b));
    lemma_entries_len(b, song_words(b).len() as int, filled);
}

/// A list written where the writer is not at a multiple of 4 is written as where it is.
proof fn lemma_encode_list_aligned(
    tl: TrackList,
    o: Out,
    o1: Out,
    tracks_pos: int,
    segment_start: int,
    count: nat,
    meta: Map<u16, Seq<Seq<char>>>,
)
    requires
        align_out(o, 4) == Ok::<Out, IoError>(o1),
        o1.pos % 4 == 0,
    ensures
        encode_list(tl, o, tracks_pos, segment_start, count, meta) == encode_list(
            tl,
            o1,
            tracks_pos,
            segment_start,
            count,
            meta,
        ),
{
    assert(align_out(o1, 4) == Ok::<Out, IoError>(o1));
}

/// The end of a song's file: after its last track list.
pub open spec fn song_end(b: Bgm) -> int {
    lists_start(b) + lists_bytes(b, song_words(b).len() as int).len()
}

/// The part of a song before its variations: header (with the variation offsets but no size)
/// and tables.
pub open spec fn tables_bytes(b: Bgm) -> Seq<u8> {
    song_header(b, 0, NUM_VARIATIONS as int) + drums_bytes(b.drums@) + instruments_bytes(b.instruments@)
}

proof fn lemma_split_song_file(b: Bgm, filled: int)
    requires
        encode_utf8(b.name@).len() <= 4,
    ensures
        tables_bytes(b).len() == song_size(b),
        song_file(b, filled, 0) == tables_bytes(b) + (entries_bytes(b, song_words(b).len() as int, filled)
            + lists_bytes(b, filled)),
{
    lemma_drums_bytes_len(b.drums@);
    lemma_instruments_bytes_len(b.instruments@);
    lemma_header_len(b, 0, drums_at(b), instruments_at(b));
    assert(song_file(b, filled, 0) =~= tables_bytes(b) + (entries_bytes(b, song_words(b).len() as int, filled)
        + lists_bytes(b, filled)));
}

proof fn lemma_next_list_bytes(b: Bgm, i: int, pad: Seq<u8>)
    requires
        encode_utf8(b.name@).len() <= 4,
        entries_plain(b),
        0 <= i < song_words(b).len(),
        fresh(b, i),
        pad == zeros((list_start(b, i) - (lists_start(b) + lists_bytes(b, i).len())) as nat),
    ensures
        overwrite(
            song_file(b, i, 0) + pad,
            song_size(b) + 4 * i + 2,
            u16_bytes(list_offset(list_start(b, i), word_start(b, i))),
        ) + list_bytes(entry_list(b, i).tracks@) == song_file(b, i + 1, 0),
{
    let m = song_words(b).len() as int;
    let t = song_size(b);
    let h = tables_bytes(b);
    let u = u16_bytes(list_offset(list_start(b, i), word_start(b, i)));
    lemma_split_song_file(b, i);
    lemma_split_song_file(b, i + 1);
    let rest = lists_bytes(b, i) + pad;
    lemma_fill_entry(b, m, i, rest);
    lemma_entries_len(b, m, i);
    lemma_entries_len(b, m, i + 1);
    assert(song_file(b, i, 0) + pad =~= h + (entries_bytes(b, m, i) + rest));
    lemma_overwrite_after(h, entries_bytes(b, m, i) + rest, 4 * i + 2, u);
    assert(h + (entries_bytes(b, m, i + 1) + rest) + list_bytes(entry_list(b, i).tracks@) =~= h + (entries_bytes(
        b,
        m,
        i + 1,
    ) + lists_bytes(b, i + 1)));
}

proof fn lemma_overwrite_after(h: Seq<u8>, x: Seq<u8>, p: int, d: Seq<u8>)
    requires
        0 <= p,
        p + d.len() <= x.len(),
    ensures
        overwrite(h + x, h.len() + p, d) == h + overwrite(x, p, d),
{
    assert(overwrite(h + x, h.len() + p, d) =~= h + overwrite(x, p, d));
}

/// Writing a track list of plain tracks when the writer is at the end of `x`.
proof fn lemma_encode_list_at(
    tl: TrackList,
    x: Seq<u8>,
    tracks_pos: int,
    segment_start: int,
    count: nat,
    meta: Map<u16, Seq<Seq<char>>>,
)
    requires
        tl.wf(),
        tl.pos is None,
        forall|i: int| 0 <= i < NUM_TRACKS ==> plain_track(#[trigger] tl.tracks@[i]),
        0x40 + seqs_bytes(tl.tracks@, NUM_TRACKS as int).len() < 0x1_0000,
        0 <= tracks_pos,
        tracks_pos + 2 <= x.len(),
        align_up(x.len() as int, 4) + list_bytes(tl.tracks@).len() <= usize::MAX,
    ensures
        encode_list(tl, Out { bytes: x, pos: x.len() as int }, tracks_pos, segment_start, count, meta) matches Ok(
            (o2, start, m),
        ) && start == align_up(x.len() as int, 4) && o2 == (Out {
            bytes: overwrite(
                x + zeros((start - x.len()) as nat),
                tracks_pos,
                u16_bytes(list_offset(start, segment_start)),
            ) + list_bytes(tl.tracks@),
            pos: start + list_bytes(tl.tracks@).len(),
        }) && m == add_names(meta, ((count % 0x1_0000 + 1) % 0x1_0000) as u16, list_names(tl.tracks@)),
{
    let pos = x.len() as int;
    let start = align_up(pos, 4);
    let pad = zeros((start - pos) as nat);
    let o = Out { bytes: x, pos };
    let o1 = Out { bytes: x + pad, pos: start };
    assert(align_out(o, 4) == Ok::<Out, IoError>(o1)) by {
        if pos % 4 == 0 {
            assert(x + pad =~= x);
        } else {
            lemma_append(x, pad);
        }
    }
    lemma_encode_list_aligned(tl, o, o1, tracks_pos, segment_start, count, meta);
    lemma_encode_list(tl, o1, tracks_pos, segment_start, count, meta);
}

/// Writing the track list of the `i`-th word, a fresh subsegment, after those before it.
#[verifier::spinoff_prover]
proof fn lemma_encode_next_list(b: Bgm, i: int, meta: Map<u16, Seq<Seq<char>>>)
    requires
        plain_song(b),
        encode_utf8(b.name@).len() <= 4,
        0 <= i < song_words(b).len(),
        fresh(b, i),
        song_end(b) <= usize::MAX,
    ensures
        encode_list(
            entry_list(b, i),
            Out { bytes: song_file(b, i, 0), pos: lists_start(b) + lists_bytes(b, i).len() },
            song_size(b) + 4 * i + 2,
            word_start(b, i),
            lists_before(b, i) as nat,
            meta,
        ) matches Ok((o2, start, m)) && start == list_start(b, i) && o2 == (Out {
            bytes: song_file(b, i + 1, 0),
            pos: lists_start(b) + lists_bytes(b, i + 1).len(),
        }) && m == add_names(
            meta,
            (((lists_before(b, i) as nat) % 0x1_0000 + 1) % 0x1_0000) as u16,
            list_names(entry_list(b, i).tracks@),
        ),
{
    let m = song_words(b).len() as int;
    let x = song_file(b, i, 0);
    lemma_lists_before_grow(b, i);
    lemma_song_file_len(b, i, 0);
    lemma_lists_grow(b, i + 1, m);
    assert(is_subseg(b, i) ==> plain_subseg(b, i));
    assert(entry_list(b, i).wf());
    lemma_encode_list_at(
        entry_list(b, i),
        x,
        song_size(b) + 4 * i + 2,
        word_start(b, i),
        lists_before(b, i) as nat,
        meta,
    );
    lemma_next_list_bytes(b, i, zeros((list_start(b, i) - (lists_start(b) + lists_bytes(b, i).len())) as nat));
}

/// The track names that encoding notes for the track lists of the subsegments among the first
/// `i` words of a song: under `k`, the names of the tracks after the first of
/// the `k`-th list written.
pub open spec fn song_names(b: Bgm, i: int) -> Map<u16, Seq<Seq<char>>>
    decreases i,
{
    if i <= 0 {
        Map::empty()
    } else if fresh(b, i - 1) {
        song_names(b, i - 1).insert(
            (lists_before(b, i - 1) + 1) as u16,
            list_names(entry_list(b, i - 1).tracks@),
        )
    } else {
        song_names(b, i - 1)
    }
}

/// The keys of the names noted for the first `i` entries are those of the lists written.
proof fn lemma_names_keys(b: Bgm, i: int)
    requires
        0 <= i,
        lists_before(b, i) < 0x1_0000,
    ensures
        forall|k: u16| #[trigger] song_names(b, i).contains_key(k) ==> 1 <= k <= lists_before(b, i),
    decreases i,
{
    if i > 0 {
        lemma_lists_before_grow(b, i - 1);
        lemma_names_keys(b, i - 1);
        if fresh(b, i - 1) {
            let key = (lists_before(b, i - 1) + 1) as u16;
            assert(key == lists_before(b, i - 1) + 1);
            assert forall|k: u16| #[trigger] song_names(b, i).contains_key(k) implies 1 <= k <= lists_before(
                b,
                i,
            ) by {
                if k != key {
                    assert(song_names(b, i - 1).contains_key(k));
                }
            }
        } else {
            assert(song_names(b, i) == song_names(b, i - 1));
        }
    }
}

/// Noting the names of the list of the `i`-th entry, a subsegment, after those before it.
proof fn lemma_names_step(b: Bgm, i: int, meta: Map<u16, Seq<Seq<char>>>)
    requires
        0 <= i,
        fresh(b, i),
        lists_before(b, i) + 1 < 0x1_0000,
        meta == song_names(b, i),
    ensures
        add_names(
            meta,
            (((lists_before(b, i) as nat) % 0x1_0000 + 1) % 0x1_0000) as u16,
            list_names(entry_list(b, i).tracks@),
        ) == song_names(b, i + 1),
{
    lemma_lists_before_grow(b, i);
    lemma_names_keys(b, i);
    let key = (((lists_before(b, i) as nat) % 0x1_0000 + 1) % 0x1_0000) as u16;
    assert(key == lists_before(b, i) + 1);
    assert(!meta.contains_key(key));
    assert(add_names(meta, key, list_names(entry_list(b, i).tracks@)) =~= song_names(b, i + 1));
}

/// Filling in the offset of a subsegment whose list was written for an earlier entry.
proof fn lemma_fill_repeated(b: Bgm, i: int)
    requires
        encode_utf8(b.name@).len() <= 4,
        entries_plain(b),
        0 <= i < song_words(b).len(),
        is_subseg(b, i),
        !fresh(b, i),
    ensures
        overwrite(
            song_file(b, i, 0),
            song_size(b) + 4 * i + 2,
            u16_bytes(list_offset(list_start(b, first_naming(b, i)), word_start(b, i))),
        ) == song_file(b, i + 1, 0),
        lists_bytes(b, i + 1) == lists_bytes(b, i),
{
    let m = song_words(b).len() as int;
    let t = song_size(b);
    let h = tables_bytes(b);
    let u = u16_bytes(list_offset(list_start(b, first_naming(b, i)), word_start(b, i)));
    lemma_split_song_file(b, i);
    lemma_split_song_file(b, i + 1);
    let rest = lists_bytes(b, i);
    lemma_fill_entry(b, m, i, rest);
    lemma_entries_len(b, m, i);
    lemma_entries_len(b, m, i + 1);
    assert(song_file(b, i, 0) =~= h + (entries_bytes(b, m, i) + rest));
    lemma_overwrite_after(h, entries_bytes(b, m, i) + rest, 4 * i + 2, u);
    assert(lists_bytes(b, i + 1) == lists_bytes(b, i));
    assert(h + (entries_bytes(b, m, i + 1) + rest) =~= h + (entries_bytes(b, m, i + 1) + lists_bytes(b, i + 1)));
}

/// Writing the track lists of a song from the `i`-th word on.
#[verifier::spinoff_prover]
#[verifier::rlimit(40)]
proof fn lemma_encode_lists(b: Bgm, i: int, written: Map<TrackListId, int>, meta: Map<u16, Seq<Seq<char>>>)
    requires
        plain_song(b),
        encode_utf8(b.name@).len() <= 4,
        0 <= i <= song_words(b).len(),
        lists_before(b, song_words(b).len() as int) < 0xFFFF,
        song_end(b) <= usize::MAX,
        written == written_lists(b, i),
        meta == song_names(b, i),
    ensures
        encode_pending(
            b,
            Out { bytes: song_file(b, i, 0), pos: lists_start(b) + lists_bytes(b, i).len() },
            entry_pendings(b, song_words(b).len() as int),
            subsegs_before(b, i),
            written,
            lists_before(b, i) as nat,
            meta,
        ) matches Ok((o, names)) && o == (Out {
            bytes: song_file(b, song_words(b).len() as int, 0),
            pos: song_end(b),
        }) && names == song_names(b, song_words(b).len() as int),
    decreases song_words(b).len() - i,
{
    let m = song_words(b).len() as int;
    let t = song_size(b);
    lemma_entry_pendings(b, m);
    lemma_subsegs_before_grow(b, i);
    lemma_lists_before_grow(b, i);
    if i < m {
        lemma_subsegs_before_mono(b, i + 1, m);
        lemma_lists_before_mono(b, i + 1, m);
        if is_subseg(b, i) {
            let key = word_list(b, i);
            assert(entry_pendings(b, m)[subsegs_before(b, i)] == (Pending::List {
                id: key,
                tracks_pos: t + 4 * i + 2,
                segment_start: word_start(b, i),
            }));
            lemma_written_lists(b, i);
            lemma_first_naming(b, i);
            if fresh(b, i) {
                assert(!written.contains_key(key));
                lemma_encode_next_list(b, i, meta);
                let r = encode_list(
                    entry_list(b, i),
                    Out { bytes: song_file(b, i, 0), pos: lists_start(b) + lists_bytes(b, i).len() },
                    t + 4 * i + 2,
                    word_start(b, i),
                    lists_before(b, i) as nat,
                    meta,
                )->Ok_0;
                let w2 = written.insert(key, r.1);
                assert(w2 == written_lists(b, i + 1));
                lemma_names_step(b, i, meta);
                lemma_encode_lists(b, i + 1, w2, r.2);
            } else {
                assert(written.contains_key(key));
                assert(written[key] == list_start(b, first_naming(b, i)));
                lemma_fill_repeated(b, i);
                lemma_song_file_len(b, i, 0);
                assert(written_lists(b, i + 1) == written);
                assert(song_names(b, i + 1) == meta);
                lemma_encode_lists(b, i + 1, written, meta);
            }
        } else {
            lemma_skip_entry(b, m, i);
            assert(lists_bytes(b, i + 1) == lists_bytes(b, i));
            assert(song_file(b, i + 1, 0) == song_file(b, i, 0));
            lemma_encode_lists(b, i + 1, written, meta);
        }
    } else {
        lemma_song_file_len(b, m, 0);
    }
}

proof fn lemma_set_size_song_file(b: Bgm, size: u32)
    requires
        encode_utf8(b.name@).len() <= 4,
    ensures
        overwrite(song_file(b, song_words(b).len() as int, 0), 4, u32_bytes(size)) == song_file(
            b,
            song_words(b).len() as int,
            size,
        ),
{
    let m = song_words(b).len() as int;
    let h0 = header_bytes(b, 0, drums_at(b), instruments_at(b));
    let hs = header_bytes(b, size, drums_at(b), instruments_at(b));
    let v = var_fields(b, NUM_VARIATIONS as int);
    lemma_header_len(b, 0, drums_at(b), instruments_at(b));
    lemma_set_size(b, size, drums_at(b), instruments_at(b), Seq::empty());
    assert(h0 + Seq::<u8>::empty() =~= h0);
    assert(hs + Seq::<u8>::empty() =~= hs);
    let rest = drums_bytes(b.drums@) + instruments_bytes(b.instruments@) + entries_bytes(b, m, m) + lists_bytes(b, m);
    assert(song_file(b, m, 0) =~= overwrite(h0, 0x14, v) + rest);
    assert(song_file(b, m, size) =~= overwrite(hs, 0x14, v) + rest);
    lemma_patch_prefix(overwrite(h0, 0x14, v), rest, 4, u32_bytes(size));
    assert(overwrite(overwrite(h0, 0x14, v), 4, u32_bytes(size)) =~= overwrite(overwrite(h0, 4, u32_bytes(size)), 0x14, v));
}

proof fn lemma_encode_bgm_steps(
    b: Bgm,
    o1: Out,
    o2: Out,
    o3: Out,
    o4: Out,
    todo: Seq<Pending>,
    o5: Out,
    meta: Map<u16, Seq<Seq<char>>>,
    o6: Out,
)
    requires
        encode_header(b, Out { bytes: Seq::empty(), pos: 0 }) == Ok::<Out, IoError>(o1),
        encode_table(o1, 0x1C, drums_bytes(b.drums@)) == Ok::<Out, IoError>(o2),
        encode_table(o2, 0x20, instruments_bytes(b.instruments@)) == Ok::<Out, IoError>(o3),
        encode_variations(b, o3, 0, Seq::new(b.unknowns@.len(), |i: int| Pending::Unknown { index: i })) == Ok::<
            (Out, Seq<Pending>),
            IoError,
        >((o4, todo)),
        encode_pending(b, o4, sort_pending(b, todo, 0, Seq::empty()), 0, Map::empty(), 0, Map::empty()) == Ok::<
            (Out, Map<u16, Seq<Seq<char>>>),
            EncodeFault,
        >((o5, meta)),
        emit_at(o5, 4, u32_bytes(file_size(b, o5.pos))) == Ok::<Out, IoError>(o6),
    ensures
        encode_bgm(b, Out { bytes: Seq::empty(), pos: 0 }) == Ok::<(Out, Map<u16, Seq<Seq<char>>>), EncodeFault>(
            (o6, meta),
        ),
{
}

proof fn lemma_sorted_entries(b: Bgm)
    requires
        plain_song(b),
    ensures
        sort_pending(b, entry_pendings(b, song_words(b).len() as int), 0, Seq::empty()) == entry_pendings(
            b,
            song_words(b).len() as int,
        ),
{
    let m = song_words(b).len() as int;
    let pend = entry_pendings(b, m);
    lemma_entry_pendings(b, m);
    assert forall|x: int| 0 <= x < pend.len() implies pending_key(b, #[trigger] pend[x]) == 0 by {
        assert(pend[x] matches Pending::List { id, .. } && b.track_lists@[id].pos is None);
    }
    lemma_sort_zero_keys(b, pend, 0, Seq::empty());
    assert(Seq::<Pending>::empty() + pend.skip(0) =~= pend);
}

proof fn lemma_written_is_start(b: Bgm)
    requires
        encode_utf8(b.name@).len() <= 4,
    ensures
        entries_written(b) == song_file(b, 0, 0),
        lists_start(b) + lists_bytes(b, 0).len() == lists_start(b),
{
    assert(lists_bytes(b, 0) =~= Seq::<u8>::empty());
    assert(entries_written(b) =~= song_file(b, 0, 0));
}

/// Writing the track lists of a song after its variations, then its size.
#[verifier::spinoff_prover]
#[verifier::rlimit(80)]
proof fn lemma_encode_song_tail(b: Bgm)
    requires
        plain_song(b),
        encode_utf8(b.name@).len() <= 4,
        b.name@ != "117 "@,
        b.name@ != "322 "@,
        song_end(b) < 0x1_0000_0000,
        lists_before(b, song_words(b).len() as int) < 0xFFFF,
    ensures
        encode_pending(
            b,
            Out { bytes: entries_written(b), pos: lists_start(b) },
            sort_pending(b, entry_pendings(b, song_words(b).len() as int), 0, Seq::empty()),
            0,
            Map::empty(),
            0,
            Map::empty(),
        ) matches Ok((o5, meta)) && meta == song_names(b, song_words(b).len() as int) && o5 == (Out {
            bytes: song_file(b, song_words(b).len() as int, 0),
            pos: song_end(b),
        }) && emit_at(o5, 4, u32_bytes(file_size(b, o5.pos))) == Ok::<Out, IoError>(
            Out {
                bytes: song_file(b, song_words(b).len() as int, song_end(b) as u32),
                pos: song_end(b),
            },
        ),
{
    let m = song_words(b).len() as int;
    lemma_sorted_entries(b);
    lemma_written_is_start(b);
    assert(song_names(b, 0) =~= Map::<u16, Seq<Seq<char>>>::empty());
    assert(written_lists(b, 0) =~= Map::<TrackListId, int>::empty());
    lemma_encode_lists(b, 0, Map::empty(), Map::empty());
    let size = file_size(b, song_end(b));
    assert(size == song_end(b) as u32);
    lemma_set_size_song_file(b, size);
    lemma_song_file_len(b, m, 0);
}

/// Encoding a song writes [`song_file`] with all entries filled in, all lists written and the
/// file's size in the header.
pub proof fn lemma_encode_song(b: Bgm)
    requires
        plain_song(b),
        encode_utf8(b.name@).len() <= 4,
        b.name@ != "117 "@,
        b.name@ != "322 "@,
        instruments_start(b) < 0x4_0000,
        b.instruments@.len() < 0x1_0000,
        song_end(b) < 0x1_0000_0000,
        lists_before(b, song_words(b).len() as int) < 0xFFFF,
    ensures
        encode_bgm(b, Out { bytes: Seq::empty(), pos: 0 }) matches Ok((o, names)) && o == (Out {
            bytes: song_file(b, song_words(b).len() as int, song_end(b) as u32),
            pos: song_end(b),
        }) && names == song_names(b, song_words(b).len() as int),
{
    let m = song_words(b).len() as int;
    lemma_lists_grow(b, 0, m);
    lemma_encode_header(b);
    lemma_drum_table(b);
    lemma_instrument_table(b);
    assert(Seq::new(b.unknowns@.len(), |i: int| Pending::Unknown { index: i }) =~= Seq::<Pending>::empty());
    lemma_encode_song_variations(b);
    lemma_encode_song_tail(b);
    let r = encode_pending(
        b,
        Out { bytes: entries_written(b), pos: lists_start(b) },
        sort_pending(b, entry_pendings(b, m), 0, Seq::empty()),
        0,
        Map::empty(),
        0,
        Map::empty(),
    )->Ok_0;
    lemma_encode_bgm_steps(
        b,
        Out { bytes: header_bytes(b, 0, 0, 0), pos: 0x24 },
        Out { bytes: header_bytes(b, 0, drums_at(b), 0) + drums_bytes(b.drums@), pos: instruments_start(b) },
        Out {
            bytes: header_bytes(b, 0, drums_at(b), instruments_at(b)) + drums_bytes(b.drums@) + instruments_bytes(
                b.instruments@,
            ),
            pos: song_size(b),
        },
        Out { bytes: entries_written(b), pos: lists_start(b) },
        entry_pendings(b, m),
        r.0,
        r.1,
        Out {
            bytes: song_file(b, m, song_end(b) as u32),
            pos: song_end(b),
        },
    );
}

/// What a header holds, read from the fields it is made of.
proof fn lemma_header_read_v(s: Seq<u8>, size: u32, f: Seq<u16>, da: u16, d: u16, ia: u16, n: u16)
    requires
        s.len() >= 0x24,
        f.len() == NUM_VARIATIONS,
        s.subrange(4, 8) == u32_bytes(size),
        s.subrange(12, 0x14) == seq![0u8, 0u8, 0u8, 0u8, 4u8, 0u8, 0u8, 0u8],
        s.subrange(0x14, 0x1C) == u16_bytes(f[0]) + u16_bytes(f[1]) + u16_bytes(f[2]) + u16_bytes(f[3]),
        s.subrange(0x1C, 0x1E) == u16_bytes(da),
        s.subrange(0x1E, 0x20) == u16_bytes(d),
        s.subrange(0x20, 0x22) == u16_bytes(ia),
        s.subrange(0x22, 0x24) == u16_bytes(n),
    ensures
        be32(s[4], s[5], s[6], s[7]) == size,
        zero_run(s, 12, 4),
        s[16] == 4,
        zero_run(s, 17, 3),
        forall|k: int| 0 <= k < NUM_VARIATIONS ==> be16(s[0x14 + 2 * k], s[0x15 + 2 * k]) == #[trigger] f[k],
        be16(s[0x1C], s[0x1D]) == da,
        be16(s[0x1E], s[0x1F]) == d,
        be16(s[0x20], s[0x21]) == ia,
        be16(s[0x22], s[0x23]) == n,
{
    lemma_u32_bytes(size);
    lemma_u16_bytes(f[0]);
    lemma_u16_bytes(f[1]);
    lemma_u16_bytes(f[2]);
    lemma_u16_bytes(f[3]);
    lemma_u16_bytes(da);
    lemma_u16_bytes(d);
    lemma_u16_bytes(ia);
    lemma_u16_bytes(n);
    let z = seq![0u8, 0u8, 0u8, 0u8, 4u8, 0u8, 0u8, 0u8];
    let fb = u16_bytes(f[0]) + u16_bytes(f[1]) + u16_bytes(f[2]) + u16_bytes(f[3]);
    assert forall|i: int| 0 <= i < 8 implies s[12 + i] == z[i] by {
        assert(s.subrange(12, 0x14)[i] == s[12 + i]);
    }
    assert forall|i: int| 0 <= i < 8 implies #[trigger] s[0x14 + i] == fb[i] by {
        assert(s.subrange(0x14, 0x1C)[i] == s[0x14 + i]);
    }
    assert forall|k: int| 0 <= k < NUM_VARIATIONS implies be16(s[0x14 + 2 * k], s[0x15 + 2 * k]) == #[trigger] f[k] by {
        assert(s[0x14 + 2 * k] == fb[2 * k]);
        assert(s[0x14 + (2 * k + 1)] == fb[2 * k + 1]);
        assert(fb[2 * k] == u16_bytes(f[k])[0]);
        assert(fb[2 * k + 1] == u16_bytes(f[k])[1]);
    }
    assert(s[4] == s.subrange(4, 8)[0] && s[5] == s.subrange(4, 8)[1] && s[6] == s.subrange(4, 8)[2] && s[7]
        == s.subrange(4, 8)[3]);
    assert(s[0x1C] == s.subrange(0x1C, 0x1E)[0] && s[0x1D] == s.subrange(0x1C, 0x1E)[1]);
    assert(s[0x1E] == s.subrange(0x1E, 0x20)[0] && s[0x1F] == s.subrange(0x1E, 0x20)[1]);
    assert(s[0x20] == s.subrange(0x20, 0x22)[0] && s[0x21] == s.subrange(0x20, 0x22)[1]);
    assert(s[0x22] == s.subrange(0x22, 0x24)[0] && s[0x23] == s.subrange(0x22, 0x24)[1]);
    assert forall|i: int| 0 <= i < 4 implies #[trigger] s[12 + i] == 0 by {
        assert(s[12 + i] == z[i]);
    }
    assert(s[16int] == z[4]);
    assert forall|i: int| 0 <= i < 3 implies #[trigger] s[17 + i] == 0 by {
        assert(s[12 + (5 + i)] == z[5 + i]);
    }
}

/// The offset fields of a song's variations, as a sequence.
pub open spec fn field_seq(b: Bgm) -> Seq<u16> {
    Seq::new(NUM_VARIATIONS as nat, |k: int| var_field(b, k, NUM_VARIATIONS as int))
}

/// The fields of the header of a song's bytes.
#[verifier::spinoff_prover]
proof fn lemma_song_file_header(b: Bgm, size: u32)
    requires
        encode_utf8(b.name@).len() <= 4,
        entries_plain(b),
    ensures
        ({
            let s = song_file(b, song_words(b).len() as int, size);
            &&& s.subrange(0, 4) == bgm_magic()
            &&& s.subrange(4, 8) == u32_bytes(size)
            &&& s.subrange(8, 12) == name_field(b.name@)
            &&& s.subrange(12, 0x14) == seq![0u8, 0u8, 0u8, 0u8, 4u8, 0u8, 0u8, 0u8]
            &&& s.subrange(0x14, 0x1C) == var_fields(b, NUM_VARIATIONS as int)
            &&& s.subrange(0x1C, 0x1E) == u16_bytes(drums_at(b))
            &&& s.subrange(0x1E, 0x20) == u16_bytes((b.drums@.len() % 0x1_0000) as u16)
            &&& s.subrange(0x20, 0x22) == u16_bytes(instruments_at(b))
            &&& s.subrange(0x22, 0x24) == u16_bytes((b.instruments@.len() % 0x1_0000) as u16)
        }),
{
    let m = song_words(b).len() as int;
    let s = song_file(b, m, size);
    let h = header_bytes(b, size, drums_at(b), instruments_at(b));
    let hv = song_header(b, size, NUM_VARIATIONS as int);
    lemma_header_fields(b, size, drums_at(b), instruments_at(b));
    assert(hv.len() == 0x24);
    let rest = drums_bytes(b.drums@) + instruments_bytes(b.instruments@) + entries_bytes(b, m, m) + lists_bytes(b, m);
    assert(s =~= hv + rest);
    assert(s.subrange(0, 0x24) =~= hv);
    assert(hv.subrange(0, 4) =~= h.subrange(0, 4));
    assert(hv.subrange(4, 8) =~= h.subrange(4, 8));
    assert(hv.subrange(8, 12) =~= h.subrange(8, 12));
    assert(hv.subrange(12, 0x14) =~= h.subrange(12, 0x1C).subrange(0, 8));
    assert(hv.subrange(0x14, 0x1C) =~= var_fields(b, NUM_VARIATIONS as int));
    assert(hv.subrange(0x1C, 0x1E) =~= h.subrange(0x1C, 0x1E));
    assert(hv.subrange(0x1E, 0x20) =~= h.subrange(0x1E, 0x20));
    assert(hv.subrange(0x20, 0x22) =~= h.subrange(0x20, 0x22));
    assert(hv.subrange(0x22, 0x24) =~= h.subrange(0x22, 0x24));
    assert(seq![0u8, 0u8, 0u8, 0u8, 4u8, 0u8, 0u8, 0u8].add(zeros(8)).subrange(0, 8) =~= seq![
        0u8,
        0u8,
        0u8,
        0u8,
        4u8,
        0u8,
        0u8,
        0u8,
    ]);
    assert(s.subrange(0, 4) =~= hv.subrange(0, 4));
    assert(s.subrange(4, 8) =~= hv.subrange(4, 8));
    assert(s.subrange(8, 12) =~= hv.subrange(8, 12));
    assert(s.subrange(12, 0x14) =~= hv.subrange(12, 0x14));
    assert(s.subrange(0x14, 0x1C) =~= hv.subrange(0x14, 0x1C));
    assert(s.subrange(0x1C, 0x1E) =~= hv.subrange(0x1C, 0x1E));
    assert(s.subrange(0x1E, 0x20) =~= hv.subrange(0x1E, 0x20));
    assert(s.subrange(0x20, 0x22) =~= hv.subrange(0x20, 0x22));
    assert(s.subrange(0x22, 0x24) =~= hv.subrange(0x22, 0x24));
}

proof fn lemma_entry_at(b: Bgm, n: int, j: int)
    requires
        entries_plain(b),
        0 <= j < n <= song_words(b).len(),
    ensures
        entries_bytes(b, n, n).subrange(4 * j, 4 * j + 4) == entry_bytes(b, j, n),
    decreases n,
{
    lemma_entries_len(b, n - 1, n);
    lemma_same_entries(b, n - 1, n, n - 1);
    if j < n - 1 {
        lemma_entry_at(b, n - 1, j);
        assert(entries_bytes(b, n, n).subrange(4 * j, 4 * j + 4) =~= entries_bytes(b, n - 1, n - 1).subrange(
            4 * j,
            4 * j + 4,
        ));
        assert(entry_bytes(b, j, n) == entry_bytes(b, j, n - 1));
    } else {
        assert(plain_word(b, j));
        assert(entries_bytes(b, n, n).subrange(4 * j, 4 * j + 4) =~= entry_bytes(b, j, n));
    }
}

proof fn lemma_list_at(b: Bgm, j: int, k: int)
    requires
        0 <= j < k,
        fresh(b, j),
    ensures
        lists_bytes(b, k).subrange(
            list_start(b, j) - lists_start(b),
            list_start(b, j) - lists_start(b) + list_bytes(entry_list(b, j).tracks@).len(),
        ) == list_bytes(entry_list(b, j).tracks@),
        list_start(b, j) + list_bytes(entry_list(b, j).tracks@).len() == lists_start(b) + lists_bytes(b, j + 1).len(),
{
    lemma_lists_grow(b, j + 1, k);
    let l = list_bytes(entry_list(b, j).tracks@);
    let a = list_start(b, j) - lists_start(b);
    assert(lists_bytes(b, k).subrange(a, a + l.len()) =~= lists_bytes(b, j + 1).subrange(a, a + l.len()));
    assert(lists_bytes(b, j + 1).subrange(a, a + l.len()) =~= l);
}

proof fn lemma_six_parts(p0: Seq<u8>, p1: Seq<u8>, p2: Seq<u8>, p3: Seq<u8>, p4: Seq<u8>, p5: Seq<u8>)
    ensures
        ({
            let s = p0 + p1 + p2 + p3 + p4 + p5;
            let a = (p0.len() + p1.len() + p2.len()) as int;
            let c = a + p3.len() + p4.len();
            &&& s.len() == c + p5.len()
            &&& s.subrange(p0.len() as int, (p0.len() + p1.len()) as int) == p1
            &&& s.subrange((p0.len() + p1.len()) as int, a) == p2
            &&& (forall|x: int, y: int|
                0 <= x <= y <= p3.len() ==> #[trigger] s.subrange(a + x, a + y) == p3.subrange(x, y))
            &&& s.subrange(a + p3.len(), c) == p4
            &&& (forall|x: int, y: int|
                0 <= x <= y <= p5.len() ==> #[trigger] s.subrange(c + x, c + y) == p5.subrange(x, y))
        }),
{
    let s = p0 + p1 + p2 + p3 + p4 + p5;
    let a = (p0.len() + p1.len() + p2.len()) as int;
    let c = a + p3.len() + p4.len();
    assert(s.subrange(p0.len() as int, (p0.len() + p1.len()) as int) =~= p1);
    assert(s.subrange((p0.len() + p1.len()) as int, a) =~= p2);
    assert forall|x: int, y: int| 0 <= x <= y <= p3.len() implies #[trigger] s.subrange(a + x, a + y) == p3.subrange(
        x,
        y,
    ) by {
        assert(s.subrange(a + x, a + y) =~= p3.subrange(x, y));
    }
    assert(s.subrange(a + p3.len(), c) =~= p4);
    assert forall|x: int, y: int| 0 <= x <= y <= p5.len() implies #[trigger] s.subrange(c + x, c + y) == p5.subrange(
        x,
        y,
    ) by {
        assert(s.subrange(c + x, c + y) =~= p5.subrange(x, y));
    }
}

proof fn lemma_parts_basics(b: Bgm, size: u32)
    requires
        encode_utf8(b.name@).len() <= 4,
        entries_plain(b),
    ensures
        ({
            let m = song_words(b).len() as int;
            let s = song_file(b, m, size);
            let hv = song_header(b, size, NUM_VARIATIONS as int);
            &&& s == hv + drums_bytes(b.drums@) + instruments_bytes(b.instruments@) + entries_bytes(b, m, m) + Seq::<
                u8,
            >::empty() + lists_bytes(b, m)
            &&& hv.len() == 0x24
            &&& drums_bytes(b.drums@).len() == 12 * b.drums@.len()
            &&& instruments_bytes(b.instruments@).len() == 8 * b.instruments@.len()
            &&& entries_bytes(b, m, m).len() == 4 * m
            &&& s.len() == song_end(b)
        }),
{
    let m = song_words(b).len() as int;
    lemma_drums_bytes_len(b.drums@);
    lemma_instruments_bytes_len(b.instruments@);
    lemma_header_len(b, size, drums_at(b), instruments_at(b));
    lemma_entries_len(b, m, m);
    lemma_song_file_len(b, m, size);
    let hv = song_header(b, size, NUM_VARIATIONS as int);
    assert(song_file(b, m, size) =~= hv + drums_bytes(b.drums@) + instruments_bytes(b.instruments@) + entries_bytes(
        b,
        m,
        m,
    ) + Seq::<u8>::empty() + lists_bytes(b, m));
}

/// Where the parts of a song lie in its bytes.
#[verifier::spinoff_prover]
#[verifier::rlimit(60)]
proof fn lemma_song_file_parts(b: Bgm, size: u32)
    requires
        encode_utf8(b.name@).len() <= 4,
        entries_plain(b),
    ensures
        ({
            let s = song_file(b, song_words(b).len() as int, size);
            let m = song_words(b).len() as int;
            &&& s.len() == song_end(b)
            &&& s.subrange(0x24, instruments_start(b)) == drums_bytes(b.drums@)
            &&& s.subrange(instruments_start(b), song_size(b)) == instruments_bytes(b.instruments@)
            &&& (forall|j: int|
                0 <= j < m ==> #[trigger] s.subrange(song_size(b) + 4 * j, song_size(b) + 4 * j + 4) == entry_bytes(
                    b,
                    j,
                    m,
                ))
            &&& (forall|j: int|
                0 <= j < m && fresh(b, j) ==> #[trigger] s.subrange(
                    list_start(b, j),
                    list_start(b, j) + list_bytes(entry_list(b, j).tracks@).len(),
                ) == list_bytes(entry_list(b, j).tracks@))
        }),
{
    let m = song_words(b).len() as int;
    let s = song_file(b, m, size);
    let t = song_size(b);
    let hv = song_header(b, size, NUM_VARIATIONS as int);
    let db = drums_bytes(b.drums@);
    let ib = instruments_bytes(b.instruments@);
    let e = entries_bytes(b, m, m);
    let l = lists_bytes(b, m);
    lemma_parts_basics(b, size);
    lemma_six_parts(hv, db, ib, e, Seq::empty(), l);
    assert forall|j: int| 0 <= j < m implies #[trigger] s.subrange(t + 4 * j, t + 4 * j + 4) == entry_bytes(b, j, m) by {
        lemma_entry_at(b, m, j);
        assert(s.subrange(t + 4 * j, t + 4 * j + 4) == e.subrange(4 * j, 4 * j + 4));
    }
    assert forall|j: int| 0 <= j < m && fresh(b, j) implies #[trigger] s.subrange(
        list_start(b, j),
        list_start(b, j) + list_bytes(entry_list(b, j).tracks@).len(),
    ) == list_bytes(entry_list(b, j).tracks@) by {
        lemma_list_at(b, j, m);
        lemma_lists_grow(b, j + 1, m);
        let a = list_start(b, j) - lists_start(b);
        let n = list_bytes(entry_list(b, j).tracks@).len();
        assert(s.subrange(lists_start(b) + a, lists_start(b) + (a + n)) == l.subrange(a, a + n));
    }
}

proof fn lemma_find_none(ps: Seq<Option<u64>>, p: u64, i: int)
    requires
        0 <= i,
        forall|j: int| i <= j < ps.len() ==> ps[j] != Some(p),
    ensures
        find_pos(ps, p, i) is None,
    decreases ps.len() - i,
{
    if i < ps.len() {
        lemma_find_none(ps, p, i + 1);
    }
}

/// Whether `l`, a decoded track list, is the list of the `j`-th word of a song read back: at its place, with its tracks' settings and commands.
pub open spec fn list_read_back(b: Bgm, j: int, l: (u64, Seq<TrackModel>)) -> bool {
    &&& l.0 == list_start(b, j)
    &&& l.1.len() == NUM_TRACKS
    &&& forall|k: int| 0 <= k < NUM_TRACKS ==> track_read_back(#[trigger] entry_list(b, j).tracks@[k], l.1[k])
}

/// Whether the decoded lists `ls` are those of the [`fresh`] subsegments among the first `i`
/// words of a song, read back in order, each after the one before and all before
/// where the next list would go.
pub open spec fn lists_read_back(b: Bgm, ls: ListModels, i: int) -> bool {
    &&& ls.len() == lists_before(b, i)
    &&& forall|k: int| 0 <= k < ls.len() ==> (#[trigger] ls[k]).0 < list_start(b, i)
    &&& forall|k1: int, k2: int| 0 <= k1 < k2 < ls.len() ==> (#[trigger] ls[k1]).0 < (#[trigger] ls[k2]).0
    &&& forall|j: int|
        0 <= j < i && fresh(b, j) ==> list_read_back(b, j, #[trigger] ls[lists_before(b, j)])
}

/// Whether the decoded entries `segs` are the first `j` entries of the `v`-th variation of a
/// song read back: each subsegment naming the list read for the first subsegment of the song
/// that named its list (the lists are keyed 1 on in the order they are read), each other entry
/// as it was, with a fresh identifier.
pub open spec fn entries_read_back(b: Bgm, v: int, segs: Seq<Segment>, j: int) -> bool {
    let base = words_upto(b, v).len() as int;
    &&& segs.len() == j
    &&& forall|k: int|
        0 <= k < j ==> if is_subseg(b, base + k) {
            #[trigger] segs[k] matches Segment::Subseg { track_list, .. } && track_list == lists_before(
                b,
                first_naming(b, base + k),
            ) + 1
        } else {
            segment_with_id(segs[k], None) == segment_with_id(var_entries(b, v)[k], None)
        }
}

/// Where the track lists of a song can be found from its entries and read back: each within
/// 0x4000 bytes of the start of the variations of the subsegments that name it (the reach of an
/// entry's offset), and with no sequence ending at position 0x38EB.
pub open spec fn lists_reachable(b: Bgm) -> bool {
    &&& forall|j: int|
        0 <= j < song_words(b).len() && is_subseg(b, j) ==> #[trigger] list_start(b, first_naming(b, j)) - word_start(
            b,
            j,
        ) < 0x4000
    &&& forall|j: int|
        0 <= j < song_words(b).len() && fresh(b, j) ==> forall|k: int|
            0 <= k < NUM_TRACKS && (#[trigger] entry_list(b, j).tracks@[k]).commands@.len() != 0 ==> list_start(b, j)
                + 0x40 + seqs_bytes(entry_list(b, j).tracks@, k + 1).len() != 0x38EB
}

/// Whether each present variation of a song starts where its 16-bit header field, counted in
/// units of 4, reaches: below 0x10000 (the field wraps there).
pub open spec fn vars_reachable(b: Bgm) -> bool {
    forall|v: int| 0 <= v < NUM_VARIATIONS && b.variations@[v] is Some ==> #[trigger] var_start(b, v) < 0x1_0000
}

/// The starts of the variations of the words: after the tables, at a multiple of 4 from them,
/// no later than the words themselves.
proof fn lemma_starts_bounds(b: Bgm, k: int)
    requires
        0 <= k,
    ensures
        starts_upto(b, k).len() == words_upto(b, k).len(),
        forall|w: int|
            0 <= w < starts_upto(b, k).len() ==> song_size(b) <= #[trigger] starts_upto(b, k)[w] <= song_size(b) + 4 * w
                && (starts_upto(b, k)[w] - song_size(b)) % 4 == 0,
    decreases k,
{
    lemma_starts_len(b, k);
    if k > 0 {
        lemma_starts_bounds(b, k - 1);
        lemma_starts_len(b, k - 1);
        let prev = starts_upto(b, k - 1);
        assert forall|w: int| 0 <= w < starts_upto(b, k).len() implies song_size(b) <= #[trigger] starts_upto(b, k)[w]
            <= song_size(b) + 4 * w && (starts_upto(b, k)[w] - song_size(b)) % 4 == 0 by {
            if w < prev.len() {
                assert(starts_upto(b, k)[w] == prev[w]);
            } else {
                assert(starts_upto(b, k)[w] == var_start(b, k - 1));
            }
        }
    }
}

/// Where a word's variation starts: after the tables, at a multiple of 4, no later than it.
proof fn lemma_word_start(b: Bgm, w: int)
    requires
        0 <= w < song_words(b).len(),
    ensures
        song_size(b) <= word_start(b, w) <= song_size(b) + 4 * w,
        word_start(b, w) % 4 == 0,
{
    lemma_starts_bounds(b, NUM_VARIATIONS as int);
    assert(song_size(b) % 4 == 0);
}

/// Lists start no earlier for later entries.
proof fn lemma_list_start_mono(b: Bgm, j: int, k: int)
    requires
        0 <= j <= k,
    ensures
        list_start(b, j) <= list_start(b, k),
        list_start(b, j) >= lists_start(b),
{
    lemma_lists_grow(b, j, k);
}

proof fn lemma_list_starts_grow(b: Bgm, j: int, k: int)
    requires
        0 <= j < k,
        fresh(b, j),
    ensures
        list_start(b, j) < list_start(b, k),
        list_start(b, j) >= lists_start(b),
{
    crate::bgm::list_roundtrip::lemma_list_bytes_len(entry_list(b, j).tracks@);
    lemma_list_at(b, j, j + 1);
    lemma_lists_grow(b, j + 1, k);
    lemma_list_start_mono(b, j, j);
}

/// What the bytes of a song hold where its variations' words and its lists are.
pub open spec fn entries_and_lists_at(b: Bgm, s: Seq<u8>) -> bool {
    let t = song_size(b);
    let m = song_words(b).len() as int;
    &&& t + 4 * m <= s.len()
    &&& (forall|j: int| 0 <= j < m ==> #[trigger] s.subrange(t + 4 * j, t + 4 * j + 4) == entry_bytes(b, j, m))
    &&& (forall|j: int|
        0 <= j < m && fresh(b, j) ==> #[trigger] list_start(b, j) + list_bytes(
            entry_list(b, j).tracks@,
        ).len() <= s.len())
    &&& (forall|j: int|
        0 <= j < m && fresh(b, j) ==> #[trigger] s.subrange(
            list_start(b, j),
            list_start(b, j) + list_bytes(entry_list(b, j).tracks@).len(),
        ) == list_bytes(entry_list(b, j).tracks@))
}

proof fn lemma_offset_word(t: int, st: int, b0: u8, b1: u8, b2: u8, b3: u8)
    requires
        t % 4 == 0,
        st % 4 == 0,
        t <= st < t + 0x4000,
        seq![b0, b1, b2, b3] == u16_bytes(0x1000) + u16_bytes(list_offset(st, t)),
    ensures
        be32(b0, b1, b2, b3) != 0,
        be32(b0, b1, b2, b3) / 0x1000 == 0x10000,
        t + (be32(b0, b1, b2, b3) % 0x1_0000) * 4 == st,
{
    let off = list_offset(st, t);
    assert(off == (st - t) / 4);
    lemma_u16_bytes(off);
    assert(seq![b0, b1, b2, b3][2] == u16_bytes(off)[0]);
    assert(seq![b0, b1, b2, b3][3] == u16_bytes(off)[1]);
    assert(b0 == 0x10 && b1 == 0);
    assert(be32(b0, b1, b2, b3) == 0x1000_0000 + off);
}

proof fn lemma_segment_subseg(
    s: Seq<u8>,
    p: int,
    t: int,
    ps: Seq<Option<u64>>,
    id: u32,
    st: int,
    ts: Seq<TrackModel>,
    id1: u32,
)
    requires
        0 <= p,
        p + 4 <= s.len(),
        be32(s[p], s[p + 1], s[p + 2], s[p + 3]) / 0x1000 == 0x10000,
        t + (be32(s[p], s[p + 1], s[p + 2], s[p + 3]) % 0x1_0000) * 4 == st,
        find_pos(ps, st as u64, 0) is None,
        decode_tracks(s, st, 0, Seq::empty(), id) == Ok::<(Seq<TrackModel>, u32), Error>((ts, id1)),
    ensures
        decode_segment(s, p, t, ps, id) == Ok::<(Segment, Option<(u64, Seq<TrackModel>)>, u32), Error>(
            (Segment::Subseg { id: Some(id1), track_list: (ps.len() + 1) as u64 }, Some((st as u64, ts)), next_id(id1)),
        ),
{
}

/// Reading an entry that points to a track list of plain tracks at `st`, not read before.
#[verifier::spinoff_prover]
proof fn lemma_decode_entry_at(
    s: Seq<u8>,
    t: int,
    p: int,
    st: int,
    tracks: Seq<crate::bgm::Track>,
    ls: ListModels,
    id: u32,
) -> (r: (Seq<TrackModel>, u32))
    requires
        0 <= p,
        0 <= t,
        p + 4 <= s.len(),
        s.subrange(p, p + 4) == u16_bytes(0x1000) + u16_bytes(list_offset(st, t)),
        t % 4 == 0,
        st % 4 == 0,
        t <= st < t + 0x4000,
        st < 0x1_0000_0000,
        forall|j: int| 0 <= j < ls.len() ==> (#[trigger] ls[j]).0 != st,
        tracks.len() == NUM_TRACKS,
        forall|k: int| 0 <= k < NUM_TRACKS ==> plain_track(#[trigger] tracks[k]),
        0x40 + seqs_bytes(tracks, NUM_TRACKS as int).len() < 0x1_0000,
        st + list_bytes(tracks).len() <= s.len(),
        s.subrange(st, st + list_bytes(tracks).len()) == list_bytes(tracks),
        forall|k: int|
            0 <= k < NUM_TRACKS && (#[trigger] tracks[k]).commands@.len() != 0 ==> st + 0x40 + seqs_bytes(
                tracks,
                k + 1,
            ).len() != 0x38EB,
    ensures
        be32(s[p], s[p + 1], s[p + 2], s[p + 3]) != 0,
        decode_segment(s, p, t, model_positions(ls), id) == Ok::<(Segment, Option<(u64, Seq<TrackModel>)>, u32), Error>(
            (
                Segment::Subseg { id: Some(r.1), track_list: (ls.len() + 1) as u64 },
                Some((st as u64, r.0)),
                next_id(r.1),
            ),
        ),
        r.0.len() == NUM_TRACKS,
        forall|k: int| 0 <= k < NUM_TRACKS ==> track_read_back(#[trigger] tracks[k], r.0[k]),
{
    lemma_entry_word_at(s, t, p, st);
    lemma_not_read_before(ls, st);
    let r = lemma_list_tracks_at(s, st, tracks, id);
    lemma_segment_subseg(s, p, t, model_positions(ls), id, st, r.0, r.1);
    r
}

proof fn lemma_entry_word_at(s: Seq<u8>, t: int, p: int, st: int)
    requires
        0 <= p,
        p + 4 <= s.len(),
        s.subrange(p, p + 4) == u16_bytes(0x1000) + u16_bytes(list_offset(st, t)),
        t % 4 == 0,
        st % 4 == 0,
        t <= st < t + 0x4000,
    ensures
        be32(s[p], s[p + 1], s[p + 2], s[p + 3]) != 0,
        be32(s[p], s[p + 1], s[p + 2], s[p + 3]) / 0x1000 == 0x10000,
        t + (be32(s[p], s[p + 1], s[p + 2], s[p + 3]) % 0x1_0000) * 4 == st,
{
    assert(s.subrange(p, p + 4) =~= seq![s[p], s[p + 1], s[p + 2], s[p + 3]]);
    lemma_offset_word(t, st, s[p], s[p + 1], s[p + 2], s[p + 3]);
}

proof fn lemma_not_read_before(ls: ListModels, st: int)
    requires
        0 <= st < 0x1_0000_0000,
        forall|j: int| 0 <= j < ls.len() ==> (#[trigger] ls[j]).0 != st,
    ensures
        find_pos(model_positions(ls), st as u64, 0) is None,
{
    let ps = model_positions(ls);
    assert forall|j: int| 0 <= j < ps.len() implies ps[j] != Some(st as u64) by {
        assert(ps[j] == Some(ls[j].0));
        assert(ls[j].0 != st);
    }
    lemma_find_none(ps, st as u64, 0);
}

proof fn lemma_list_tracks_at(s: Seq<u8>, st: int, tracks: Seq<crate::bgm::Track>, id: u32) -> (r: (
    Seq<TrackModel>,
    u32,
))
    requires
        0 <= st,
        tracks.len() == NUM_TRACKS,
        forall|k: int| 0 <= k < NUM_TRACKS ==> plain_track(#[trigger] tracks[k]),
        0x40 + seqs_bytes(tracks, NUM_TRACKS as int).len() < 0x1_0000,
        st + list_bytes(tracks).len() <= s.len(),
        s.subrange(st, st + list_bytes(tracks).len()) == list_bytes(tracks),
        forall|k: int|
            0 <= k < NUM_TRACKS && (#[trigger] tracks[k]).commands@.len() != 0 ==> st + 0x40 + seqs_bytes(
                tracks,
                k + 1,
            ).len() != 0x38EB,
    ensures
        decode_tracks(s, st, 0, Seq::empty(), id) == Ok::<(Seq<TrackModel>, u32), Error>(r),
        r.0.len() == NUM_TRACKS,
        forall|k: int| 0 <= k < NUM_TRACKS ==> track_read_back(#[trigger] tracks[k], r.0[k]),
{
    lemma_decode_tracks(tracks, s, st, 0, Seq::empty(), id);
    let r = decode_tracks(s, st, 0, Seq::empty(), id)->Ok_0;
    assert forall|k: int| 0 <= k < NUM_TRACKS implies track_read_back(#[trigger] tracks[k], r.0[k]) by {
        assert(r.0[0 + (k - 0)] == r.0[k]);
    }
    r
}

/// What the bytes of a song and the lists read so far say of its `i`-th word, a fresh
/// subsegment, and the list it names.
#[verifier::spinoff_prover]
proof fn lemma_entry_facts(b: Bgm, s: Seq<u8>, i: int, ls: ListModels)
    requires
        plain_song(b),
        lists_reachable(b),
        entries_and_lists_at(b, s),
        song_end(b) < 0x1_0000_0000,
        0 <= i < song_words(b).len(),
        fresh(b, i),
        lists_read_back(b, ls, i),
    ensures
        ({
            let t = word_start(b, i);
            let p = song_size(b) + 4 * i;
            let st = list_start(b, i);
            let tracks = entry_list(b, i).tracks@;
            &&& 0 <= t
            &&& 0 <= p
            &&& p + 4 <= s.len()
            &&& s.subrange(p, p + 4) == u16_bytes(0x1000) + u16_bytes(list_offset(st, t))
            &&& t % 4 == 0
            &&& st % 4 == 0
            &&& t <= st < t + 0x4000
            &&& st < 0x1_0000_0000
            &&& forall|j: int| 0 <= j < ls.len() ==> (#[trigger] ls[j]).0 != st
            &&& tracks.len() == NUM_TRACKS
            &&& forall|k: int| 0 <= k < NUM_TRACKS ==> plain_track(#[trigger] tracks[k])
            &&& 0x40 + seqs_bytes(tracks, NUM_TRACKS as int).len() < 0x1_0000
            &&& st + list_bytes(tracks).len() <= s.len()
            &&& s.subrange(st, st + list_bytes(tracks).len()) == list_bytes(tracks)
            &&& forall|k: int|
                0 <= k < NUM_TRACKS && (#[trigger] tracks[k]).commands@.len() != 0 ==> st + 0x40 + seqs_bytes(
                    tracks,
                    k + 1,
                ).len() != 0x38EB
        }),
{
    let t = word_start(b, i);
    let m = song_words(b).len() as int;
    let st = list_start(b, i);
    let tl = entry_list(b, i);
    assert(is_subseg(b, i) ==> plain_subseg(b, i));
    lemma_list_starts_grow(b, i, i + 1);
    lemma_word_start(b, i);
    assert(st % 4 == 0);
    assert(list_start(b, first_naming(b, i)) - t < 0x4000);
    assert(s.subrange(song_size(b) + 4 * i, song_size(b) + 4 * i + 4) == entry_bytes(b, i, m));
    lemma_list_at(b, i, m);
    lemma_lists_grow(b, i + 1, m);
    assert(st < 0x1_0000_0000);
    assert(tl.wf());
}

/// Reading the `i`-th word of a song, a fresh subsegment: it names a list read for the first
/// time.
proof fn lemma_decode_entry(b: Bgm, s: Seq<u8>, i: int, ls: ListModels, id: u32)
    requires
        plain_song(b),
        lists_reachable(b),
        entries_and_lists_at(b, s),
        song_end(b) < 0x1_0000_0000,
        0 <= i < song_words(b).len(),
        fresh(b, i),
        lists_read_back(b, ls, i),
    ensures
        be32(
            s[song_size(b) + 4 * i],
            s[song_size(b) + 4 * i + 1],
            s[song_size(b) + 4 * i + 2],
            s[song_size(b) + 4 * i + 3],
        ) != 0,
        decode_segment(s, song_size(b) + 4 * i, word_start(b, i), model_positions(ls), id) matches Ok(
            (seg, Some(l), _),
        ) && seg matches Segment::Subseg { track_list, .. } && track_list == lists_before(b, i) + 1
            && lists_read_back(b, ls.push(l), i + 1),
{
    let t = word_start(b, i);
    let p = song_size(b) + 4 * i;
    let st = list_start(b, i);
    lemma_entry_facts(b, s, i, ls);
    lemma_lists_before_grow(b, i);
    lemma_lists_grow(b, 0, song_words(b).len() as int);
    assert(ls.len() + 1 < 0x1_0000_0000);
    let r = lemma_decode_entry_at(s, t, p, st, entry_list(b, i).tracks@, ls, id);
    lemma_lists_read_back_push(b, ls, (st as u64, r.0), i);
}

proof fn lemma_lists_read_back_push(b: Bgm, ls: ListModels, l: (u64, Seq<TrackModel>), i: int)
    requires
        0 <= i,
        fresh(b, i),
        lists_read_back(b, ls, i),
        list_read_back(b, i, l),
    ensures
        lists_read_back(b, ls.push(l), i + 1),
{
    let ls2 = ls.push(l);
    lemma_lists_before_grow(b, i);
    lemma_list_starts_grow(b, i, i + 1);
    assert forall|k: int| 0 <= k < ls2.len() implies (#[trigger] ls2[k]).0 < list_start(b, i + 1) by {
        if k < ls.len() {
            assert(ls2[k] == ls[k]);
        }
    }
    assert forall|k1: int, k2: int| 0 <= k1 < k2 < ls2.len() implies (#[trigger] ls2[k1]).0 < (#[trigger] ls2[k2]).0 by {
        assert(ls2[k1] == ls[k1]);
        if k2 < ls.len() {
            assert(ls2[k2] == ls[k2]);
        }
    }
    assert forall|j: int| 0 <= j < i + 1 && fresh(b, j) implies list_read_back(
        b,
        j,
        #[trigger] ls2[lists_before(b, j)],
    ) by {
        if j < i {
            lemma_lists_before_grow(b, j);
            lemma_lists_before_mono(b, j + 1, i);
            assert(ls2[lists_before(b, j)] == ls[lists_before(b, j)]);
        } else {
            assert(ls2[lists_before(b, j)] == l);
        }
    }
}

/// After an entry that is not [`fresh`], the lists read so far are still those of the entries
/// before.
proof fn lemma_lists_read_back_skip(b: Bgm, ls: ListModels, i: int)
    requires
        0 <= i,
        !fresh(b, i),
        lists_read_back(b, ls, i),
    ensures
        lists_read_back(b, ls, i + 1),
{
    lemma_lists_before_grow(b, i);
    assert(lists_bytes(b, i + 1) == lists_bytes(b, i));
}

/// The entry word of a loop or wait entry is not the zero word that ends the entries.
proof fn lemma_plain_entry_word(seg: Segment, s: Seq<u8>, p: int)
    requires
        plain_segment(seg),
        0 <= p,
        p + 4 <= s.len(),
        s.subrange(p, p + 4) == segment_bytes(seg),
    ensures
        be32(s[p], s[p + 1], s[p + 2], s[p + 3]) != 0,
{
    let w = segment_bytes(seg);
    assert(s[p] == w[0] && s[p + 1] == w[1]) by {
        assert(s.subrange(p, p + 4)[0] == s[p]);
        assert(s.subrange(p, p + 4)[1] == s[p + 1]);
    }
    match seg {
        Segment::Wait { .. } => {
            lemma_u16_bytes(0x4000);
        },
        Segment::StartLoop { .. } => {
            lemma_u16_bytes(0x3000);
        },
        Segment::EndLoop { .. } => {
            lemma_u16_bytes(0x5000);
        },
        _ => {},
    }
}

/// Finding a position in a list of positions where it first occurs at `idx`.
proof fn lemma_find_at(ps: Seq<Option<u64>>, p: u64, i: int, idx: int)
    requires
        0 <= i <= idx < ps.len(),
        ps[idx] == Some(p),
        forall|k: int| i <= k < idx ==> ps[k] != Some(p),
    ensures
        find_pos(ps, p, i) == Some(idx),
    decreases idx - i,
{
    if i < idx {
        lemma_find_at(ps, p, i + 1, idx);
    }
}

/// Reading the `i`-th word of a song, a subsegment whose list an earlier word named: it names
/// the list read for that word, and reads no list.
#[verifier::spinoff_prover]
proof fn lemma_decode_repeated(b: Bgm, s: Seq<u8>, i: int, ls: ListModels, id: u32)
    requires
        plain_song(b),
        lists_reachable(b),
        entries_and_lists_at(b, s),
        song_end(b) < 0x1_0000_0000,
        0 <= i < song_words(b).len(),
        is_subseg(b, i),
        !fresh(b, i),
        lists_read_back(b, ls, i),
    ensures
        be32(
            s[song_size(b) + 4 * i],
            s[song_size(b) + 4 * i + 1],
            s[song_size(b) + 4 * i + 2],
            s[song_size(b) + 4 * i + 3],
        ) != 0,
        decode_segment(s, song_size(b) + 4 * i, word_start(b, i), model_positions(ls), id) == Ok::<
            (Segment, Option<(u64, Seq<TrackModel>)>, u32),
            Error,
        >(
            (
                Segment::Subseg { id: Some(id), track_list: (lists_before(b, first_naming(b, i)) + 1) as u64 },
                None,
                next_id(id),
            ),
        ),
{
    let t = word_start(b, i);
    let m = song_words(b).len() as int;
    let p = song_size(b) + 4 * i;
    lemma_first_naming(b, i);
    let f = first_naming(b, i);
    let st = list_start(b, f);
    lemma_list_starts_grow(b, f, f + 1);
    lemma_lists_before_grow(b, f);
    lemma_lists_before_mono(b, f + 1, i);
    lemma_lists_grow(b, 0, m);
    lemma_word_start(b, i);
    assert(st % 4 == 0);
    assert(st - t < 0x4000);
    assert(s.subrange(p, p + 4) == entry_bytes(b, i, m));
    lemma_entry_word_at(s, t, p, st);
    let ps = model_positions(ls);
    let idx = lists_before(b, f);
    assert(list_read_back(b, f, ls[idx]));
    assert(ps[idx] == Some(st as u64));
    assert forall|k: int| 0 <= k < idx implies ps[k] != Some(st as u64) by {
        assert(ls[k].0 < ls[idx].0);
    }
    lemma_find_at(ps, st as u64, 0, idx);
}

/// Reading the entries of the `v`-th variation of a song, a present one, from the `j`-th on.
#[verifier::spinoff_prover]
#[verifier::rlimit(40)]
proof fn lemma_decode_entries(b: Bgm, s: Seq<u8>, v: int, j: int, acc: Seq<Segment>, ls: ListModels, id: u32)
    requires
        plain_song(b),
        lists_reachable(b),
        entries_and_lists_at(b, s),
        song_end(b) < 0x1_0000_0000,
        0 <= v < NUM_VARIATIONS,
        b.variations@[v] is Some,
        0 <= j <= var_entries(b, v).len(),
        entries_read_back(b, v, acc, j),
        lists_read_back(b, ls, words_upto(b, v).len() + j),
    ensures
        decode_segments(s, var_start(b, v), j, acc, ls, id) matches Ok((segs, ls2, _)) && entries_read_back(
            b,
            v,
            segs,
            var_entries(b, v).len() as int,
        ) && lists_read_back(b, ls2, words_upto(b, v + 1).len() as int),
    decreases var_entries(b, v).len() - j,
{
    let base = words_upto(b, v).len() as int;
    let n = var_entries(b, v).len() as int;
    let i = base + j;
    let m = song_words(b).len() as int;
    let p = song_size(b) + 4 * i;
    lemma_var_word(b, v, j);
    lemma_var_word(b, v, n);
    assert(p == var_start(b, v) + 4 * j);
    assert(s.subrange(p, p + 4) == entry_bytes(b, i, m));
    if j < n {
        let seg0 = var_entries(b, v)[j];
        assert(song_words(b)[i] == Some(seg0));
        assert(plain_word(b, i) && (is_subseg(b, i) ==> plain_subseg(b, i)));
        if seg0 is Subseg && !fresh(b, i) {
            lemma_decode_repeated(b, s, i, ls, id);
            let seg = Segment::Subseg { id: Some(id), track_list: (lists_before(b, first_naming(b, i)) + 1) as u64 };
            assert(entries_read_back(b, v, acc.push(seg), j + 1)) by {
                lemma_first_naming(b, i);
                lemma_lists_before_grow(b, first_naming(b, i));
                lemma_lists_grow(b, 0, m);
                assert(acc.push(seg)[j] == seg);
                assert forall|k: int| 0 <= k < j implies #[trigger] acc.push(seg)[k] == acc[k] by {}
            }
            lemma_lists_read_back_skip(b, ls, i);
            lemma_decode_entries(b, s, v, j + 1, acc.push(seg), ls, next_id(id));
        } else if seg0 is Subseg {
            lemma_decode_entry(b, s, i, ls, id);
            let (seg, l, id2) = decode_segment(s, p, var_start(b, v), model_positions(ls), id)->Ok_0;
            let l = l->Some_0;
            assert(entries_read_back(b, v, acc.push(seg), j + 1)) by {
                assert(acc.push(seg)[j] == seg);
                assert forall|k: int| 0 <= k < j implies #[trigger] acc.push(seg)[k] == acc[k] by {}
            }
            lemma_decode_entries(b, s, v, j + 1, acc.push(seg), ls.push(l), id2);
        } else {
            lemma_plain_entry_word(seg0, s, p);
            law_segment_roundtrip(seg0, s, p, var_start(b, v), model_positions(ls), id);
            let seg = segment_with_id(seg0, Some(id));
            assert(segment_with_id(seg, None) == segment_with_id(seg0, None));
            assert(entries_read_back(b, v, acc.push(seg), j + 1)) by {
                assert(acc.push(seg)[j] == seg);
                assert forall|k: int| 0 <= k < j implies #[trigger] acc.push(seg)[k] == acc[k] by {}
            }
            lemma_lists_read_back_skip(b, ls, i);
            lemma_decode_entries(b, s, v, j + 1, acc.push(seg), ls, next_id(id));
        }
    } else {
        assert(entry_bytes(b, i, m) == zeros(4));
        assert(s[p] == 0 && s[p + 1] == 0 && s[p + 2] == 0 && s[p + 3] == 0) by {
            assert(s.subrange(p, p + 4)[0] == s[p]);
            assert(s.subrange(p, p + 4)[1] == s[p + 1]);
            assert(s.subrange(p, p + 4)[2] == s[p + 2]);
            assert(s.subrange(p, p + 4)[3] == s[p + 3]);
        }
        lemma_lists_read_back_skip(b, ls, i);
    }
}

/// Where the variations of a song start, as the header's offset fields give them (0 for an
/// empty slot).
pub open spec fn var_offsets(b: Bgm) -> Seq<int> {
    Seq::new(
        NUM_VARIATIONS as nat,
        |k: int|
            if b.variations@[k] is Some {
                var_start(b, k)
            } else {
                0
            },
    )
}

/// The variation offset that the `k`-th offset field of a song's header is read as.
proof fn lemma_offset_field(b: Bgm, x: u16, k: int)
    requires
        vars_reachable(b),
        0 <= k < NUM_VARIATIONS,
        x == var_field(b, k, NUM_VARIATIONS as int),
    ensures
        (x * 4) % 0x1_0000 == var_offsets(b)[k],
{
    if b.variations@[k] is Some {
        let vs = var_start(b, k);
        assert(song_size(b) % 4 == 0);
        assert(vs % 4 == 0);
        assert(vs < 0x1_0000);
        assert(quarter(vs) == vs / 4);
    }
}

/// The header fields of a song, read from the bytes they are written as.
#[verifier::spinoff_prover]
#[verifier::rlimit(40)]
proof fn lemma_fields_read(b: Bgm, s: Seq<u8>, size: u32)
    requires
        instruments_start(b) < 0x4_0000,
        b.instruments@.len() < 0x1_0000,
        vars_reachable(b),
        s.len() == size,
        s.len() >= 0x24,
        s.subrange(4, 8) == u32_bytes(size),
        s.subrange(12, 0x14) == seq![0u8, 0u8, 0u8, 0u8, 4u8, 0u8, 0u8, 0u8],
        s.subrange(0x14, 0x1C) == var_fields(b, NUM_VARIATIONS as int),
        s.subrange(0x1C, 0x1E) == u16_bytes(drums_at(b)),
        s.subrange(0x1E, 0x20) == u16_bytes((b.drums@.len() % 0x1_0000) as u16),
        s.subrange(0x20, 0x22) == u16_bytes(instruments_at(b)),
        s.subrange(0x22, 0x24) == u16_bytes((b.instruments@.len() % 0x1_0000) as u16),
    ensures
        be32(s[4], s[5], s[6], s[7]) == s.len(),
        zero_run(s, 12, 4),
        s[16] == 4,
        zero_run(s, 17, 3),
        forall|k: int|
            0 <= k < NUM_VARIATIONS ==> (be16(s[0x14 + 2 * k], s[0x15 + 2 * k]) * 4) % 0x1_0000 == #[trigger] var_offsets(
                b,
            )[k],
        be16(s[0x1C], s[0x1D]) * 4 == if b.drums@.len() > 0 { 0x24int } else { 0int },
        be16(s[0x1E], s[0x1F]) == b.drums@.len(),
        be16(s[0x20], s[0x21]) * 4 == if b.instruments@.len() > 0 { instruments_start(b) } else { 0int },
        be16(s[0x22], s[0x23]) == b.instruments@.len(),
{
    let f = field_seq(b);
    assert(var_fields(b, NUM_VARIATIONS as int) == u16_bytes(f[0]) + u16_bytes(f[1]) + u16_bytes(f[2]) + u16_bytes(
        f[3],
    ));
    lemma_header_read_v(
        s,
        size,
        f,
        drums_at(b),
        (b.drums@.len() % 0x1_0000) as u16,
        instruments_at(b),
        (b.instruments@.len() % 0x1_0000) as u16,
    );
    assert forall|k: int| 0 <= k < NUM_VARIATIONS implies (be16(s[0x14 + 2 * k], s[0x15 + 2 * k]) * 4) % 0x1_0000
        == #[trigger] var_offsets(b)[k] by {
        lemma_offset_field(b, be16(s[0x14 + 2 * k], s[0x15 + 2 * k]) as u16, k);
    }
    lemma_table_fields(b);
}

/// The offset and count fields of a song's tables, read back.
proof fn lemma_table_fields(b: Bgm)
    requires
        instruments_start(b) < 0x4_0000,
        b.instruments@.len() < 0x1_0000,
    ensures
        drums_at(b) * 4 == if b.drums@.len() > 0 { 0x24int } else { 0int },
        (b.drums@.len() % 0x1_0000) as u16 == b.drums@.len(),
        instruments_at(b) * 4 == if b.instruments@.len() > 0 { instruments_start(b) } else { 0int },
        (b.instruments@.len() % 0x1_0000) as u16 == b.instruments@.len(),
{
    assert(instruments_start(b) % 4 == 0);
    assert(quarter(0x24) == 9);
}

/// The header of a song's bytes, read field by field: the variations' offsets are where they
/// start.
proof fn lemma_song_header_read(b: Bgm)
    requires
        encode_utf8(b.name@).len() <= 4,
        entries_plain(b),
        instruments_start(b) < 0x4_0000,
        b.instruments@.len() < 0x1_0000,
        vars_reachable(b),
        song_end(b) < 0x1_0000_0000,
    ensures
        ({
            let s = song_file(b, song_words(b).len() as int, song_end(b) as u32);
            &&& s.len() == song_end(b)
            &&& s.subrange(0, 4) == bgm_magic()
            &&& be32(s[4], s[5], s[6], s[7]) == s.len()
            &&& s.subrange(8, 12) == name_field(b.name@)
            &&& zero_run(s, 12, 4)
            &&& s[16] == 4
            &&& zero_run(s, 17, 3)
            &&& forall|k: int|
                0 <= k < NUM_VARIATIONS ==> (be16(s[0x14 + 2 * k], s[0x15 + 2 * k]) * 4) % 0x1_0000
                    == #[trigger] var_offsets(b)[k]
            &&& be16(s[0x1C], s[0x1D]) * 4 == if b.drums@.len() > 0 { 0x24int } else { 0int }
            &&& be16(s[0x1E], s[0x1F]) == b.drums@.len()
            &&& be16(s[0x20], s[0x21]) * 4 == if b.instruments@.len() > 0 { instruments_start(b) } else { 0int }
            &&& be16(s[0x22], s[0x23]) == b.instruments@.len()
        }),
{
    let size = song_end(b) as u32;
    let s = song_file(b, song_words(b).len() as int, size);
    lemma_parts_basics(b, size);
    lemma_song_file_header(b, size);
    lemma_fields_read(b, s, size);
}

/// Whether `x`, the `k`-th variation slot decoded, is that of `b` read back.
pub open spec fn var_read_back(b: Bgm, k: int, x: Option<Seq<Segment>>) -> bool {
    match x {
        None => b.variations@[k] is None,
        Some(segs) => b.variations@[k] is Some && entries_read_back(b, k, segs, var_entries(b, k).len() as int),
    }
}

/// Reading the variations of a song from the `v`-th on.
proof fn lemma_read_variations(
    b: Bgm,
    s: Seq<u8>,
    v: int,
    acc: Seq<Option<Seq<Segment>>>,
    ls: ListModels,
    id: u32,
)
    requires
        plain_song(b),
        lists_reachable(b),
        entries_and_lists_at(b, s),
        song_end(b) < 0x1_0000_0000,
        0 <= v <= NUM_VARIATIONS,
        acc.len() == v,
        forall|k: int| 0 <= k < v ==> var_read_back(b, k, #[trigger] acc[k]),
        lists_read_back(b, ls, words_upto(b, v).len() as int),
    ensures
        decode_variations(s, var_offsets(b), v, acc, ls, id) matches Ok((vars, ls2, _)) && vars.len()
            == NUM_VARIATIONS && (forall|k: int| 0 <= k < NUM_VARIATIONS ==> var_read_back(b, k, #[trigger] vars[k]))
            && lists_read_back(b, ls2, song_words(b).len() as int),
    decreases NUM_VARIATIONS - v,
{
    if v < NUM_VARIATIONS {
        if b.variations@[v] is Some {
            lemma_word_start_of_var(b, v);
            lemma_decode_entries(b, s, v, 0, Seq::empty(), ls, id);
            let (segs, ls2, id2) = decode_segments(s, var_start(b, v), 0, Seq::empty(), ls, id)->Ok_0;
            let acc2 = acc.push(Some(segs));
            assert forall|k: int| 0 <= k < v + 1 implies var_read_back(b, k, #[trigger] acc2[k]) by {
                if k < v {
                    assert(acc2[k] == acc[k]);
                }
            }
            lemma_read_variations(b, s, v + 1, acc2, ls2, id2);
        } else {
            lemma_header_no_field(b, v);
            let acc2 = acc.push(None);
            assert forall|k: int| 0 <= k < v + 1 implies var_read_back(b, k, #[trigger] acc2[k]) by {
                if k < v {
                    assert(acc2[k] == acc[k]);
                }
            }
            lemma_read_variations(b, s, v + 1, acc2, ls, id);
        }
    }
}

/// A present variation does not start at 0: it starts after the tables.
proof fn lemma_word_start_of_var(b: Bgm, v: int)
    requires
        0 <= v < NUM_VARIATIONS,
        b.variations@[v] is Some,
    ensures
        var_offsets(b)[v] == var_start(b, v),
        var_start(b, v) != 0,
{
}

/// Whether `m` is the song `b` read back: its name, drums and instruments, each variation read
/// back (see [`var_read_back`]), the lists of its subsegments read back in the order they are
/// first named, and no copied byte range.
pub open spec fn song_read_back(b: Bgm, m: BgmModel) -> bool {
    &&& m.name == b.name@
    &&& m.drums == b.drums@
    &&& m.instruments == b.instruments@
    &&& m.unknowns.len() == 0
    &&& m.variations.len() == NUM_VARIATIONS
    &&& forall|k: int| 0 <= k < NUM_VARIATIONS ==> var_read_back(b, k, #[trigger] m.variations[k])
    &&& lists_read_back(b, m.lists, song_words(b).len() as int)
}

/// Decoding bytes that hold a song's header, tables, variations and lists where its encoding
/// puts them.
#[verifier::spinoff_prover]
#[verifier::rlimit(40)]
proof fn lemma_decode_song_file(b: Bgm, s: Seq<u8>, id: u32, meta: Option<u64>)
    requires
        plain_song(b),
        name_roundtrips(b.name@),
        song_end(b) < 0x1_0000_0000,
        lists_reachable(b),
        s.len() >= song_end(b),
        s.subrange(0, 4) == bgm_magic(),
        size_check(s, be32(s[4], s[5], s[6], s[7])) == Ok::<Option<u64>, Error>(meta),
        s.subrange(8, 12) == name_field(b.name@),
        zero_run(s, 12, 4),
        s[16] == 4,
        zero_run(s, 17, 3),
        forall|k: int|
            0 <= k < NUM_VARIATIONS ==> (be16(s[0x14 + 2 * k], s[0x15 + 2 * k]) * 4) % 0x1_0000 == #[trigger] var_offsets(
                b,
            )[k],
        be16(s[0x1C], s[0x1D]) * 4 == if b.drums@.len() > 0 { 0x24int } else { 0int },
        be16(s[0x1E], s[0x1F]) == b.drums@.len(),
        be16(s[0x20], s[0x21]) * 4 == if b.instruments@.len() > 0 { instruments_start(b) } else { 0int },
        be16(s[0x22], s[0x23]) == b.instruments@.len(),
        s.subrange(0x24, instruments_start(b)) == drums_bytes(b.drums@),
        s.subrange(instruments_start(b), song_size(b)) == instruments_bytes(b.instruments@),
        entries_and_lists_at(b, s),
    ensures
        decode_bgm(s, id) matches Ok((m, at, _)) && at == meta && song_read_back(b, m),
{
    let d = b.drums@.len() as int;
    let n = b.instruments@.len() as int;
    lemma_decode_header(
        s,
        b.name@,
        var_offsets(b),
        d,
        if d > 0 { 0x24int } else { 0int },
        n,
        if n > 0 { instruments_start(b) } else { 0int },
        meta,
    );
    assert(special_unknown(s) is None);
    assert(words_upto(b, 0).len() == 0);
    assert(lists_read_back(b, Seq::empty(), 0));
    lemma_read_variations(b, s, 0, Seq::empty(), Seq::empty(), id);
    lemma_decode_drums(b, s);
    lemma_decode_instruments(b, s, instruments_start(b));
}

/// Where the words and lists of a song lie in its bytes.
proof fn lemma_entries_and_lists_in_song(b: Bgm)
    requires
        encode_utf8(b.name@).len() <= 4,
        entries_plain(b),
        song_end(b) < 0x1_0000_0000,
    ensures
        entries_and_lists_at(b, song_file(b, song_words(b).len() as int, song_end(b) as u32)),
{
    let mm = song_words(b).len() as int;
    let size = song_end(b) as u32;
    let s = song_file(b, mm, size);
    lemma_song_file_parts(b, size);
    assert forall|j: int| 0 <= j < mm && fresh(b, j) implies #[trigger] list_start(b, j)
        + list_bytes(entry_list(b, j).tracks@).len() <= s.len() by {
        lemma_lists_grow(b, j, mm);
    }
    lemma_lists_grow(b, 0, mm);
}

/// Decoding the bytes of a song gives it back (see [`song_read_back`]), with no editor
/// metadata.
proof fn lemma_decode_song_bytes(b: Bgm, id: u32)
    requires
        plain_song(b),
        name_roundtrips(b.name@),
        instruments_start(b) < 0x4_0000,
        b.instruments@.len() < 0x1_0000,
        vars_reachable(b),
        song_end(b) < 0x1_0000_0000,
        lists_reachable(b),
    ensures
        decode_bgm(song_file(b, song_words(b).len() as int, song_end(b) as u32), id) matches Ok(
            (m, None, _),
        ) && song_read_back(b, m),
{
    let size = song_end(b) as u32;
    let s = song_file(b, song_words(b).len() as int, size);
    lemma_song_header_read(b);
    lemma_song_file_parts(b, size);
    lemma_entries_and_lists_in_song(b);
    lemma_size_matches(s);
    lemma_decode_song_file(b, s, id, None);
}

/// The first [`fresh`] word, when lists were written for the first `i` words: no list was
/// written before it.
proof fn lemma_first_fresh(b: Bgm, i: int) -> (j: int)
    requires
        0 <= i,
        lists_before(b, i) > 0,
    ensures
        0 <= j < i,
        fresh(b, j),
        lists_before(b, j) == 0,
    decreases i,
{
    lemma_lists_before_grow(b, i - 1);
    if lists_before(b, i - 1) > 0 {
        lemma_first_fresh(b, i - 1)
    } else {
        i - 1
    }
}

/// At most one list is written for each word.
proof fn lemma_lists_before_span(b: Bgm, i: int, j: int)
    requires
        0 <= i <= j,
    ensures
        lists_before(b, j) - lists_before(b, i) <= j - i,
    decreases j - i,
{
    if i < j {
        lemma_lists_before_grow(b, j - 1);
        lemma_lists_before_span(b, i, j - 1);
    }
}

/// A song whose lists its entries can reach writes fewer than 0x1000 lists: the words from the
/// first one naming a list on lie before that list, within 0x4000 bytes of the variation.
proof fn lemma_few_lists(b: Bgm)
    requires
        lists_reachable(b),
    ensures
        lists_before(b, song_words(b).len() as int) < 0x1000,
{
    let m = song_words(b).len() as int;
    lemma_lists_before_grow(b, m);
    if lists_before(b, m) > 0 {
        let f = lemma_first_fresh(b, m);
        lemma_list_starts_grow(b, f, f + 1);
        lemma_word_start(b, f);
        lemma_lists_before_span(b, f, m);
        assert(list_start(b, first_naming(b, f)) - word_start(b, f) < 0x4000);
    }
}

/// The names noted for a song's lists, looked up by the keys that decoding gives
/// the lists.
proof fn lemma_names_for_lists(b: Bgm, i: int)
    requires
        0 <= i <= song_words(b).len(),
        lists_before(b, song_words(b).len() as int) < 0x1000,
    ensures
        forall|j: int|
            0 <= j < i && fresh(b, j) ==> names_for(
                song_names(b, i),
                (lists_before(b, j) + 1) as u64,
            ) == Some(list_names(#[trigger] entry_list(b, j).tracks@)),
    decreases i,
{
    let m = song_words(b).len() as int;
    if i > 0 {
        lemma_names_for_lists(b, i - 1);
        lemma_lists_before_grow(b, i - 1);
        lemma_lists_before_mono(b, i, m);
        let names = song_names(b, i);
        assert forall|j: int| 0 <= j < i && fresh(b, j) implies names_for(
            names,
            (lists_before(b, j) + 1) as u64,
        ) == Some(list_names(#[trigger] entry_list(b, j).tracks@)) by {
            lemma_lists_before_grow(b, j);
            if j < i - 1 {
                lemma_lists_before_mono(b, j + 1, i - 1);
            }
            let k = (((lists_before(b, j) + 1) as u64) % 0x1_0000) as u16;
            assert(k == lists_before(b, j) + 1);
            if j < i - 1 && fresh(b, i - 1) {
                assert(k != (lists_before(b, i - 1) + 1) as u16);
            }
        }
    }
}

/// The names noted for the list of each subsegment, looked up by the key that decoding gives
/// that list.
proof fn lemma_names_for_subsegs(b: Bgm)
    requires
        lists_before(b, song_words(b).len() as int) < 0x1000,
    ensures
        forall|j: int|
            0 <= j < song_words(b).len() && is_subseg(b, j) ==> names_for(
                song_names(b, song_words(b).len() as int),
                (lists_before(b, first_naming(b, j)) + 1) as u64,
            ) == Some(list_names(#[trigger] entry_list(b, j).tracks@)),
{
    let m = song_words(b).len() as int;
    lemma_names_for_lists(b, m);
    assert forall|j: int| 0 <= j < m && is_subseg(b, j) implies names_for(
        song_names(b, m),
        (lists_before(b, first_naming(b, j)) + 1) as u64,
    ) == Some(list_names(#[trigger] entry_list(b, j).tracks@)) by {
        lemma_first_naming(b, j);
        assert(entry_list(b, first_naming(b, j)) == entry_list(b, j));
    }
}

/// A song reads back as it was written: decoding the bytes that encoding writes into an empty
/// writer gives back its name, drums and instruments, no editor metadata, and its variations:
/// each empty slot empty, and each present variation with its entries in order, its loop and
/// wait entries as they were, and its subsegments each naming the list read for the first
/// subsegment of the song that named the same track list (the lists are keyed 1 on in the order
/// they are first named, and each is written and read once), each list read back from the
/// song's list (its tracks' flags, voices, polyphony and commands, see [`track_read_back`]).
/// The track names that encoding hands back for the editor metadata list, under the key of each
/// list read back, the names of its tracks after the first (see [`Metadata::apply_to_bgm`],
/// which gives them back to the tracks). It holds for every song of [`plain_song`] whose name
/// fits its field ([`name_roundtrips`]), whose drum table ends below 0x40000 and that has fewer
/// than 0x10000 instruments (the 16-bit offset and count fields), whose variations start below
/// 0x10000 ([`vars_reachable`]: the 16-bit offset fields, which wrap), whose file ends below
/// 2^32 (the 32-bit size field) and whose lists lie where their subsegments can reach them and
/// read back ([`lists_reachable`]).
pub proof fn law_song_roundtrip(b: Bgm, id: u32)
    requires
        plain_song(b),
        name_roundtrips(b.name@),
        instruments_start(b) < 0x4_0000,
        b.instruments@.len() < 0x1_0000,
        vars_reachable(b),
        song_end(b) < 0x1_0000_0000,
        lists_reachable(b),
    ensures
        encode_bgm(b, Out { bytes: Seq::empty(), pos: 0 }) matches Ok((o, names)) && decode_bgm(o.bytes, id) matches Ok(
            (m, None, _),
        ) && song_read_back(b, m) && forall|j: int|
            0 <= j < song_words(b).len() && is_subseg(b, j) ==> names_for(
                names,
                (lists_before(b, first_naming(b, j)) + 1) as u64,
            ) == Some(list_names(#[trigger] entry_list(b, j).tracks@)),
{
    lemma_special_names(b.name@);
    lemma_few_lists(b);
    lemma_encode_song(b);
    lemma_decode_song_bytes(b, id);
    lemma_names_for_subsegs(b);
}

/// Where the words and lists of a song lie in some bytes, they lie in every longer bytes that
/// begin with them.
proof fn lemma_entries_and_lists_prefix(b: Bgm, t: Seq<u8>, s: Seq<u8>)
    requires
        entries_and_lists_at(b, t),
        t.len() <= s.len(),
        s.subrange(0, t.len() as int) == t,
    ensures
        entries_and_lists_at(b, s),
{
    let n = t.len() as int;
    assert forall|x: int, y: int| 0 <= x <= y <= n implies #[trigger] s.subrange(x, y) == t.subrange(x, y) by {
        assert forall|i: int| 0 <= i < y - x implies s.subrange(x, y)[i] == t.subrange(x, y)[i] by {
            assert(s.subrange(0, n)[x + i] == s[x + i]);
        }
        assert(s.subrange(x, y) =~= t.subrange(x, y));
    }
    let tt = song_size(b);
    let m = song_words(b).len() as int;
    assert forall|j: int| 0 <= j < m implies #[trigger] s.subrange(tt + 4 * j, tt + 4 * j + 4) == entry_bytes(b, j, m) by {
        assert(t.subrange(tt + 4 * j, tt + 4 * j + 4) == entry_bytes(b, j, m));
        assert(s.subrange(tt + 4 * j, tt + 4 * j + 4) == t.subrange(tt + 4 * j, tt + 4 * j + 4));
    }
    assert forall|j: int| 0 <= j < m && fresh(b, j) implies #[trigger] s.subrange(
        list_start(b, j),
        list_start(b, j) + list_bytes(entry_list(b, j).tracks@).len(),
    ) == list_bytes(entry_list(b, j).tracks@) by {
        let st = list_start(b, j);
        let en = st + list_bytes(entry_list(b, j).tracks@).len();
        assert(t.subrange(st, en) == list_bytes(entry_list(b, j).tracks@));
        assert(st >= 0);
        assert(s.subrange(st, en) == t.subrange(st, en));
    }
}

/// Editor metadata written after a song reads back: for a song of [`law_song_roundtrip`],
/// writing the metadata payload after the bytes that encoding wrote (see [`finish_bgm`], which
/// [`Bgm::write_metadata`](crate::bgm::Bgm::write_metadata) does) leaves the payload at
/// [`metadata_start`] of the song's length, and reading the result gives back the song as
/// [`law_song_roundtrip`] does, with that position as where the metadata starts.
pub proof fn law_song_metadata_read_back(b: Bgm, payload: Seq<u8>, id: u32)
    requires
        plain_song(b),
        name_roundtrips(b.name@),
        instruments_start(b) < 0x4_0000,
        b.instruments@.len() < 0x1_0000,
        vars_reachable(b),
        song_end(b) < 0x1_0000_0000,
        lists_reachable(b),
        encode_bgm(b, Out { bytes: Seq::empty(), pos: 0 }) matches Ok((o, _)) && finish_bgm(o, true, payload) is Ok,
    ensures
        encode_bgm(b, Out { bytes: Seq::empty(), pos: 0 }) matches Ok((o, _)) && ({
            let s = finish_bgm(o, true, payload)->Ok_0.bytes;
            let p = metadata_start(o.pos);
            &&& s.subrange(0, o.pos) == o.bytes
            &&& s.subrange(p, p + payload.len()) == payload
            &&& decode_bgm(s, id) matches Ok((m, at, _)) && at == Some(p as u64) && song_read_back(b, m)
        }),
{
    lemma_special_names(b.name@);
    lemma_few_lists(b);
    lemma_encode_song(b);
    lemma_song_header_read(b);
    let size = song_end(b) as u32;
    lemma_song_file_parts(b, size);
    lemma_entries_and_lists_in_song(b);
    let o = encode_bgm(b, Out { bytes: Seq::empty(), pos: 0 })->Ok_0.0;
    let t = o.bytes;
    law_metadata_read_back(o, payload);
    let s = finish_bgm(o, true, payload)->Ok_0.bytes;
    let p = metadata_start(o.pos);
    let n = t.len() as int;
    assert forall|i: int| 0 <= i < n implies s[i] == t[i] by {
        assert(s.subrange(0, n)[i] == s[i]);
    }
    assert forall|x: int, y: int| 0 <= x <= y <= n implies #[trigger] s.subrange(x, y) == t.subrange(x, y) by {
        assert(s.subrange(x, y) =~= t.subrange(x, y));
    }
    assert(s.subrange(0, 4) == t.subrange(0, 4));
    assert(s.subrange(8, 12) == t.subrange(8, 12));
    assert(s.subrange(0x24, instruments_start(b)) == t.subrange(0x24, instruments_start(b)));
    assert(s.subrange(instruments_start(b), song_size(b)) == t.subrange(instruments_start(b), song_size(b)));
    lemma_entries_and_lists_prefix(b, t, s);
    lemma_decode_song_file(b, s, id, Some(p as u64));
}

} // verus!
