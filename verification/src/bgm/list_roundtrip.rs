//! What decoding gives back of a track list that encoding wrote: the track headers and the
//! command sequences that follow them.

use vstd::prelude::*;

use crate::bgm::cmd::{commands_of, Command};
use crate::bgm::de::{decode_sequence, decode_track, decode_tracks, Decoded, DecodedEntries, Error, TrackModel};
use crate::bgm::en::{
    add_name, commands_bytes, emit, emit_at, encode_commands, encode_list, encode_track_headers,
    encode_track_sequences, list_offset, polyphonic_idx_of, track_flags, EncodeFault, Out,
};
use crate::bgm::roundtrip::{law_sequence_roundtrip, lemma_plain_encodes, plain_entries, plain_sequence};
use crate::bgm::{spec_parent_idx, spec_polyphony_from_raw, Polyphony, Track, TrackList, NUM_TRACKS};
use crate::id::id_after;
use crate::rw::{be16, lemma_u16_bytes, overwrite, u16_bytes, IoError};

verus! {

/// The commands of a track.
pub open spec fn track_commands(t: Track) -> Seq<Command> {
    commands_of(t.commands@)
}

/// The bytes of a track's sequence (none for a track without commands).
pub open spec fn seq_bytes(t: Track) -> Seq<u8> {
    commands_bytes(track_commands(t))
}

/// The sequences of the first `j` tracks, one after the other.
pub open spec fn seqs_bytes(tracks: Seq<Track>, j: int) -> Seq<u8>
    decreases j,
{
    if j <= 0 {
        Seq::empty()
    } else {
        seqs_bytes(tracks, j - 1) + seq_bytes(tracks[j - 1])
    }
}

/// Where track `j`'s sequence starts, from the start of the list: after the sixteen headers and
/// the sequences before it; 0 for a track without commands.
pub open spec fn seq_offset(tracks: Seq<Track>, j: int) -> u16 {
    if tracks[j].commands@.len() == 0 {
        0
    } else {
        ((0x40 + seqs_bytes(tracks, j).len()) % 0x1_0000) as u16
    }
}

/// The header of track `j`: its sequence's offset (when `filled`, else 0) and its flags.
pub open spec fn header_entry(tracks: Seq<Track>, j: int, filled: bool) -> Seq<u8> {
    u16_bytes(if filled { seq_offset(tracks, j) } else { 0 }) + u16_bytes(track_flags(tracks[j]))
}

/// The headers of the first `n` tracks, with the offsets of the tracks before `filled` filled in.
pub open spec fn headers_bytes(tracks: Seq<Track>, n: int, filled: int) -> Seq<u8>
    decreases n,
{
    if n <= 0 {
        Seq::empty()
    } else {
        headers_bytes(tracks, n - 1, filled) + header_entry(tracks, n - 1, n - 1 < filled)
    }
}

/// The bytes of a track list: its sixteen headers, then the sequences of its tracks in order.
pub open spec fn list_bytes(tracks: Seq<Track>) -> Seq<u8> {
    headers_bytes(tracks, NUM_TRACKS as int, NUM_TRACKS as int) + seqs_bytes(tracks, NUM_TRACKS as int)
}

/// Where the headers of the tracks with commands are, among the first `j`, in order.
pub open spec fn seq_fields(tracks: Seq<Track>, start: int, j: int) -> Seq<(int, int)>
    decreases j,
{
    if j <= 0 {
        Seq::empty()
    } else if tracks[j - 1].commands@.len() != 0 {
        seq_fields(tracks, start, j - 1).push((start + 4 * (j - 1), j - 1))
    } else {
        seq_fields(tracks, start, j - 1)
    }
}

/// Whether a track comes back from its header and sequence as it was, but for its name and
/// identifiers: its polyphony is set by hand, with a raw form that the flags word holds, and its
/// sequence is empty or a run of plain commands closed by an `End`.
pub open spec fn plain_track(t: Track) -> bool {
    &&& match t.polyphony {
        Polyphony::Automatic => false,
        Polyphony::Manual { voices } => voices <= 4,
        Polyphony::Link { parent } => parent < 15,
        Polyphony::Other { priority } => 2 <= priority <= 4,
    }
    &&& (t.commands@.len() == 0 || plain_sequence(track_commands(t)))
}

/// Whether the decoded track `m` has the settings and commands of `t`.
pub open spec fn track_read_back(t: Track, m: TrackModel) -> bool {
    &&& m.is_disabled == t.is_disabled
    &&& m.polyphony == t.polyphony
    &&& m.is_drum_track == t.is_drum_track
    &&& m.commands.len() == t.commands@.len()
    &&& forall|k: int| 0 <= k < m.commands.len() ==> #[trigger] m.commands[k].1.1 == Decoded::Cmd(
        track_commands(t)[k],
    )
}

proof fn lemma_seqs_len(tracks: Seq<Track>, j: int, k: int)
    requires
        0 <= j <= k,
    ensures
        seqs_bytes(tracks, j).len() <= seqs_bytes(tracks, k).len(),
        seqs_bytes(tracks, k).subrange(0, seqs_bytes(tracks, j).len() as int) == seqs_bytes(tracks, j),
    decreases k - j,
{
    if j < k {
        lemma_seqs_len(tracks, j, k - 1);
        assert(seqs_bytes(tracks, k).subrange(0, seqs_bytes(tracks, j).len() as int) =~= seqs_bytes(
            tracks,
            k - 1,
        ).subrange(0, seqs_bytes(tracks, j).len() as int));
    } else {
        assert(seqs_bytes(tracks, k).subrange(0, seqs_bytes(tracks, j).len() as int) =~= seqs_bytes(tracks, j));
    }
}

/// The sequence of track `j` lies in the sequences where its offset says.
proof fn lemma_seq_at(tracks: Seq<Track>, j: int)
    requires
        0 <= j < NUM_TRACKS,
    ensures
        seqs_bytes(tracks, NUM_TRACKS as int).subrange(
            seqs_bytes(tracks, j).len() as int,
            (seqs_bytes(tracks, j).len() + seq_bytes(tracks[j]).len()) as int,
        ) == seq_bytes(tracks[j]),
{
    lemma_seqs_len(tracks, j + 1, NUM_TRACKS as int);
    let a = seqs_bytes(tracks, j).len() as int;
    let b = a + seq_bytes(tracks[j]).len();
    assert(seqs_bytes(tracks, NUM_TRACKS as int).subrange(a, b) =~= seqs_bytes(tracks, j + 1).subrange(a, b));
    assert(seqs_bytes(tracks, j + 1).subrange(a, b) =~= seq_bytes(tracks[j]));
}

/// A track list takes at least its sixteen four-byte headers.
pub proof fn lemma_list_bytes_len(tracks: Seq<Track>)
    ensures
        list_bytes(tracks).len() >= 4 * NUM_TRACKS,
{
    lemma_headers_len(tracks, NUM_TRACKS as int, NUM_TRACKS as int);
}

proof fn lemma_headers_len(tracks: Seq<Track>, n: int, filled: int)
    requires
        0 <= n,
    ensures
        headers_bytes(tracks, n, filled).len() == 4 * n,
    decreases n,
{
    if n > 0 {
        lemma_headers_len(tracks, n - 1, filled);
    }
}

/// The header of track `i` lies at `4 * i`.
proof fn lemma_header_at(tracks: Seq<Track>, n: int, filled: int, i: int)
    requires
        0 <= i < n,
    ensures
        headers_bytes(tracks, n, filled).subrange(4 * i, 4 * i + 4) == header_entry(tracks, i, i < filled),
    decreases n,
{
    lemma_headers_len(tracks, n - 1, filled);
    if i < n - 1 {
        lemma_header_at(tracks, n - 1, filled, i);
        assert(headers_bytes(tracks, n, filled).subrange(4 * i, 4 * i + 4) =~= headers_bytes(
            tracks,
            n - 1,
            filled,
        ).subrange(4 * i, 4 * i + 4));
    } else {
        assert(headers_bytes(tracks, n, filled).subrange(4 * i, 4 * i + 4) =~= header_entry(tracks, i, i < filled));
    }
}

/// Filling in the offset of track `j` turns the headers filled before `j` into those filled
/// before `j + 1`.
proof fn lemma_fill_header(tracks: Seq<Track>, n: int, j: int, rest: Seq<u8>)
    requires
        0 <= j < n,
    ensures
        overwrite(headers_bytes(tracks, n, j) + rest, 4 * j, u16_bytes(seq_offset(tracks, j))) == headers_bytes(
            tracks,
            n,
            j + 1,
        ) + rest,
    decreases n,
{
    lemma_headers_len(tracks, n - 1, j);
    lemma_headers_len(tracks, n - 1, j + 1);
    if j < n - 1 {
        let e = header_entry(tracks, n - 1, false);
        lemma_fill_header(tracks, n - 1, j, e + rest);
        assert(headers_bytes(tracks, n, j) + rest =~= headers_bytes(tracks, n - 1, j) + (e + rest));
        assert(headers_bytes(tracks, n, j + 1) + rest =~= headers_bytes(tracks, n - 1, j + 1) + (e + rest));
    } else {
        lemma_same_headers(tracks, n - 1, j, j + 1);
        assert(overwrite(headers_bytes(tracks, n, j) + rest, 4 * j, u16_bytes(seq_offset(tracks, j)))
            =~= headers_bytes(tracks, n, j + 1) + rest);
    }
}

/// Headers filled up to different points agree on the tracks before both.
proof fn lemma_same_headers(tracks: Seq<Track>, n: int, f1: int, f2: int)
    requires
        n <= f1,
        n <= f2,
    ensures
        headers_bytes(tracks, n, f1) == headers_bytes(tracks, n, f2),
    decreases n,
{
    if n > 0 {
        lemma_same_headers(tracks, n - 1, f1, f2);
    }
}

/// A track without commands has nothing to fill in.
proof fn lemma_fill_empty(tracks: Seq<Track>, n: int, j: int)
    requires
        0 <= j,
        tracks[j].commands@.len() == 0,
    ensures
        headers_bytes(tracks, n, j) == headers_bytes(tracks, n, j + 1),
    decreases n,
{
    if n > 0 {
        lemma_fill_empty(tracks, n - 1, j);
        if n - 1 == j {
            assert(header_entry(tracks, j, false) == header_entry(tracks, j, true));
        }
    }
}

proof fn lemma_fields_prefix(tracks: Seq<Track>, start: int, j: int, k: int)
    requires
        0 <= j <= k,
    ensures
        seq_fields(tracks, start, j).len() <= seq_fields(tracks, start, k).len(),
        forall|x: int|
            0 <= x < seq_fields(tracks, start, j).len() ==> seq_fields(tracks, start, k)[x] == seq_fields(
                tracks,
                start,
                j,
            )[x],
    decreases k - j,
{
    if j < k {
        lemma_fields_prefix(tracks, start, j, k - 1);
    }
}

proof fn lemma_overwrite_shift(base: Seq<u8>, x: Seq<u8>, p: int, d: Seq<u8>)
    requires
        0 <= p,
        p + d.len() <= x.len(),
    ensures
        overwrite(base + x, base.len() + p, d) == base + overwrite(x, p, d),
{
    assert(overwrite(base + x, base.len() + p, d) =~= base + overwrite(x, p, d));
}

/// The names of the tracks of `tracks` from the `j`-th on.
pub open spec fn names_from(tracks: Seq<Track>, j: int) -> Seq<Seq<char>> {
    Seq::new((tracks.len() - j) as nat, |i: int| tracks[j + i].name@)
}

/// The names that encoding notes for a track list: those of its tracks after the first.
pub open spec fn list_names(tracks: Seq<Track>) -> Seq<Seq<char>> {
    names_from(tracks, 1)
}

/// `meta` with the names `ns` appended to those of list `k`.
pub open spec fn add_names(meta: Map<u16, Seq<Seq<char>>>, k: u16, ns: Seq<Seq<char>>) -> Map<u16, Seq<Seq<char>>> {
    meta.insert(k, (if meta.contains_key(k) { meta[k] } else { Seq::empty() }) + ns)
}

/// Writing the headers of the tracks from `j` on, after those before `j`.
proof fn lemma_encode_headers(
    tracks: Seq<Track>,
    base: Seq<u8>,
    j: int,
    list_no: u16,
    meta: Map<u16, Seq<Seq<char>>>,
)
    requires
        tracks.len() == NUM_TRACKS,
        0 <= j <= NUM_TRACKS,
        base.len() + 4 * NUM_TRACKS <= usize::MAX,
    ensures
        encode_track_headers(
            tracks,
            Out { bytes: base + headers_bytes(tracks, j, 0), pos: base.len() + 4 * j },
            j,
            list_no,
            meta,
            seq_fields(tracks, base.len() as int, j),
        ) matches Ok((o, m, todo)) && o == (Out {
            bytes: base + headers_bytes(tracks, NUM_TRACKS as int, 0),
            pos: base.len() + 4 * NUM_TRACKS,
        }) && todo == seq_fields(tracks, base.len() as int, NUM_TRACKS as int) && m == if j >= NUM_TRACKS {
            meta
        } else {
            add_names(meta, list_no, names_from(tracks, if j == 0 { 1 } else { j }))
        },
    decreases NUM_TRACKS - j,
{
    if j < NUM_TRACKS {
        let start = base.len() as int;
        let o = Out { bytes: base + headers_bytes(tracks, j, 0), pos: start + 4 * j };
        lemma_headers_len(tracks, j, 0);
        let e = u16_bytes(0) + u16_bytes(track_flags(tracks[j]));
        assert(emit(o, e) == Ok::<Out, IoError>(
            Out { bytes: base + headers_bytes(tracks, j + 1, 0), pos: start + 4 * (j + 1) },
        )) by {
            assert(overwrite(o.bytes, o.pos, e) =~= base + headers_bytes(tracks, j + 1, 0));
        }
        let meta1 = if j != 0 { add_name(meta, list_no, tracks[j].name@) } else { meta };
        lemma_encode_headers(tracks, base, j + 1, list_no, meta1);
        if j != 0 {
            let old_names = if meta.contains_key(list_no) { meta[list_no] } else { Seq::empty() };
            if j + 1 < NUM_TRACKS {
                assert(old_names.push(tracks[j].name@) + names_from(tracks, j + 1) =~= old_names + names_from(
                    tracks,
                    j,
                ));
            } else {
                assert(old_names.push(tracks[j].name@) =~= old_names + names_from(tracks, j));
            }
            assert(meta1.insert(list_no, meta1[list_no] + names_from(tracks, j + 1)) =~= meta.insert(
                list_no,
                old_names + names_from(tracks, j),
            ));
        }
    }
}

/// Writing the sequences of the tracks from `j` on, after those before `j`, filling in their
/// offsets.
#[verifier::rlimit(40)]
proof fn lemma_encode_sequences(tracks: Seq<Track>, base: Seq<u8>, j: int)
    requires
        tracks.len() == NUM_TRACKS,
        0 <= j <= NUM_TRACKS,
        forall|i: int| 0 <= i < NUM_TRACKS ==> plain_track(#[trigger] tracks[i]),
        0x40 + seqs_bytes(tracks, NUM_TRACKS as int).len() < 0x1_0000,
        base.len() + list_bytes(tracks).len() <= usize::MAX,
    ensures
        encode_track_sequences(
            tracks,
            Out {
                bytes: base + headers_bytes(tracks, NUM_TRACKS as int, j) + seqs_bytes(tracks, j),
                pos: (base.len() + 0x40 + seqs_bytes(tracks, j).len()) as int,
            },
            base.len() as int,
            seq_fields(tracks, base.len() as int, NUM_TRACKS as int),
            seq_fields(tracks, base.len() as int, j).len() as int,
        ) == Ok::<Out, EncodeFault>(
            Out { bytes: base + list_bytes(tracks), pos: (base.len() + list_bytes(tracks).len()) as int },
        ),
    decreases NUM_TRACKS - j,
{
    let start = base.len() as int;
    let n = NUM_TRACKS as int;
    let todo = seq_fields(tracks, start, n);
    let k = seq_fields(tracks, start, j).len() as int;
    lemma_headers_len(tracks, n, j);
    lemma_headers_len(tracks, n, n);
    lemma_fields_prefix(tracks, start, j, n);
    lemma_seqs_len(tracks, j, n);
    if j == n {
        assert(base + headers_bytes(tracks, n, j) + seqs_bytes(tracks, j) =~= base + list_bytes(tracks));
    } else if tracks[j].commands@.len() == 0 {
        lemma_fill_empty(tracks, n, j);
        assert(seq_fields(tracks, start, j + 1) == seq_fields(tracks, start, j));
        assert(seq_bytes(tracks[j]) =~= Seq::<u8>::empty()) by {
            assert(track_commands(tracks[j]) =~= Seq::<Command>::empty());
        }
        assert(seqs_bytes(tracks, j + 1) =~= seqs_bytes(tracks, j));
        lemma_encode_sequences(tracks, base, j + 1);
    } else {
        lemma_fields_prefix(tracks, start, j + 1, n);
        assert(todo[k] == (start + 4 * j, j));
        let h = headers_bytes(tracks, n, j);
        let sj = seqs_bytes(tracks, j);
        let o = Out { bytes: base + h + sj, pos: start + 0x40 + sj.len() };
        let off = ((o.pos - start) % 0x1_0000) as u16;
        assert(off == seq_offset(tracks, j));
        lemma_fill_header(tracks, n, j, sj);
        lemma_overwrite_shift(base, h + sj, 4 * j, u16_bytes(off));
        assert(base + h + sj =~= base + (h + sj));
        let o1 = Out { bytes: base + (headers_bytes(tracks, n, j + 1) + sj), pos: o.pos };
        assert(emit_at(o, start + 4 * j, u16_bytes(off)) == Ok::<Out, IoError>(o1));
        let cmds = track_commands(tracks[j]);
        assert(plain_track(tracks[j]));
        lemma_plain_encodes(cmds, o1.pos);
        lemma_seqs_len(tracks, j + 1, n);
        let o2 = Out {
            bytes: base + headers_bytes(tracks, n, j + 1) + seqs_bytes(tracks, j + 1),
            pos: start + 0x40 + seqs_bytes(tracks, j + 1).len(),
        };
        assert(overwrite(o1.bytes, o1.pos, commands_bytes(cmds)) =~= o2.bytes);
        lemma_encode_sequences(tracks, base, j + 1);
    }
}

/// Writing a track list that has no position of its own at the end of what is written: its
/// headers and sequences follow, and the subsegment entry at `tracks_pos` gets its offset.
pub proof fn lemma_encode_list(
    tl: TrackList,
    o: Out,
    tracks_pos: int,
    segment_start: int,
    count: nat,
    meta: Map<u16, Seq<Seq<char>>>,
)
    requires
        tl.wf(),
        tl.pos is None,
        forall|i: int| 0 <= i < NUM_TRACKS ==> plain_track(#[trigger] tl.tracks@[i]),
        0x40 + seqs_bytes(tl.tracks@, NUM_TRACKS as int).len() < 0x1_0000,
        o.bytes.len() == o.pos,
        o.pos % 4 == 0,
        0 <= tracks_pos,
        tracks_pos + 2 <= o.pos,
        o.pos + list_bytes(tl.tracks@).len() <= usize::MAX,
    ensures
        encode_list(tl, o, tracks_pos, segment_start, count, meta) matches Ok((o2, start, m)) && start == o.pos
            && o2.pos == o.pos + list_bytes(tl.tracks@).len() && o2.bytes == overwrite(
            o.bytes,
            tracks_pos,
            u16_bytes(list_offset(o.pos, segment_start)),
        ) + list_bytes(tl.tracks@) && m == add_names(
            meta,
            ((count % 0x1_0000 + 1) % 0x1_0000) as u16,
            list_names(tl.tracks@),
        ),
{
    let tracks = tl.tracks@;
    let n = NUM_TRACKS as int;
    let base = overwrite(o.bytes, tracks_pos, u16_bytes(list_offset(o.pos, segment_start)));
    assert(base.len() == o.pos);
    let list_no = ((count % 0x1_0000 + 1) % 0x1_0000) as u16;
    assert(headers_bytes(tracks, 0, 0) =~= Seq::<u8>::empty());
    assert(base + headers_bytes(tracks, 0, 0) =~= base);
    lemma_headers_len(tracks, n, n);
    lemma_encode_headers(tracks, base, 0, list_no, meta);
    assert(seqs_bytes(tracks, 0) =~= Seq::<u8>::empty());
    lemma_same_headers(tracks, 0, 0, 0);
    lemma_headers_len(tracks, n, 0);
    assert(headers_bytes(tracks, n, 0) == headers_bytes(tracks, n, 0) + seqs_bytes(tracks, 0)) by {
        assert(headers_bytes(tracks, n, 0) + seqs_bytes(tracks, 0) =~= headers_bytes(tracks, n, 0));
    }
    assert(base + headers_bytes(tracks, n, 0) =~= base + headers_bytes(tracks, n, 0) + seqs_bytes(tracks, 0));
    lemma_encode_sequences(tracks, base, 0);
}

proof fn lemma_flag_bits(d: u16, idx: u16, dr: u16, p: u16)
    by (bit_vector)
    requires
        d <= 1,
        idx <= 7,
        dr == 0 || dr == 0x80,
        p < 16,
    ensures
        (((d << 8u16) | (idx << 13u16) | dr | (p << 9u16)) / 256) % 2 == d,
        ((d << 8u16) | (idx << 13u16) | dr | (p << 9u16)) / 8192 == idx,
        (((d << 8u16) | (idx << 13u16) | dr | (p << 9u16)) / 512) % 16 == p,
        ((((d << 8u16) | (idx << 13u16) | dr | (p << 9u16)) / 128) % 2 == 1) == (dr == 0x80),
{
}

/// The settings that the flags word of a plain track reads back as.
proof fn lemma_track_flags(t: Track)
    requires
        plain_track(t),
    ensures
        ({
            let f = track_flags(t) as int;
            &&& ((f / 256) % 2 == 1) == t.is_disabled
            &&& spec_polyphony_from_raw((f / 8192) as u8, ((f / 512) % 16) as u8) == t.polyphony
            &&& ((f / 128) % 2 == 1) == t.is_drum_track
        }),
{
    let d: u16 = if t.is_disabled { 1 } else { 0 };
    let idx = polyphonic_idx_of(t) as u16;
    let dr: u16 = if t.is_drum_track { 0x80 } else { 0 };
    let p = (spec_parent_idx(t.polyphony) as u8) as u16;
    assert(idx <= 7);
    assert(p < 16);
    lemma_flag_bits(d, idx, dr, p);
    assert(track_flags(t) == (d << 8u16) | (idx << 13u16) | dr | (p << 9u16));
}

/// Reading the header of track `i` of a list whose bytes are at `start`, and its sequence.
#[verifier::rlimit(40)]
proof fn lemma_decode_track(tracks: Seq<Track>, s: Seq<u8>, start: int, i: int, id: u32)
    requires
        tracks.len() == NUM_TRACKS,
        0 <= i < NUM_TRACKS,
        forall|k: int| 0 <= k < NUM_TRACKS ==> plain_track(#[trigger] tracks[k]),
        0x40 + seqs_bytes(tracks, NUM_TRACKS as int).len() < 0x1_0000,
        0 <= start,
        start + list_bytes(tracks).len() <= s.len(),
        s.subrange(start, start + list_bytes(tracks).len()) == list_bytes(tracks),
        tracks[i].commands@.len() != 0 ==> start + 0x40 + seqs_bytes(tracks, i + 1).len() != 0x38EB,
    ensures
        decode_track(s, start + 4 * i, start, id) matches Ok((m, next)) && track_read_back(tracks[i], m) && next
            == id_after(id, tracks[i].commands@.len()),
{
    let n = NUM_TRACKS as int;
    let t = tracks[i];
    let lb = list_bytes(tracks);
    let h = headers_bytes(tracks, n, n);
    lemma_headers_len(tracks, n, n);
    lemma_header_at(tracks, n, n, i);
    let p = start + 4 * i;
    let e = header_entry(tracks, i, true);
    assert(s.subrange(p, p + 4) =~= e) by {
        assert(s.subrange(p, p + 4) =~= lb.subrange(4 * i, 4 * i + 4));
        assert(lb.subrange(4 * i, 4 * i + 4) =~= h.subrange(4 * i, 4 * i + 4));
    }
    assert(s[p] == e[0] && s[p + 1] == e[1] && s[p + 2] == e[2] && s[p + 3] == e[3]) by {
        assert(s.subrange(p, p + 4)[0] == s[p]);
        assert(s.subrange(p, p + 4)[1] == s[p + 1]);
        assert(s.subrange(p, p + 4)[2] == s[p + 2]);
        assert(s.subrange(p, p + 4)[3] == s[p + 3]);
    }
    lemma_u16_bytes(seq_offset(tracks, i));
    lemma_u16_bytes(track_flags(t));
    assert(be16(s[p], s[p + 1]) == seq_offset(tracks, i));
    assert(be16(s[p + 2], s[p + 3]) == track_flags(t));
    lemma_track_flags(t);
    if t.commands@.len() == 0 {
        assert(seq_offset(tracks, i) == 0);
    } else {
        let cmds = track_commands(t);
        lemma_seqs_len(tracks, i, n);
        lemma_seqs_len(tracks, i + 1, n);
        let off = seq_offset(tracks, i) as int;
        assert(off == 0x40 + seqs_bytes(tracks, i).len());
        lemma_seq_at(tracks, i);
        let a = seqs_bytes(tracks, i).len() as int;
        let sb = seq_bytes(t);
        assert(s.subrange(start + off, start + off + sb.len()) =~= sb) by {
            assert(s.subrange(start + off, start + off + sb.len()) =~= lb.subrange(off, off + sb.len()));
            assert(lb.subrange(off, off + sb.len()) =~= seqs_bytes(tracks, n).subrange(a, a + sb.len()));
        }
        assert(seqs_bytes(tracks, i + 1).len() == a + sb.len());
        law_sequence_roundtrip(cmds, s, start + off, id);
        assert(cmds.len() == t.commands@.len());
    }
}

/// Reading the tracks from the `i`-th on of a list whose bytes are at `start`: each reads back as
/// the track it was written from.
pub proof fn lemma_decode_tracks(tracks: Seq<Track>, s: Seq<u8>, start: int, i: int, acc: Seq<TrackModel>, id: u32)
    requires
        tracks.len() == NUM_TRACKS,
        0 <= i <= NUM_TRACKS,
        forall|k: int| 0 <= k < NUM_TRACKS ==> plain_track(#[trigger] tracks[k]),
        0x40 + seqs_bytes(tracks, NUM_TRACKS as int).len() < 0x1_0000,
        0 <= start,
        start + list_bytes(tracks).len() <= s.len(),
        s.subrange(start, start + list_bytes(tracks).len()) == list_bytes(tracks),
        forall|k: int|
            0 <= k < NUM_TRACKS && (#[trigger] tracks[k]).commands@.len() != 0 ==> start + 0x40 + seqs_bytes(
                tracks,
                k + 1,
            ).len() != 0x38EB,
    ensures
        decode_tracks(s, start, i, acc, id) matches Ok((ts, _)) && ts.len() == acc.len() + (NUM_TRACKS - i) && (
        forall|x: int| 0 <= x < acc.len() ==> ts[x] == acc[x]) && (forall|k: int|
            i <= k < NUM_TRACKS ==> track_read_back(#[trigger] tracks[k], ts[acc.len() + (k - i)])),
    decreases NUM_TRACKS - i,
{
    if i < NUM_TRACKS {
        lemma_decode_track(tracks, s, start, i, id);
        let (m, next) = decode_track(s, start + 4 * i, start, id)->Ok_0;
        lemma_decode_tracks(tracks, s, start, i + 1, acc.push(m), next);
    }
}

/// A track list read back where it was written gives its tracks back: each with its settings
/// and commands (its name goes to the editor metadata, and its events get fresh identifiers).
/// Encoding a list that has no position of its own at the end of what is written puts its
/// bytes there ([`list_bytes`]: sixteen headers, then the sequences), and decoding the tracks
/// of any file that holds those bytes at that place reads them back. It holds for every list of
/// [`plain_track`]s whose sequences end within 0x10000 bytes of its start (the 16-bit offsets)
/// and whose sequences do not end at position 0x38EB (where reading places a marker of its own).
pub proof fn law_track_list_roundtrip(
    tl: TrackList,
    o: Out,
    tracks_pos: int,
    segment_start: int,
    count: nat,
    meta: Map<u16, Seq<Seq<char>>>,
    s: Seq<u8>,
    id: u32,
)
    requires
        tl.wf(),
        tl.pos is None,
        forall|i: int| 0 <= i < NUM_TRACKS ==> plain_track(#[trigger] tl.tracks@[i]),
        0x40 + seqs_bytes(tl.tracks@, NUM_TRACKS as int).len() < 0x1_0000,
        o.bytes.len() == o.pos,
        o.pos % 4 == 0,
        0 <= tracks_pos,
        tracks_pos + 2 <= o.pos,
        o.pos + list_bytes(tl.tracks@).len() <= usize::MAX,
        forall|k: int|
            0 <= k < NUM_TRACKS && (#[trigger] tl.tracks@[k]).commands@.len() != 0 ==> o.pos + 0x40 + seqs_bytes(
                tl.tracks@,
                k + 1,
            ).len() != 0x38EB,
        o.pos + list_bytes(tl.tracks@).len() <= s.len(),
        s.subrange(o.pos, o.pos + list_bytes(tl.tracks@).len()) == list_bytes(tl.tracks@),
    ensures
        encode_list(tl, o, tracks_pos, segment_start, count, meta) matches Ok((o2, start, _)) && start == o.pos
            && o2.bytes.subrange(start, start + list_bytes(tl.tracks@).len()) == list_bytes(tl.tracks@),
        decode_tracks(s, o.pos, 0, Seq::empty(), id) matches Ok((ts, _)) && ts.len() == NUM_TRACKS && forall|k: int|
            0 <= k < NUM_TRACKS ==> track_read_back(#[trigger] tl.tracks@[k], ts[k]),
{
    lemma_encode_list(tl, o, tracks_pos, segment_start, count, meta);
    let o2 = encode_list(tl, o, tracks_pos, segment_start, count, meta)->Ok_0.0;
    let base = overwrite(o.bytes, tracks_pos, u16_bytes(list_offset(o.pos, segment_start)));
    assert(base.len() == o.pos);
    assert(o2.bytes.subrange(o.pos, o.pos + list_bytes(tl.tracks@).len()) =~= list_bytes(tl.tracks@));
    lemma_decode_tracks(tl.tracks@, s, o.pos, 0, Seq::empty(), id);
}

} // verus!
