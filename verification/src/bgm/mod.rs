//! The BGM song model.

pub mod cmd;
pub mod de;
pub mod en;
pub mod file_roundtrip;
pub mod list_roundtrip;
pub mod meta_roundtrip;
pub mod mamar;
pub mod midi;
pub mod roundtrip;
pub mod text_form;

use std::collections::BTreeMap;
use core::ops::Range;

use vstd::prelude::*;

use crate::bgm::cmd::{split_result, total_time, CommandSeq};
use vstd::std_specs::iter::IteratorSpec;
use crate::id::{gen_id, id_after, lemma_id_after_add, next_id, Id, IdGen};
use crate::rw::{i8_byte, signed8};

verus! {

/// Constant signature string which appears at the start of every binary BGM file.
pub const MAGIC: &'static str = "BGM ";

/// An offset relative to the beginning of the decoded/encoded BGM.
pub type FilePos = u64;

/// Track lists are keyed from 1.
pub type TrackListId = u64;

/// The number of variation slots of a song.
pub const NUM_VARIATIONS: usize = 4;

/// The number of tracks of a track list.
pub const NUM_TRACKS: usize = 16;

/// 255 is never used in vanilla songs, so it is repurposed to mean "calculate a good
/// polyphonic index for me".
pub const POLYPHONIC_IDX_AUTO_MAMAR: u8 = 255;

/// All variation slots are taken.
#[derive(Clone, Default, Copy, PartialEq, Eq, Debug, Structural)]
pub struct NoSpace;

/// How many voices a track may use at once.
#[derive(Debug, PartialEq, Eq, Hash, Clone, Copy, Structural)]
pub enum Polyphony {
    Automatic,
    Manual { voices: u8 },
    Link { parent: u8 },
    Other { priority: u8 },
}

/// The polyphony that the raw track fields stand for.
pub open spec fn spec_polyphony_from_raw(raw_priority: u8, raw_parent_track_idx: u8) -> Polyphony {
    if raw_parent_track_idx > 0 {
        Polyphony::Link { parent: (raw_parent_track_idx - 1) as u8 }
    } else if raw_priority == 0 {
        Polyphony::Manual { voices: 0 }
    } else if raw_priority == 1 {
        Polyphony::Manual { voices: 1 }
    } else if raw_priority == 5 {
        Polyphony::Manual { voices: 2 }
    } else if raw_priority == 6 {
        Polyphony::Manual { voices: 3 }
    } else if raw_priority == 7 {
        Polyphony::Manual { voices: 4 }
    } else if raw_priority == POLYPHONIC_IDX_AUTO_MAMAR {
        Polyphony::Automatic
    } else {
        Polyphony::Other { priority: raw_priority }
    }
}

/// The raw polyphonic index of a polyphony.
pub open spec fn spec_polyphonic_idx(p: Polyphony) -> u8 {
    match p {
        Polyphony::Automatic => POLYPHONIC_IDX_AUTO_MAMAR,
        Polyphony::Manual { voices } => if voices == 1 {
            1
        } else if voices == 2 {
            5
        } else if voices == 3 {
            6
        } else if voices == 4 {
            7
        } else {
            0
        },
        Polyphony::Link { .. } => 0,
        Polyphony::Other { priority } => priority,
    }
}

/// The raw parent track index of a polyphony: the parent plus one for a link, 0 otherwise.
pub open spec fn spec_parent_idx(p: Polyphony) -> int {
    match p {
        Polyphony::Link { parent } => parent + 1,
        _ => 0,
    }
}

impl Polyphony {
    pub fn from_raw(raw_priority: u8, raw_parent_track_idx: u8) -> (r: Self)
        ensures
            r == spec_polyphony_from_raw(raw_priority, raw_parent_track_idx),
    {
        if raw_parent_track_idx > 0 {
            return Polyphony::Link { parent: raw_parent_track_idx - 1 };
        }
        match raw_priority {
            0 => Polyphony::Manual { voices: 0 },
            1 => Polyphony::Manual { voices: 1 },
            5 => Polyphony::Manual { voices: 2 },
            6 => Polyphony::Manual { voices: 3 },
            7 => Polyphony::Manual { voices: 4 },
            POLYPHONIC_IDX_AUTO_MAMAR => Polyphony::Automatic,
            _ => Polyphony::Other { priority: raw_priority },
        }
    }

    pub fn to_polyphonic_idx(self) -> (r: u8)
        ensures
            r == spec_polyphonic_idx(self),
    {
        match self {
            Polyphony::Automatic => POLYPHONIC_IDX_AUTO_MAMAR,
            Polyphony::Manual { voices } => match voices {
                1 => 1,
                2 => 5,
                3 => 6,
                4 => 7,
                _ => 0,
            },
            Polyphony::Link { .. } => 0,
            Polyphony::Other { priority } => priority,
        }
    }

    pub fn to_parent_idx(self) -> (r: u8)
        requires
            spec_parent_idx(self) <= u8::MAX,
        ensures
            r == spec_parent_idx(self),
    {
        match self {
            Polyphony::Automatic | Polyphony::Manual { .. } | Polyphony::Other { .. } => 0,
            Polyphony::Link { parent } => parent + 1,
        }
    }
}

/// Whether a polyphony comes back unchanged from its raw fields: automatic, up to four manual
/// voices, a link to a parent below 255, or a priority that names no other variant.
pub open spec fn polyphony_has_raw_form(p: Polyphony) -> bool {
    match p {
        Polyphony::Automatic => true,
        Polyphony::Manual { voices } => voices <= 4,
        Polyphony::Link { parent } => parent < 255,
        Polyphony::Other { priority } => priority != 0 && priority != 1 && priority != 5 && priority
            != 6 && priority != 7 && priority != POLYPHONIC_IDX_AUTO_MAMAR,
    }
}

/// A polyphony read back from the raw fields it is written as is the polyphony itself,
/// whenever it has such a raw form.
pub proof fn law_polyphony_raw_roundtrip(p: Polyphony)
    requires
        polyphony_has_raw_form(p),
    ensures
        spec_polyphony_from_raw(spec_polyphonic_idx(p), spec_parent_idx(p) as u8) == p,
{
}

/// A drum sound.
#[derive(Clone, Default, PartialEq, Eq, Debug, Structural)]
pub struct Drum {
    pub bank: u8,
    pub patch: u8,
    pub coarse_tune: u8,
    pub fine_tune: u8,
    pub volume: u8,
    /// Left = 0, middle = 64, right = 128.
    pub pan: i8,
    pub reverb: u8,
    pub rand_tune: u8,
    pub rand_volume: u8,
    pub rand_pan: u8,
    pub rand_reverb: u8,
    pub pad_0b: u8,
}

/// An instrument (voice) of a song.
#[derive(Clone, Default, PartialEq, Eq, Debug, Structural)]
pub struct Instrument {
    /// Upper nibble = bank. Lower nibble = staccatoness mod 3 (0 = sustain, 3 = staccato).
    pub bank: u8,
    pub patch: u8,
    pub volume: u8,
    /// Like in MIDI: left = 0, middle = 64, right = 127.
    pub pan: i8,
    pub reverb: u8,
    pub coarse_tune: u8,
    pub fine_tune: u8,
    pub pad_07: u8,
}

/// The twelve bytes that hold a drum in a song file.
pub open spec fn drum_bytes(d: Drum) -> Seq<u8> {
    seq![
        d.bank,
        d.patch,
        d.coarse_tune,
        d.fine_tune,
        d.volume,
        i8_byte(d.pan),
        d.reverb,
        d.rand_tune,
        d.rand_volume,
        d.rand_pan,
        d.rand_reverb,
        d.pad_0b,
    ]
}

/// The drum that twelve bytes of a song file hold.
pub open spec fn drum_from_bytes(b: Seq<u8>) -> Drum {
    Drum {
        bank: b[0],
        patch: b[1],
        coarse_tune: b[2],
        fine_tune: b[3],
        volume: b[4],
        pan: signed8(b[5]) as i8,
        reverb: b[6],
        rand_tune: b[7],
        rand_volume: b[8],
        rand_pan: b[9],
        rand_reverb: b[10],
        pad_0b: b[11],
    }
}

/// The eight bytes that hold an instrument in a song file.
pub open spec fn instrument_bytes(i: Instrument) -> Seq<u8> {
    seq![i.bank, i.patch, i.volume, i8_byte(i.pan), i.reverb, i.coarse_tune, i.fine_tune, i.pad_07]
}

/// The instrument that eight bytes of a song file hold.
pub open spec fn instrument_from_bytes(b: Seq<u8>) -> Instrument {
    Instrument {
        bank: b[0],
        patch: b[1],
        volume: b[2],
        pan: signed8(b[3]) as i8,
        reverb: b[4],
        coarse_tune: b[5],
        fine_tune: b[6],
        pad_07: b[7],
    }
}

/// Bytes of the input that are copied through as they are.
#[derive(PartialEq, Eq, Debug)]
pub struct Unknown {
    pub range: Range<u64>,
    pub data: Vec<u8>,
}

impl Clone for Unknown {
    fn clone(&self) -> (r: Self)
        ensures
            r.range == self.range,
            r.data@ == self.data@,
    {
        Unknown { range: self.range.start..self.range.end, data: self.data.clone() }
    }
}

/// One track of a track list.
#[derive(Clone, PartialEq, Eq, Debug)]
pub struct Track {
    pub name: String,
    pub is_disabled: bool,
    pub polyphony: Polyphony,
    pub is_drum_track: bool,
    pub commands: CommandSeq,
}

impl Track {
    /// The track that a track list starts with: unnamed, disabled, automatic, no commands.
    pub fn new_default() -> (r: Self)
        ensures
            r.name@ == Seq::<char>::empty(),
            r.is_disabled,
            r.polyphony == Polyphony::Automatic,
            !r.is_drum_track,
            r.commands@ == Seq::<crate::bgm::cmd::Event>::empty(),
    {
        Track {
            name: String::new(),
            is_disabled: true,
            polyphony: Polyphony::Automatic,
            is_drum_track: false,
            commands: CommandSeq::new(),
        }
    }

    /// Splits the track at `time`: `self` keeps the commands before it, and the returned track
    /// has the same settings and the commands after it (see [`CommandSeq::split_at`]).
    pub fn split_at(&mut self, ids: &mut IdGen, time: usize) -> (r: Track)
        requires
            total_time(old(self).commands@) <= usize::MAX,
        ensures
            (final(self).commands@, r.commands@) == split_result(old(self).commands@, time as int, old(ids).peek()),
            r.name@ == old(self).name@,
            r.is_disabled == old(self).is_disabled,
            r.polyphony == old(self).polyphony,
            r.is_drum_track == old(self).is_drum_track,
            final(self).name == old(self).name,
            final(self).is_disabled == old(self).is_disabled,
            final(self).polyphony == old(self).polyphony,
            final(self).is_drum_track == old(self).is_drum_track,
            final(ids).peek() == crate::bgm::cmd::split_next(old(self).commands@, time as int, old(ids).peek()),
    {
        let commands = self.commands.split_at(ids, time);
        Track {
            name: self.name.clone(),
            is_disabled: self.is_disabled,
            polyphony: self.polyphony,
            is_drum_track: self.is_drum_track,
            commands,
        }
    }
}

impl Default for Track {
    fn default() -> (r: Self)
        ensures
            r.name@ == Seq::<char>::empty(),
            r.is_disabled,
            r.polyphony == Polyphony::Automatic,
            !r.is_drum_track,
            r.commands@ == Seq::<crate::bgm::cmd::Event>::empty(),
    {
        Track::new_default()
    }
}

/// The tracks that play together during a segment.
#[derive(Clone, PartialEq, Eq, Debug)]
pub struct TrackList {
    /// Encode/decode file position.
    pub pos: Option<FilePos>,
    /// Exactly [`NUM_TRACKS`] tracks.
    pub tracks: Vec<Track>,
}

/// Whether every track of `tl` has a sequence whose length fits in a `usize`.
pub open spec fn track_times_fit(tl: TrackList) -> bool {
    forall|i: int| 0 <= i < tl.tracks@.len() ==> total_time(#[trigger] tl.tracks@[i].commands@) <= usize::MAX
}

impl TrackList {
    /// Whether the list holds exactly [`NUM_TRACKS`] tracks.
    pub open spec fn wf(&self) -> bool {
        self.tracks@.len() == NUM_TRACKS
    }

    /// A list of [`NUM_TRACKS`] default tracks.
    pub fn new_default() -> (r: Self)
        ensures
            r.wf(),
            r.pos is None,
            forall|i: int| 0 <= i < NUM_TRACKS ==> (#[trigger] r.tracks@[i]).commands@.len() == 0,
    {
        let mut tracks: Vec<Track> = Vec::new();
        while tracks.len() < NUM_TRACKS
            invariant
                tracks@.len() <= NUM_TRACKS,
                forall|i: int| 0 <= i < tracks@.len() ==> (#[trigger] tracks@[i]).commands@.len() == 0,
            decreases NUM_TRACKS - tracks@.len(),
        {
            tracks.push(Track::new_default());
        }
        TrackList { pos: None, tracks }
    }

    /// The length of the list in time: that of its first (master) track.
    pub fn len_time(&self) -> (r: usize)
        requires
            self.wf(),
            total_time(self.tracks@[0].commands@) <= usize::MAX,
        ensures
            r == total_time(self.tracks@[0].commands@),
    {
        self.tracks[0].commands.len_time()
    }

    /// Splits every track at `time` (see [`Track::split_at`]); `self` keeps what comes before
    /// and the returned list, which has no file position, holds what comes after.
    pub fn split_at(&mut self, ids: &mut IdGen, time: usize) -> (r: TrackList)
        requires
            old(self).wf(),
            track_times_fit(*old(self)),
        ensures
            final(self).wf(),
            r.wf(),
            r.pos is None,
            final(self).pos == old(self).pos,
            split_lists(*old(self), *final(self), r, time as int, old(ids).peek()),
            final(ids).peek() == split_ids(*old(self), time as int, old(ids).peek(), NUM_TRACKS as int),
    {
        let ghost old_tracks = self.tracks@;
        let ghost first = ids.peek();
        let mut new_tracks: Vec<Track> = Vec::new();
        let mut i: usize = 0;
        while i < NUM_TRACKS
            invariant
                i <= NUM_TRACKS,
                self.tracks@.len() == NUM_TRACKS,
                old_tracks.len() == NUM_TRACKS,
                self.pos == old(self).pos,
                old_tracks == old(self).tracks@,
                track_times_fit(*old(self)),
                new_tracks@.len() == i,
                ids.peek() == split_ids(*old(self), time as int, first, i as int),
                first == old(ids).peek(),
                forall|j: int| i <= j < NUM_TRACKS ==> self.tracks@[j] == old_tracks[j],
                forall|j: int|
                    0 <= j < i ==> {
                        let t = #[trigger] old_tracks[j];
                        let (left, right) = split_result(t.commands@, time as int, split_ids(*old(self), time as int, first, j));
                        &&& self.tracks@[j].commands@ == left
                        &&& new_tracks@[j].commands@ == right
                        &&& self.tracks@[j].name == t.name
                        &&& new_tracks@[j].name@ == t.name@
                        &&& self.tracks@[j].is_disabled == t.is_disabled
                        &&& new_tracks@[j].is_disabled == t.is_disabled
                        &&& self.tracks@[j].polyphony == t.polyphony
                        &&& new_tracks@[j].polyphony == t.polyphony
                        &&& self.tracks@[j].is_drum_track == t.is_drum_track
                        &&& new_tracks@[j].is_drum_track == t.is_drum_track
                    },
            decreases NUM_TRACKS - i,
        {
            let mut track = Track::new_default();
            core::mem::swap(&mut track, &mut self.tracks[i]);
            assert(track == old_tracks[i as int]);
            assert(total_time(track.commands@) <= usize::MAX);
            let after = track.split_at(ids, time);
            let ghost placed = self.tracks@;
            self.tracks.set(i, track);
            new_tracks.push(after);
            i = i + 1;
        }
        TrackList { pos: None, tracks: new_tracks }
    }
}

/// Whether `left` and `right` are `tl` split at `time`, track by track, with the inserted
/// `End`s numbered from `first`.
pub open spec fn split_lists(tl: TrackList, left: TrackList, right: TrackList, time: int, first: u32) -> bool {
    forall|i: int|
        0 <= i < NUM_TRACKS ==> {
            let t = #[trigger] tl.tracks@[i];
            let (l, r) = split_result(t.commands@, time, split_ids(tl, time, first, i));
            &&& left.tracks@[i].commands@ == l
            &&& right.tracks@[i].commands@ == r
            &&& left.tracks@[i].name == t.name
            &&& right.tracks@[i].name@ == t.name@
            &&& left.tracks@[i].is_disabled == t.is_disabled
            &&& right.tracks@[i].is_disabled == t.is_disabled
            &&& left.tracks@[i].polyphony == t.polyphony
            &&& right.tracks@[i].polyphony == t.polyphony
            &&& left.tracks@[i].is_drum_track == t.is_drum_track
            &&& right.tracks@[i].is_drum_track == t.is_drum_track
        }
}

/// The identifier that splitting the first `n` tracks of `tl` at `time` hands to the next
/// `End`, starting from `first`.
pub open spec fn split_ids(tl: TrackList, time: int, first: u32, n: int) -> u32
    decreases n,
{
    if n <= 0 {
        first
    } else {
        let before = split_ids(tl, time, first, n - 1);
        crate::bgm::cmd::split_next(tl.tracks@[n - 1].commands@, time, before)
    }
}

/// An entry of a variation's segment list.
#[derive(Clone, PartialEq, Eq, Debug, Structural)]
pub enum Segment {
    Subseg { id: Option<Id>, track_list: TrackListId },
    StartLoop { id: Option<Id>, label_index: u16 },
    Wait { id: Option<Id> },
    EndLoop { id: Option<Id>, label_index: u8, iter_count: u8 },
    Unknown6 { id: Option<Id>, label_index: u8, iter_count: u8 },
    Unknown7 { id: Option<Id>, label_index: u8, iter_count: u8 },
}

/// `s` with its identifier replaced by `id`.
pub open spec fn segment_with_id(s: Segment, id: Option<Id>) -> Segment {
    match s {
        Segment::Subseg { track_list, .. } => Segment::Subseg { id, track_list },
        Segment::StartLoop { label_index, .. } => Segment::StartLoop { id, label_index },
        Segment::Wait { .. } => Segment::Wait { id },
        Segment::EndLoop { label_index, iter_count, .. } => Segment::EndLoop { id, label_index, iter_count },
        Segment::Unknown6 { label_index, iter_count, .. } => Segment::Unknown6 { id, label_index, iter_count },
        Segment::Unknown7 { label_index, iter_count, .. } => Segment::Unknown7 { id, label_index, iter_count },
    }
}

impl Segment {
    /// Gives the segment a fresh identifier.
    pub fn add_new_id(&mut self, ids: &mut IdGen)
        ensures
            *final(self) == segment_with_id(*old(self), Some(old(ids).peek())),
            final(ids).peek() == next_id(old(ids).peek()),
    {
        let new_id = Some(gen_id(ids));
        *self = match *self {
            Segment::Subseg { track_list, .. } => Segment::Subseg { id: new_id, track_list },
            Segment::StartLoop { label_index, .. } => Segment::StartLoop { id: new_id, label_index },
            Segment::Wait { .. } => Segment::Wait { id: new_id },
            Segment::EndLoop { label_index, iter_count, .. } => Segment::EndLoop { id: new_id, label_index, iter_count },
            Segment::Unknown6 { label_index, iter_count, .. } => Segment::Unknown6 { id: new_id, label_index, iter_count },
            Segment::Unknown7 { label_index, iter_count, .. } => Segment::Unknown7 { id: new_id, label_index, iter_count },
        };
    }

    /// Removes the segment's identifier.
    pub fn strip_id(&mut self)
        ensures
            *final(self) == segment_with_id(*old(self), None),
    {
        *self = match *self {
            Segment::Subseg { track_list, .. } => Segment::Subseg { id: None, track_list },
            Segment::StartLoop { label_index, .. } => Segment::StartLoop { id: None, label_index },
            Segment::Wait { .. } => Segment::Wait { id: None },
            Segment::EndLoop { label_index, iter_count, .. } => Segment::EndLoop { id: None, label_index, iter_count },
            Segment::Unknown6 { label_index, iter_count, .. } => Segment::Unknown6 { id: None, label_index, iter_count },
            Segment::Unknown7 { label_index, iter_count, .. } => Segment::Unknown7 { id: None, label_index, iter_count },
        };
    }
}

/// The segments of one variation of a song.
#[derive(Clone, PartialEq, Eq, Debug)]
pub struct Variation {
    pub segments: Vec<Segment>,
}

/// A song.
#[derive(Clone, PartialEq, Eq, Debug)]
pub struct Bgm {
    pub name: String,
    /// Exactly [`NUM_VARIATIONS`] slots.
    pub variations: Vec<Option<Variation>>,
    pub drums: Vec<Drum>,
    pub instruments: Vec<Instrument>,
    pub track_lists: BTreeMap<TrackListId, TrackList>,
    pub unknowns: Vec<Unknown>,
}


/// The largest key of a map of track lists, or 0 when it is empty.
pub open spec fn is_max_key(m: Map<TrackListId, TrackList>, k: TrackListId) -> bool {
    &&& forall|id: TrackListId| #[trigger] m.contains_key(id) ==> id <= k
    &&& (m.len() > 0 ==> m.contains_key(k))
    &&& (m.len() == 0 ==> k == 0)
}

proof fn lemma_keys_increasing(keys: Seq<&TrackListId>)
    requires
        vstd::std_specs::btree::increasing_seq(keys),
    ensures
        forall|i: int, j: int| 0 <= i < j < keys.len() ==> *keys[i] < *keys[j],
{
    broadcast use vstd::std_specs::btree::group_btree_axioms;
    assert forall|i: int, j: int| 0 <= i < j < keys.len() implies *keys[i] < *keys[j] by {
        assert(vstd::std_specs::cmp::OrdSpec::cmp_spec(&keys[i], &keys[j]) is Less);
    }
}

impl Bgm {
    /// Whether the song has exactly [`NUM_VARIATIONS`] variation slots.
    pub open spec fn wf(&self) -> bool {
        self.variations@.len() == NUM_VARIATIONS
    }

    /// An empty song named "New Song".
    pub fn new() -> (r: Bgm)
        ensures
            r.wf(),
            r.name@ == "New Song"@,
            forall|i: int| 0 <= i < NUM_VARIATIONS ==> r.variations@[i] is None,
            r.drums@.len() == 0,
            r.instruments@.len() == 0,
            r.track_lists@ == Map::<TrackListId, TrackList>::empty(),
            r.unknowns@.len() == 0,
    {
        let mut variations: Vec<Option<Variation>> = Vec::new();
        while variations.len() < NUM_VARIATIONS
            invariant
                variations@.len() <= NUM_VARIATIONS,
                forall|i: int| 0 <= i < variations@.len() ==> variations@[i] is None,
            decreases NUM_VARIATIONS - variations@.len(),
        {
            variations.push(None);
        }
        Bgm {
            name: "New Song".to_owned(),
            variations,
            drums: Vec::new(),
            instruments: Vec::new(),
            track_lists: BTreeMap::new(),
            unknowns: Vec::new(),
        }
    }

    /// Whether a variation slot is free.
    pub fn can_add_variation(&self) -> (r: bool)
        ensures
            r == exists|i: int| 0 <= i < self.variations@.len() && self.variations@[i] is None,
    {
        let mut i: usize = 0;
        while i < self.variations.len()
            invariant
                i <= self.variations@.len(),
                forall|j: int| 0 <= j < i ==> self.variations@[j] is Some,
            decreases self.variations@.len() - i,
        {
            if self.variations[i].is_none() {
                return true;
            }
            i = i + 1;
        }
        false
    }

    /// Fills the first free variation slot with an empty variation and returns its index.
    pub fn add_variation(&mut self) -> (r: Result<usize, NoSpace>)
        ensures
            r matches Ok(i) ==> {
                &&& i < old(self).variations@.len()
                &&& old(self).variations@[i as int] is None
                &&& forall|j: int| 0 <= j < i ==> old(self).variations@[j] is Some
                &&& final(self).variations@ == old(self).variations@.update(
                    i as int,
                    Some(Variation { segments: final(self).variations@[i as int]->Some_0.segments }),
                )
                &&& final(self).variations@[i as int] matches Some(v) && v.segments@.len() == 0
            },
            r is Err ==> forall|j: int| 0 <= j < old(self).variations@.len() ==> old(self).variations@[j] is Some,
            r is Err ==> final(self).variations == old(self).variations,
            final(self).name == old(self).name,
            final(self).drums == old(self).drums,
            final(self).instruments == old(self).instruments,
            final(self).track_lists == old(self).track_lists,
            final(self).unknowns == old(self).unknowns,
    {
        let mut i: usize = 0;
        while i < self.variations.len()
            invariant
                i <= self.variations@.len(),
                self.variations == old(self).variations,
                self.name == old(self).name,
                self.drums == old(self).drums,
                self.instruments == old(self).instruments,
                self.track_lists == old(self).track_lists,
                self.unknowns == old(self).unknowns,
                forall|j: int| 0 <= j < i ==> self.variations@[j] is Some,
            decreases self.variations@.len() - i,
        {
            if self.variations[i].is_none() {
                self.variations.set(i, Some(Variation { segments: Vec::new() }));
                return Ok(i);
            }
            i = i + 1;
        }
        Err(NoSpace)
    }

    /// The keys of the track lists, in increasing order.
    pub fn track_list_ids(&self) -> (r: Vec<TrackListId>)
        ensures
            r@.to_set() == self.track_lists@.dom(),
            r@.len() == self.track_lists@.dom().len(),
            r@.no_duplicates(),
            forall|i: int, j: int| 0 <= i < j < r@.len() ==> r@[i] < r@[j],
    {
        broadcast use vstd::std_specs::btree::group_btree_axioms;
        let mut out: Vec<TrackListId> = Vec::new();
        let ghost keys = vstd::std_specs::btree::spec_keys_iter(&self.track_lists).remaining();
        for k in it: self.track_lists.keys()
            invariant
                it.seq() == keys,
                out@ == keys.take(it.index()).unref(),
        {
            assert(keys.take(it.index() + 1).unref() =~= out@.push(*k));
            out.push(*k);
        }
        proof {
            assert(keys.take(keys.len() as int) =~= keys);
            assert(out@ =~= keys.unref());
            lemma_keys_increasing(keys);
        }
        out
    }
}


/// The identifier that follows `k` among track list keys, wrapping around.
pub open spec fn next_list_id(k: TrackListId) -> TrackListId {
    if k == u64::MAX { 0 } else { (k + 1) as u64 }
}

/// Whether `id` is the key of the first track list (in key order) placed at `pos`.
pub open spec fn first_list_at(m: Map<TrackListId, TrackList>, pos: FilePos, id: TrackListId) -> bool {
    &&& m.contains_key(id)
    &&& m[id].pos == Some(pos)
    &&& forall|k: TrackListId| #[trigger] m.contains_key(k) && k < id ==> m[k].pos != Some(pos)
}

impl Bgm {
    /// The key of the first track list, in key order, that was decoded at `pos`.
    pub fn find_track_list_with_pos(&self, pos: FilePos) -> (r: Option<TrackListId>)
        ensures
            r matches Some(id) ==> first_list_at(self.track_lists@, pos, id),
            r is None ==> forall|k: TrackListId| #[trigger] self.track_lists@.contains_key(k)
                ==> self.track_lists@[k].pos != Some(pos),
    {
        broadcast use vstd::std_specs::btree::group_btree_axioms;
        let ids = self.track_list_ids();
        let ghost m = self.track_lists@;
        let mut i: usize = 0;
        while i < ids.len()
            invariant
                m == self.track_lists@,
                ids@.to_set() == m.dom(),
                forall|a: int, b: int| 0 <= a < b < ids@.len() ==> ids@[a] < ids@[b],
                i <= ids@.len(),
                forall|j: int| 0 <= j < i ==> m[#[trigger] ids@[j]].pos != Some(pos),
            decreases ids@.len() - i,
        {
            let id = ids[i];
            assert(ids@.to_set().contains(id));
            match self.track_lists.get(&id) {
                Some(tl) => {
                    if let Some(p) = tl.pos {
                        if p == pos {
                            assert forall|k: TrackListId| #[trigger] m.contains_key(k) && k < id implies m[k].pos
                                != Some(pos) by {
                                assert(ids@.to_set().contains(k));
                                let j = choose|j: int| 0 <= j < ids@.len() && ids@[j] == k;
                                if j >= i {
                                    assert(ids@[i as int] <= ids@[j]);
                                }
                            }
                            return Some(id);
                        }
                    }
                },
                None => {},
            }
            i = i + 1;
        }
        assert forall|k: TrackListId| #[trigger] m.contains_key(k) implies m[k].pos != Some(pos) by {
            assert(ids@.to_set().contains(k));
        }
        None
    }

    /// Adds a track list under the key after the largest one in use, and returns that key.
    pub fn add_track_list(&mut self, track_list: TrackList) -> (r: TrackListId)
        requires
            forall|k: TrackListId| is_max_key(old(self).track_lists@, k) ==> !old(self).track_lists@.contains_key(
                next_list_id(k),
            ),
        ensures
            exists|k: TrackListId| is_max_key(old(self).track_lists@, k) && r == next_list_id(k),
            final(self).track_lists@ == old(self).track_lists@.insert(r, track_list),
            final(self).name == old(self).name,
            final(self).variations == old(self).variations,
            final(self).drums == old(self).drums,
            final(self).instruments == old(self).instruments,
            final(self).unknowns == old(self).unknowns,
    {
        broadcast use vstd::std_specs::btree::group_btree_axioms;
        let ids = self.track_list_ids();
        let ghost m = self.track_lists@;
        let mut max_id: TrackListId = 0;
        let mut i: usize = 0;
        while i < ids.len()
            invariant
                ids@.to_set() == m.dom(),
                i <= ids@.len(),
                forall|j: int| 0 <= j < i ==> ids@[j] <= max_id,
                i == 0 ==> max_id == 0,
                i > 0 ==> exists|j: int| 0 <= j < i && ids@[j] == max_id,
            decreases ids@.len() - i,
        {
            if ids[i] > max_id || i == 0 {
                max_id = ids[i];
            }
            i = i + 1;
        }
        proof {
            assert forall|k: TrackListId| #[trigger] m.contains_key(k) implies k <= max_id by {
                assert(ids@.to_set().contains(k));
            }
            if m.len() > 0 {
                assert(ids@.len() > 0) by {
                    if ids@.len() == 0 {
                        assert(ids@.to_set() =~= Set::<TrackListId>::empty());
                    }
                }
                let j = choose|j: int| 0 <= j < ids@.len() && ids@[j] == max_id;
                assert(ids@.to_set().contains(ids@[j]));
            } else {
                if ids@.len() > 0 {
                    assert(ids@.to_set().contains(ids@[0]));
                }
            }
            assert(is_max_key(m, max_id));
        }
        let id = if max_id == u64::MAX { 0 } else { max_id + 1 };
        self.track_lists.insert(id, track_list);
        id
    }
}


/// How long the track list `id` of `m` plays: the length of its master track, or 0 if there is
/// no such list.
pub open spec fn list_duration(m: Map<TrackListId, TrackList>, id: TrackListId) -> int {
    if m.contains_key(id) { total_time(m[id].tracks@[0].commands@) as int } else { 0 }
}

/// The total time of the subsegments of `segs` from index `i` on.
pub open spec fn segments_time(m: Map<TrackListId, TrackList>, segs: Seq<Segment>, i: int) -> int
    decreases segs.len() - i,
{
    if i < 0 || i >= segs.len() {
        0
    } else {
        match segs[i] {
            Segment::Subseg { track_list, .. } => list_duration(m, track_list) + segments_time(m, segs, i + 1),
            _ => segments_time(m, segs, i + 1),
        }
    }
}

/// The subsegment (index, track list and offset into it) that plays across `time`, searching
/// from index `i` whose start time is `current`; `None` when a segment starts or ends exactly at
/// `time`, or none plays across it.
pub open spec fn split_search(m: Map<TrackListId, TrackList>, segs: Seq<Segment>, time: int, i: int, current: int) -> Option<(int, TrackListId, int)>
    decreases segs.len() - i,
{
    if i < 0 || i >= segs.len() {
        None
    } else {
        match segs[i] {
            Segment::Subseg { track_list, .. } => {
                let end = current + list_duration(m, track_list);
                if current < time < end {
                    Some((i, track_list, time - current))
                } else if current == time || end == time {
                    None
                } else {
                    split_search(m, segs, time, i + 1, end)
                }
            },
            _ => split_search(m, segs, time, i + 1, current),
        }
    }
}

/// Whether every track list of `m` holds [`NUM_TRACKS`] tracks whose lengths fit in a `usize`.
pub open spec fn lists_fit(m: Map<TrackListId, TrackList>) -> bool {
    forall|k: TrackListId| #[trigger] m.contains_key(k) ==> m[k].wf() && track_times_fit(m[k])
}

proof fn lemma_segments_time_nonneg(m: Map<TrackListId, TrackList>, segs: Seq<Segment>, i: int)
    ensures
        segments_time(m, segs, i) >= 0,
    decreases segs.len() - i,
{
    if 0 <= i < segs.len() {
        lemma_segments_time_nonneg(m, segs, i + 1);
    }
}

impl Bgm {
    /// Finds the segment playing at `time` in variation `variation` and splits it in two at
    /// `time`. Does nothing if a segment already starts or ends at `time`.
    pub fn split_variation_at(&mut self, ids: &mut IdGen, variation: usize, time: usize)
        requires
            old(self).wf(),
            lists_fit(old(self).track_lists@),
            forall|k: TrackListId| is_max_key(old(self).track_lists@, k) ==> !old(self).track_lists@.contains_key(
                next_list_id(k),
            ),
            variation < NUM_VARIATIONS ==> (old(self).variations@[variation as int] matches Some(v)
                ==> segments_time(old(self).track_lists@, v.segments@, 0) <= usize::MAX),
        ensures
            final(self).wf(),
            final(self).name == old(self).name,
            final(self).drums == old(self).drums,
            final(self).instruments == old(self).instruments,
            final(self).unknowns == old(self).unknowns,
            ({
                let found = if variation < NUM_VARIATIONS && old(self).variations@[variation as int] is Some {
                    split_search(old(self).track_lists@, old(self).variations@[variation as int]->Some_0.segments@, time as int, 0, 0)
                } else {
                    None
                };
                match found {
                    None => final(self).variations == old(self).variations && final(self).track_lists == old(
                        self,
                    ).track_lists && final(ids).peek() == old(ids).peek(),
                    Some((i, list, offset)) => exists|max: TrackListId, new_id: TrackListId| {
                        &&& is_max_key(old(self).track_lists@, max)
                        &&& new_id == next_list_id(max)
                        &&& final(self).track_lists@.dom() == old(self).track_lists@.dom().insert(new_id)
                        &&& forall|k: TrackListId| #[trigger] old(self).track_lists@.contains_key(k) && k != list
                            ==> final(self).track_lists@[k] == old(self).track_lists@[k]
                        &&& split_lists(
                            old(self).track_lists@[list],
                            final(self).track_lists@[list],
                            final(self).track_lists@[new_id],
                            offset,
                            old(ids).peek(),
                        )
                        &&& final(self).track_lists@[list].pos == old(self).track_lists@[list].pos
                        &&& final(self).track_lists@[new_id].pos is None
                        &&& final(ids).peek() == next_id(split_ids(old(self).track_lists@[list], offset, old(ids).peek(), NUM_TRACKS as int))
                        &&& final(self).variations@ == old(self).variations@.update(
                            variation as int,
                            Some(Variation { segments: final(self).variations@[variation as int]->Some_0.segments }),
                        )
                        &&& final(self).variations@[variation as int]->Some_0.segments@ == old(self).variations@[variation as int]->Some_0.segments@.insert(
                            i + 1,
                            Segment::Subseg {
                                id: Some(split_ids(old(self).track_lists@[list], offset, old(ids).peek(), NUM_TRACKS as int)),
                                track_list: new_id,
                            },
                        )
                    },
                }
            }),
    {
        if variation >= self.variations.len() {
            return;
        }
        let ghost m = self.track_lists@;
        let ghost segs = match self.variations@[variation as int] {
            Some(v) => v.segments@,
            None => Seq::empty(),
        };
        let mut found: Option<(usize, TrackListId, usize)> = None;
        match &self.variations[variation] {
            None => {
                return;
            },
            Some(v) => {
                let n = v.segments.len();
                let mut current: usize = 0;
                let mut i: usize = 0;
                proof {
                    lemma_segments_time_nonneg(m, segs, 0);
                }
                while i < n
                    invariant_except_break
                        segs == v.segments@,
                        n == segs.len(),
                        i <= n,
                        m == self.track_lists@,
                        lists_fit(m),
                        found is None,
                        current + segments_time(m, segs, i as int) == segments_time(m, segs, 0),
                        segments_time(m, segs, 0) <= usize::MAX,
                        split_search(m, segs, time as int, 0, 0) == split_search(m, segs, time as int, i as int, current as int),
                    ensures
                        found matches Some((fi, fl, fo)) ==> split_search(m, segs, time as int, 0, 0) == Some((fi as int, fl, fo as int)),
                        found is None ==> split_search(m, segs, time as int, 0, 0) is None,
                    decreases n - i,
                {
                    proof {
                        lemma_segments_time_nonneg(m, segs, i + 1);
                    }
                    match v.segments[i] {
                        Segment::Subseg { track_list, .. } => {
                            let duration: usize = match self.track_lists.get(&track_list) {
                                Some(tl) => {
                                    proof {
                                        assert(m.contains_key(track_list));
                                    }
                                    tl.len_time()
                                },
                                None => 0,
                            };
                            let seg_start = current;
                            let seg_end = current + duration;
                            if seg_start < time && time < seg_end {
                                found = Some((i, track_list, time - seg_start));
                                break;
                            } else if seg_start == time || seg_end == time {
                                break;
                            }
                            current = seg_end;
                        },
                        _ => {},
                    }
                    i = i + 1;
                }
            },
        }
        if let Some((idx, list, offset)) = found {
            proof {
                lemma_split_search_bounds(m, segs, time as int, 0, 0);
            }
            let removed = self.track_lists.remove(&list);
            let mut left = match removed {
                Some(tl) => tl,
                None => {
                    return;
                },
            };
            let ghost old_list = left;
            let ghost first = ids.peek();
            let right = left.split_at(ids, offset);
            let ghost after_split = ids.peek();
            let ghost left_final = left;
            self.track_lists.insert(list, left);
            proof {
                assert(self.track_lists@.dom() =~= m.dom());
                lemma_same_keys(m, self.track_lists@);
                assert forall|k: TrackListId| is_max_key(self.track_lists@, k) implies !self.track_lists@.contains_key(
                    next_list_id(k),
                ) by {
                    assert(is_max_key(m, k));
                }
            }
            let ghost m2 = self.track_lists@;
            let new_list = self.add_track_list(right);
            let ghost max_key = choose|k: TrackListId| is_max_key(m2, k) && new_list == next_list_id(k);
            proof {
                assert(is_max_key(m, max_key));
                assert(!m.contains_key(new_list));
            }
            let new_id = gen_id(ids);
            let mut slot: Option<Variation> = None;
            core::mem::swap(&mut slot, &mut self.variations[variation]);
            match slot {
                Some(mut v) => {
                    v.segments.insert(idx + 1, Segment::Subseg { id: Some(new_id), track_list: new_list });
                    self.variations.set(variation, Some(v));
                },
                None => {},
            }
            proof {
                assert(self.track_lists@.dom() =~= m.dom().insert(new_list));
                assert(self.track_lists@[list] == left_final);
                assert(self.track_lists@[new_list] == right);
                assert(forall|k: TrackListId| #[trigger] m.contains_key(k) && k != list
                    ==> self.track_lists@[k] == m[k]);
                assert(new_id == after_split);
            }
        }
    }
}

proof fn lemma_same_keys(m1: Map<TrackListId, TrackList>, m2: Map<TrackListId, TrackList>)
    requires
        m1.dom() == m2.dom(),
    ensures
        forall|k: TrackListId| #[trigger] is_max_key(m1, k) <==> is_max_key(m2, k),
{
}

proof fn lemma_split_search_bounds(m: Map<TrackListId, TrackList>, segs: Seq<Segment>, time: int, i: int, current: int)
    requires
        0 <= i,
    ensures
        split_search(m, segs, time, i, current) matches Some((fi, fl, fo)) ==> {
            &&& i <= fi < segs.len()
            &&& segs[fi] matches Segment::Subseg { track_list, .. } && track_list == fl
            &&& m.contains_key(fl)
            &&& 0 < fo < list_duration(m, fl)
        },
    decreases segs.len() - i,
{
    if i < segs.len() {
        match segs[i] {
            Segment::Subseg { track_list, .. } => {
                lemma_split_search_bounds(m, segs, time, i + 1, current + list_duration(m, track_list));
            },
            _ => {
                lemma_split_search_bounds(m, segs, time, i + 1, current);
            },
        }
    }
}

/// `segs` with fresh identifiers from `first` on, in order.
pub open spec fn with_ids(segs: Seq<Segment>, first: u32) -> Seq<Segment> {
    Seq::new(segs.len(), |i: int| segment_with_id(segs[i], Some(id_after(first, i as nat))))
}

/// The number of segments in the variations before the `v`-th.
pub open spec fn segments_before(vars: Seq<Option<Variation>>, v: int) -> nat
    decreases v,
{
    if v <= 0 {
        0
    } else {
        segments_before(vars, v - 1) + match vars[v - 1] {
            Some(var) => var.segments@.len(),
            None => 0,
        }
    }
}

impl Bgm {
    /// Gives every segment a fresh identifier, variation by variation.
    pub fn add_segment_ids(&mut self, ids: &mut IdGen)
        ensures
            final(self).name == old(self).name,
            final(self).drums == old(self).drums,
            final(self).instruments == old(self).instruments,
            final(self).track_lists == old(self).track_lists,
            final(self).unknowns == old(self).unknowns,
            final(self).variations@.len() == old(self).variations@.len(),
            forall|v: int|
                0 <= v < old(self).variations@.len() ==> match #[trigger] old(self).variations@[v] {
                    None => final(self).variations@[v] is None,
                    Some(var) => final(self).variations@[v] matches Some(var2) && var2.segments@ == with_ids(
                        var.segments@,
                        id_after(old(ids).peek(), segments_before(old(self).variations@, v)),
                    ),
                },
            final(ids).peek() == id_after(old(ids).peek(), segments_before(old(self).variations@, old(self).variations@.len() as int)),
    {
        let ghost vars0 = self.variations@;
        let ghost first = ids.peek();
        let mut v: usize = 0;
        while v < self.variations.len()
            invariant
                v <= self.variations@.len(),
                self.variations@.len() == vars0.len(),
                vars0 == old(self).variations@,
                first == old(ids).peek(),
                self.name == old(self).name,
                self.drums == old(self).drums,
                self.instruments == old(self).instruments,
                self.track_lists == old(self).track_lists,
                self.unknowns == old(self).unknowns,
                ids.peek() == id_after(first, segments_before(vars0, v as int)),
                forall|w: int| v <= w < vars0.len() ==> self.variations@[w] == vars0[w],
                forall|w: int|
                    0 <= w < v ==> match #[trigger] vars0[w] {
                        None => self.variations@[w] is None,
                        Some(var) => self.variations@[w] matches Some(var2) && var2.segments@ == with_ids(
                            var.segments@,
                            id_after(first, segments_before(vars0, w)),
                        ),
                    },
            decreases vars0.len() - v,
        {
            let mut slot: Option<Variation> = None;
            core::mem::swap(&mut slot, &mut self.variations[v]);
            match slot {
                None => {},
                Some(mut var) => {
                    let ghost segs0 = var.segments@;
                    let ghost start = ids.peek();
                    let mut i: usize = 0;
                    while i < var.segments.len()
                        invariant
                            i <= var.segments@.len(),
                            var.segments@.len() == segs0.len(),
                            ids.peek() == id_after(start, i as nat),
                            forall|j: int| i <= j < segs0.len() ==> var.segments@[j] == segs0[j],
                            forall|j: int| 0 <= j < i ==> var.segments@[j] == segment_with_id(segs0[j], Some(id_after(start, j as nat))),
                        decreases segs0.len() - i,
                    {
                        var.segments[i].add_new_id(ids);
                        i = i + 1;
                    }
                    assert(var.segments@ =~= with_ids(segs0, start));
                    proof {
                        lemma_id_after_add(first, segments_before(vars0, v as int), segs0.len());
                    }
                    self.variations.set(v, Some(var));
                },
            }
            v = v + 1;
        }
    }

    /// Removes the identifier of every segment.
    pub fn strip_segment_ids(&mut self)
        ensures
            final(self).name == old(self).name,
            final(self).drums == old(self).drums,
            final(self).instruments == old(self).instruments,
            final(self).track_lists == old(self).track_lists,
            final(self).unknowns == old(self).unknowns,
            final(self).variations@.len() == old(self).variations@.len(),
            forall|v: int|
                0 <= v < old(self).variations@.len() ==> match #[trigger] old(self).variations@[v] {
                    None => final(self).variations@[v] is None,
                    Some(var) => final(self).variations@[v] matches Some(var2) && var2.segments@ == var.segments@.map_values(
                        |s: Segment| segment_with_id(s, None),
                    ),
                },
    {
        let ghost vars0 = self.variations@;
        let mut v: usize = 0;
        while v < self.variations.len()
            invariant
                v <= self.variations@.len(),
                self.variations@.len() == vars0.len(),
                vars0 == old(self).variations@,
                self.name == old(self).name,
                self.drums == old(self).drums,
                self.instruments == old(self).instruments,
                self.track_lists == old(self).track_lists,
                self.unknowns == old(self).unknowns,
                forall|w: int| v <= w < vars0.len() ==> self.variations@[w] == vars0[w],
                forall|w: int|
                    0 <= w < v ==> match #[trigger] vars0[w] {
                        None => self.variations@[w] is None,
                        Some(var) => self.variations@[w] matches Some(var2) && var2.segments@ == var.segments@.map_values(
                            |s: Segment| segment_with_id(s, None),
                        ),
                    },
            decreases vars0.len() - v,
        {
            let mut slot: Option<Variation> = None;
            core::mem::swap(&mut slot, &mut self.variations[v]);
            match slot {
                None => {},
                Some(mut var) => {
                    let ghost segs0 = var.segments@;
                    let mut i: usize = 0;
                    while i < var.segments.len()
                        invariant
                            i <= var.segments@.len(),
                            var.segments@.len() == segs0.len(),
                            forall|j: int| i <= j < segs0.len() ==> var.segments@[j] == segs0[j],
                            forall|j: int| 0 <= j < i ==> var.segments@[j] == segment_with_id(segs0[j], None),
                        decreases segs0.len() - i,
                    {
                        var.segments[i].strip_id();
                        i = i + 1;
                    }
                    assert(var.segments@ =~= segs0.map_values(|s: Segment| segment_with_id(s, None)));
                    self.variations.set(v, Some(var));
                },
            }
            v = v + 1;
        }
    }
}

} // verus!
