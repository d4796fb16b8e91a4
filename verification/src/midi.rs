//! Standard MIDI File (format 0) export of note events.
//!
//! Events are put in time order (stably: events at the same tick keep the
//! order in which they were given), gathered into chords, and each chord is
//! written as its note-ons followed, a fixed duration later, by its note-offs.
use vstd::prelude::*;
use crate::vlq::{vlq_bytes, write_variable_length};

verus! {

/// A single MIDI note event.
#[derive(Debug, Clone, Copy, PartialEq, Eq, Structural)]
pub struct MidiEvent {
    pub time_ticks: u32,
    pub pitch: u8,
    pub velocity: u8,
    pub channel: u8,
}

/// Why a MIDI file could not be written.
#[derive(Debug, Clone, Copy, PartialEq, Eq, Structural)]
pub enum MidiExportError {
    /// There was no event to write.
    NoEvents,
}

/// Number of MIDI channels; degree of freedom `i` plays on channel `i mod 16`.
pub const MIDI_CHANNELS: usize = 16;

/// How long, in ticks, each note sounds before its note-off.
pub const NOTE_DURATION_TICKS: u32 = 120;

impl MidiEvent {
    /// The event for degree of freedom `dof`: its channel is `dof mod 16`.
    pub fn for_dof(time_ticks: u32, pitch: u8, velocity: u8, dof: usize) -> (e: MidiEvent)
        ensures
            e.time_ticks == time_ticks,
            e.pitch == pitch,
            e.velocity == velocity,
            e.channel == dof % 16,
    {
        MidiEvent { time_ticks, pitch, velocity, channel: (dof % MIDI_CHANNELS) as u8 }
    }
}

/// One recorded point of a trajectory, already mapped to notes: its tick,
/// and for each degree of freedom in order a (pitch, velocity) pair.
pub struct NotePoint {
    pub time_ticks: u32,
    pub notes: Vec<(u8, u8)>,
}

/// The events of one point: degree of freedom `i` plays its pitch and
/// velocity at the point's tick on channel `i mod 16`.
pub open spec fn point_events(time_ticks: u32, notes: Seq<(u8, u8)>) -> Seq<MidiEvent> {
    Seq::new(
        notes.len(),
        |i: int|
            MidiEvent {
                time_ticks,
                pitch: notes[i].0,
                velocity: notes[i].1,
                channel: (i % 16) as u8,
            },
    )
}

/// The events of a trajectory: the events of each point, point after point.
pub open spec fn trajectory_events(points: Seq<NotePoint>) -> Seq<MidiEvent>
    decreases points.len(),
{
    if points.len() == 0 {
        Seq::empty()
    } else {
        trajectory_events(points.drop_last()) + point_events(
            points.last().time_ticks,
            points.last().notes@,
        )
    }
}

/// How many notes the points before point `j` carry.
pub open spec fn notes_before(points: Seq<NotePoint>, j: int) -> nat
    decreases j,
{
    if j <= 0 {
        0
    } else {
        notes_before(points, j - 1) + points[j - 1].notes@.len()
    }
}

proof fn lemma_notes_before_prefix(points: Seq<NotePoint>, d: Seq<NotePoint>, j: int)
    requires
        0 <= j <= d.len() <= points.len(),
        forall|m: int| 0 <= m < d.len() ==> #[trigger] d[m] == points[m],
    ensures
        notes_before(points, j) == notes_before(d, j),
    decreases j,
{
    if j > 0 {
        lemma_notes_before_prefix(points, d, j - 1);
    }
}

/// One event per note of every point, point after point, whatever the
/// points' ticks: there are as many events as notes in all, and note `i` of
/// point `j` becomes the event right after the notes of the earlier points,
/// at the point's tick, with the note's pitch and velocity, on channel
/// `i mod 16`.
pub proof fn lemma_trajectory_events(points: Seq<NotePoint>)
    ensures
        trajectory_events(points).len() == notes_before(points, points.len() as int),
        forall|j: int|
            0 <= j < points.len() ==> #[trigger] notes_before(points, j) + points[j].notes@.len()
                <= trajectory_events(points).len(),
        forall|j: int, i: int|
            #![trigger points[j].notes@[i]]
            0 <= j < points.len() && 0 <= i < points[j].notes@.len() ==> trajectory_events(
                points,
            )[notes_before(points, j) + i] == (MidiEvent {
                time_ticks: points[j].time_ticks,
                pitch: points[j].notes@[i].0,
                velocity: points[j].notes@[i].1,
                channel: (i % 16) as u8,
            }),
    decreases points.len(),
{
    if points.len() > 0 {
        let d = points.drop_last();
        let n = points.len() - 1;
        lemma_trajectory_events(d);
        let td = trajectory_events(d);
        let pe = point_events(points.last().time_ticks, points.last().notes@);
        assert(trajectory_events(points) == td + pe);
        assert forall|j: int| 0 <= j <= n implies #[trigger] notes_before(points, j)
            == notes_before(d, j) by {
            lemma_notes_before_prefix(points, d, j);
        }
        assert(notes_before(points, n) == td.len());
        assert forall|j: int|
            0 <= j < points.len() implies #[trigger] notes_before(points, j)
            + points[j].notes@.len() <= trajectory_events(points).len() by {
            if j < n {
                assert(d[j] == points[j]);
                assert(notes_before(d, j) + d[j].notes@.len() <= td.len());
            }
        }
        assert forall|j: int, i: int|
            #![trigger points[j].notes@[i]]
            0 <= j < points.len() && 0 <= i < points[j].notes@.len() implies trajectory_events(
                points,
            )[notes_before(points, j) + i] == (MidiEvent {
                time_ticks: points[j].time_ticks,
                pitch: points[j].notes@[i].0,
                velocity: points[j].notes@[i].1,
                channel: (i % 16) as u8,
            }) by {
            if j < n {
                assert(d[j] == points[j]);
                assert(d[j].notes@[i] == points[j].notes@[i]);
                assert(notes_before(d, j) + d[j].notes@.len() <= td.len());
                assert(td[notes_before(d, j) + i] == (MidiEvent {
                    time_ticks: d[j].time_ticks,
                    pitch: d[j].notes@[i].0,
                    velocity: d[j].notes@[i].1,
                    channel: (i % 16) as u8,
                }));
            } else {
                assert(j == n);
                assert(points[j] == points.last());
                assert((td + pe)[td.len() + i] == pe[i]);
            }
        }
    }
}

/// The note events of a trajectory: for each point in order, one event per
/// degree of freedom in order.
pub fn trajectory_note_events(points: &[NotePoint]) -> (events: Vec<MidiEvent>)
    ensures
        events@ == trajectory_events(points@),
        events@.len() == notes_before(points@, points@.len() as int),
        forall|j: int, i: int|
            #![trigger points@[j].notes@[i]]
            0 <= j < points@.len() && 0 <= i < points@[j].notes@.len() ==> events@[notes_before(
                points@,
                j,
            ) + i] == (MidiEvent {
                time_ticks: points@[j].time_ticks,
                pitch: points@[j].notes@[i].0,
                velocity: points@[j].notes@[i].1,
                channel: (i % 16) as u8,
            }),
{
    let mut events: Vec<MidiEvent> = Vec::new();
    let mut j: usize = 0;
    while j < points.len()
        invariant
            j <= points@.len(),
            events@ == trajectory_events(points@.take(j as int)),
        decreases points@.len() - j,
    {
        let point = &points[j];
        let ghost before = events@;
        let ghost pe = point_events(point.time_ticks, point.notes@);
        let mut i: usize = 0;
        while i < point.notes.len()
            invariant
                i <= point.notes@.len(),
                pe == point_events(point.time_ticks, point.notes@),
                events@ == before + pe.take(i as int),
            decreases point.notes@.len() - i,
        {
            let (pitch, velocity) = point.notes[i];
            events.push(MidiEvent::for_dof(point.time_ticks, pitch, velocity, i));
            assert(pe.take(i + 1) =~= pe.take(i as int).push(pe[i as int]));
            i = i + 1;
        }
        assert(pe.take(point.notes@.len() as int) =~= pe);
        assert(points@.take(j + 1).drop_last() =~= points@.take(j as int));
        j = j + 1;
    }
    assert(points@.take(points@.len() as int) =~= points@);
    proof {
        lemma_trajectory_events(points@);
    }
    events
}

// ---------------------------------------------------------------------------
// Stable ordering by time
// ---------------------------------------------------------------------------

/// `s` with `e` placed after every element whose time is not later than
/// `e`'s, scanning from the back.
pub open spec fn insert_by_time(s: Seq<MidiEvent>, e: MidiEvent) -> Seq<MidiEvent>
    decreases s.len(),
{
    if s.len() == 0 {
        seq![e]
    } else if s.last().time_ticks <= e.time_ticks {
        s.push(e)
    } else {
        insert_by_time(s.drop_last(), e).push(s.last())
    }
}

/// The events in order of time; events at the same tick keep their order.
pub open spec fn sort_by_time(s: Seq<MidiEvent>) -> Seq<MidiEvent>
    decreases s.len(),
{
    if s.len() == 0 {
        s
    } else {
        insert_by_time(sort_by_time(s.drop_last()), s.last())
    }
}

/// Times never decrease along `s`.
pub open spec fn sorted_by_time(s: Seq<MidiEvent>) -> bool {
    forall|i: int, j: int| 0 <= i <= j < s.len() ==> s[i].time_ticks <= s[j].time_ticks
}

/// The predicate "happens at tick `t`".
pub open spec fn at_time(t: u32) -> spec_fn(MidiEvent) -> bool {
    |e: MidiEvent| e.time_ticks == t
}

proof fn lemma_insert_by_time_at(s: Seq<MidiEvent>, e: MidiEvent, p: int)
    requires
        0 <= p <= s.len(),
        forall|m: int| p <= m < s.len() ==> #[trigger] s[m].time_ticks > e.time_ticks,
        p == 0 || s[p - 1].time_ticks <= e.time_ticks,
    ensures
        insert_by_time(s, e) == s.insert(p, e),
    decreases s.len(),
{
    if s.len() == 0 {
        assert(s.insert(p, e) =~= seq![e]);
    } else if s.last().time_ticks <= e.time_ticks {
        assert(s.insert(p, e) =~= s.push(e));
    } else {
        let d = s.drop_last();
        assert(p < s.len());
        lemma_insert_by_time_at(d, e, p);
        assert(s.insert(p, e) =~= d.insert(p, e).push(s.last()));
    }
}

proof fn lemma_insert_by_time_multiset(s: Seq<MidiEvent>, e: MidiEvent)
    ensures
        insert_by_time(s, e).to_multiset() == s.to_multiset().insert(e),
    decreases s.len(),
{
    broadcast use vstd::seq_lib::to_multiset_build;
    broadcast use vstd::multiset::group_multiset_axioms;

    if s.len() == 0 {
        assert(seq![e] =~= s.push(e));
    } else if s.last().time_ticks <= e.time_ticks {
    } else {
        let d = s.drop_last();
        lemma_insert_by_time_multiset(d, e);
        assert(d.push(s.last()) =~= s);
        assert(insert_by_time(s, e).to_multiset() =~= s.to_multiset().insert(e));
    }
}

proof fn lemma_insert_by_time_filter(s: Seq<MidiEvent>, e: MidiEvent, t: u32)
    ensures
        insert_by_time(s, e).filter(at_time(t)) == if e.time_ticks == t {
            s.filter(at_time(t)).push(e)
        } else {
            s.filter(at_time(t))
        },
    decreases s.len(),
{
    broadcast use Seq::lemma_filter_push;

    if s.len() == 0 {
        assert(seq![e] =~= s.push(e));
    } else if s.last().time_ticks <= e.time_ticks {
    } else {
        let d = s.drop_last();
        lemma_insert_by_time_filter(d, e, t);
        assert(d.push(s.last()) =~= s);
    }
}

proof fn lemma_insert_by_time_sorted(s: Seq<MidiEvent>, e: MidiEvent)
    requires
        sorted_by_time(s),
    ensures
        sorted_by_time(insert_by_time(s, e)),
    decreases s.len(),
{
    broadcast use Seq::to_multiset_ensures;
    broadcast use vstd::multiset::group_multiset_axioms;

    if s.len() == 0 {
    } else if s.last().time_ticks <= e.time_ticks {
    } else {
        let d = s.drop_last();
        let r = insert_by_time(d, e);
        lemma_insert_by_time_sorted(d, e);
        lemma_insert_by_time_multiset(d, e);
        r.to_multiset_ensures();
        d.to_multiset_ensures();
        assert forall|i: int| 0 <= i < r.len() implies #[trigger] r[i].time_ticks
            <= s.last().time_ticks by {
            assert(r.contains(r[i]));
            assert(r.to_multiset().count(r[i]) > 0);
            if r[i] != e {
                assert(d.to_multiset().count(r[i]) > 0);
                assert(d.contains(r[i]));
                let j = choose|j: int| 0 <= j < d.len() && d[j] == r[i];
                assert(s[j] == d[j]);
            }
        }
    }
}

/// Ordering by time is a stable sort: the result is in time order, holds
/// the same events as many times each, and the events at any one tick come
/// in the order in which they were given.
pub proof fn lemma_sort_by_time(s: Seq<MidiEvent>)
    ensures
        sorted_by_time(sort_by_time(s)),
        sort_by_time(s).to_multiset() == s.to_multiset(),
        forall|t: u32| #[trigger] sort_by_time(s).filter(at_time(t)) == s.filter(at_time(t)),
    decreases s.len(),
{
    broadcast use vstd::seq_lib::to_multiset_build;
    broadcast use Seq::lemma_filter_push;

    if s.len() == 0 {
    } else {
        let d = s.drop_last();
        lemma_sort_by_time(d);
        lemma_insert_by_time_sorted(sort_by_time(d), s.last());
        lemma_insert_by_time_multiset(sort_by_time(d), s.last());
        assert(d.push(s.last()) =~= s);
        assert forall|t: u32| #[trigger] sort_by_time(s).filter(at_time(t)) == s.filter(
            at_time(t),
        ) by {
            lemma_insert_by_time_filter(sort_by_time(d), s.last(), t);
        }
    }
}

/// The events in time order; events at the same tick keep the order in which
/// they were given.
pub fn sort_events_by_time(events: &[MidiEvent]) -> (sorted: Vec<MidiEvent>)
    ensures
        sorted@ == sort_by_time(events@),
{
    let mut sorted: Vec<MidiEvent> = Vec::new();
    let mut idx: usize = 0;
    while idx < events.len()
        invariant
            idx <= events@.len(),
            sorted@ == sort_by_time(events@.take(idx as int)),
        decreases events@.len() - idx,
    {
        let e = events[idx];
        let mut p: usize = sorted.len();
        while p > 0 && sorted[p - 1].time_ticks > e.time_ticks
            invariant
                p <= sorted@.len(),
                forall|m: int| p <= m < sorted@.len() ==> #[trigger] sorted@[m].time_ticks
                    > e.time_ticks,
            decreases p,
        {
            p = p - 1;
        }
        proof {
            lemma_insert_by_time_at(sorted@, e, p as int);
            assert(events@.take(idx + 1).drop_last() =~= events@.take(idx as int));
        }
        sorted.insert(p, e);
        idx = idx + 1;
    }
    assert(events@.take(events@.len() as int) =~= events@);
    sorted
}

// ---------------------------------------------------------------------------
// Track layout
// ---------------------------------------------------------------------------

/// How many events at the front of `s` happen at tick `t`.
pub open spec fn same_time_run(s: Seq<MidiEvent>, t: u32) -> nat
    decreases s.len(),
{
    if s.len() == 0 || s[0].time_ticks != t {
        0
    } else {
        1 + same_time_run(s.drop_first(), t)
    }
}

/// Ticks from `last` to `time`, or zero when `time` is earlier.
pub open spec fn tick_delta(time: u32, last: u32) -> nat {
    if time >= last {
        (time - last) as nat
    } else {
        0
    }
}

/// The note-on message of `e`: status 0x90 with the channel's low four bits,
/// then pitch and velocity with their low seven bits.
pub open spec fn note_on(e: MidiEvent) -> Seq<u8> {
    seq![0x90u8 | (e.channel & 0x0Fu8), e.pitch & 0x7Fu8, e.velocity & 0x7Fu8]
}

/// The note-off message of `e`: status 0x80 with the channel's low four bits,
/// then the pitch's low seven bits and a zero velocity.
pub open spec fn note_off(e: MidiEvent) -> Seq<u8> {
    seq![0x80u8 | (e.channel & 0x0Fu8), e.pitch & 0x7Fu8, 0x00u8]
}

/// The note-on messages of a chord, in order.
pub open spec fn note_ons(c: Seq<MidiEvent>) -> Seq<u8>
    decreases c.len(),
{
    if c.len() == 0 {
        Seq::empty()
    } else {
        note_ons(c.drop_last()) + note_on(c.last())
    }
}

/// The note-off messages of a chord, in order.
pub open spec fn note_offs(c: Seq<MidiEvent>) -> Seq<u8>
    decreases c.len(),
{
    if c.len() == 0 {
        Seq::empty()
    } else {
        note_offs(c.drop_last()) + note_off(c.last())
    }
}

/// A chord `delta` ticks after the previous one: its note-ons, then, the note
/// duration later, its note-offs.
pub open spec fn chord_bytes(c: Seq<MidiEvent>, delta: nat) -> Seq<u8> {
    vlq_bytes(delta) + note_ons(c) + vlq_bytes(NOTE_DURATION_TICKS as nat) + note_offs(c)
}

/// The chords of the time-ordered events `s`. The current chord is labelled
/// `label`; the previous chord was labelled `last`. A chord takes its first
/// event and then every following event at tick `label`; the next chord is
/// labelled with the tick of its own first event. The very first chord is
/// labelled 0, so when the earliest event is later than tick 0 it forms a
/// chord of its own.
pub open spec fn track_chords(s: Seq<MidiEvent>, label: u32, last: u32) -> Seq<u8>
    decreases s.len(),
{
    if s.len() == 0 {
        Seq::empty()
    } else {
        let k = 1 + same_time_run(s.drop_first(), label);
        chord_bytes(s.take(k as int), tick_delta(label, last)) + if k < s.len() {
            track_chords(s.skip(k as int), s[k as int].time_ticks, label)
        } else {
            Seq::empty()
        }
    }
}

/// Tempo meta event at delta 0: 500000 microseconds per beat (120 BPM).
pub open spec fn tempo_event() -> Seq<u8> {
    seq![0x00u8, 0xFFu8, 0x51u8, 0x03u8, 0x07u8, 0xA1u8, 0x20u8]
}

/// End-of-track meta event at delta 0.
pub open spec fn end_of_track() -> Seq<u8> {
    seq![0x00u8, 0xFFu8, 0x2Fu8, 0x00u8]
}

/// The track data for `events`.
pub open spec fn track_bytes(events: Seq<MidiEvent>) -> Seq<u8> {
    tempo_event() + track_chords(sort_by_time(events), 0, 0) + end_of_track()
}

/// "MThd", header length 6, format 0, one track, 480 ticks per beat.
pub open spec fn header_chunk() -> Seq<u8> {
    seq![
        0x4Du8, 0x54u8, 0x68u8, 0x64u8,
        0x00u8, 0x00u8, 0x00u8, 0x06u8,
        0x00u8, 0x00u8,
        0x00u8, 0x01u8,
        0x01u8, 0xE0u8,
    ]
}

/// "MTrk".
pub open spec fn track_tag() -> Seq<u8> {
    seq![0x4Du8, 0x54u8, 0x72u8, 0x6Bu8]
}

/// The four big-endian bytes of `x`.
pub open spec fn be32(x: u32) -> Seq<u8> {
    seq![(x >> 24u32) as u8, (x >> 16u32) as u8, (x >> 8u32) as u8, x as u8]
}

/// The number four big-endian bytes spell.
pub open spec fn be32_value(b: Seq<u8>) -> nat {
    ((b[0] as nat * 256 + b[1] as nat) * 256 + b[2] as nat) * 256 + b[3] as nat
}

/// The Standard MIDI File for `events`: header chunk, then one track chunk
/// whose length field is the track's length taken modulo 2^32.
pub open spec fn midi_file(events: Seq<MidiEvent>) -> Seq<u8> {
    header_chunk() + track_tag() + be32(track_bytes(events).len() as u32) + track_bytes(events)
}

proof fn lemma_same_time_run_at(s: Seq<MidiEvent>, t: u32, k: nat)
    requires
        k <= s.len(),
        forall|m: int| 0 <= m < k ==> #[trigger] s[m].time_ticks == t,
        k == s.len() || s[k as int].time_ticks != t,
    ensures
        same_time_run(s, t) == k,
    decreases k,
{
    if k > 0 {
        let d = s.drop_first();
        assert forall|m: int| 0 <= m < k - 1 implies #[trigger] d[m].time_ticks == t by {
            assert(d[m] == s[m + 1]);
        }
        lemma_same_time_run_at(d, t, (k - 1) as nat);
    }
}

proof fn lemma_be32_value(x: u32)
    ensures
        be32_value(be32(x)) == x,
{
    let b0 = (x >> 24u32) as u8;
    let b1 = (x >> 16u32) as u8;
    let b2 = (x >> 8u32) as u8;
    let b3 = x as u8;
    assert((((b0 as u32) * 256 + b1 as u32) * 256 + b2 as u32) * 256 + b3 as u32 == x) by (bit_vector)
        requires
            b0 == (x >> 24u32) as u8,
            b1 == (x >> 16u32) as u8,
            b2 == (x >> 8u32) as u8,
            b3 == x as u8,
    ;
}

/// The layout of a written file: the header chunk, "MTrk", the track length,
/// then the track, which opens with the tempo event and closes with the
/// end-of-track event; when the track fits in 2^32 bytes, the length field reads
/// back as the track's true length.
pub proof fn lemma_midi_file_layout(events: Seq<MidiEvent>)
    ensures
        midi_file(events).len() == 22 + track_bytes(events).len(),
        midi_file(events).take(14) == header_chunk(),
        midi_file(events).subrange(14, 18) == track_tag(),
        midi_file(events).skip(22) == track_bytes(events),
        midi_file(events).subrange(22, 29) == tempo_event(),
        midi_file(events).skip(midi_file(events).len() - 4) == end_of_track(),
        track_bytes(events).len() <= u32::MAX ==> be32_value(midi_file(events).subrange(18, 22))
            == track_bytes(events).len(),
{
    let t = track_bytes(events);
    let x = t.len() as u32;
    let f = midi_file(events);
    assert(f == header_chunk() + track_tag() + be32(x) + t);
    assert(f.take(14) =~= header_chunk());
    assert(f.subrange(14, 18) =~= track_tag());
    assert(f.subrange(18, 22) =~= be32(x));
    assert(f.skip(22) =~= t);
    assert(f.subrange(22, 29) =~= tempo_event());
    assert(f.skip(f.len() - 4) =~= end_of_track());
    lemma_be32_value(x);
}

/// The chords of the time-ordered events `s`, as `track_chords` forms them:
/// the current chord is labelled `label`, takes its first event and every
/// following event at tick `label`; the next chord is labelled with the tick
/// of its own first event.
pub open spec fn chord_split(s: Seq<MidiEvent>, label: u32) -> Seq<Seq<MidiEvent>>
    decreases s.len(),
{
    if s.len() == 0 {
        Seq::empty()
    } else {
        let k = 1 + same_time_run(s.drop_first(), label);
        seq![s.take(k as int)] + if k < s.len() {
            chord_split(s.skip(k as int), s[k as int].time_ticks)
        } else {
            Seq::empty()
        }
    }
}

/// The chords `cs` written one after another: the first is labelled
/// `label`, the one before it was labelled `last`, and each later chord is
/// labelled with the tick of its first event.
pub open spec fn chords_track(cs: Seq<Seq<MidiEvent>>, label: u32, last: u32) -> Seq<u8>
    decreases cs.len(),
{
    if cs.len() == 0 {
        Seq::empty()
    } else {
        chord_bytes(cs[0], tick_delta(label, last)) + if cs.len() > 1 {
            chords_track(cs.drop_first(), cs[1][0].time_ticks, label)
        } else {
            Seq::empty()
        }
    }
}

/// The note-on messages of the chords `cs`, chord after chord.
pub open spec fn chords_note_ons(cs: Seq<Seq<MidiEvent>>) -> Seq<u8>
    decreases cs.len(),
{
    if cs.len() == 0 {
        Seq::empty()
    } else {
        note_ons(cs[0]) + chords_note_ons(cs.drop_first())
    }
}

/// The note-off messages of the chords `cs`, chord after chord.
pub open spec fn chords_note_offs(cs: Seq<Seq<MidiEvent>>) -> Seq<u8>
    decreases cs.len(),
{
    if cs.len() == 0 {
        Seq::empty()
    } else {
        note_offs(cs[0]) + chords_note_offs(cs.drop_first())
    }
}

proof fn lemma_same_time_run_le(s: Seq<MidiEvent>, t: u32)
    ensures
        same_time_run(s, t) <= s.len(),
    decreases s.len(),
{
    if s.len() > 0 && s[0].time_ticks == t {
        lemma_same_time_run_le(s.drop_first(), t);
    }
}

proof fn lemma_notes_append(a: Seq<MidiEvent>, b: Seq<MidiEvent>)
    ensures
        note_ons(a + b) == note_ons(a) + note_ons(b),
        note_offs(a + b) == note_offs(a) + note_offs(b),
    decreases b.len(),
{
    if b.len() == 0 {
        assert(a + b =~= a);
        assert(note_ons(a) + note_ons(b) =~= note_ons(a));
        assert(note_offs(a) + note_offs(b) =~= note_offs(a));
    } else {
        let d = b.drop_last();
        lemma_notes_append(a, d);
        assert((a + b).drop_last() =~= a + d);
        assert((a + b).last() == b.last());
        assert(note_ons(a + b) =~= note_ons(a) + note_ons(b));
        assert(note_offs(a + b) =~= note_offs(a) + note_offs(b));
    }
}

/// The note-on messages of `c` are one three-byte message per event, in
/// order; so are its note-off messages.
pub proof fn lemma_notes_per_event(c: Seq<MidiEvent>)
    ensures
        note_ons(c).len() == 3 * c.len(),
        note_offs(c).len() == 3 * c.len(),
        forall|i: int|
            0 <= i < c.len() ==> #[trigger] note_ons(c).subrange(3 * i, 3 * i + 3) == note_on(c[i]),
        forall|i: int|
            0 <= i < c.len() ==> #[trigger] note_offs(c).subrange(3 * i, 3 * i + 3) == note_off(
                c[i],
            ),
    decreases c.len(),
{
    if c.len() > 0 {
        let d = c.drop_last();
        lemma_notes_per_event(d);
        assert forall|i: int| 0 <= i < c.len() implies #[trigger] note_ons(c).subrange(
            3 * i,
            3 * i + 3,
        ) == note_on(c[i]) by {
            if i < d.len() {
                assert(note_ons(c).subrange(3 * i, 3 * i + 3) =~= note_ons(d).subrange(
                    3 * i,
                    3 * i + 3,
                ));
            } else {
                assert(note_ons(c).subrange(3 * i, 3 * i + 3) =~= note_on(c.last()));
            }
        }
        assert forall|i: int| 0 <= i < c.len() implies #[trigger] note_offs(c).subrange(
            3 * i,
            3 * i + 3,
        ) == note_off(c[i]) by {
            if i < d.len() {
                assert(note_offs(c).subrange(3 * i, 3 * i + 3) =~= note_offs(d).subrange(
                    3 * i,
                    3 * i + 3,
                ));
            } else {
                assert(note_offs(c).subrange(3 * i, 3 * i + 3) =~= note_off(c.last()));
            }
        }
    }
}

proof fn lemma_chord_split(s: Seq<MidiEvent>, label: u32, last: u32)
    ensures
        track_chords(s, label, last) == chords_track(chord_split(s, label), label, last),
        chord_split(s, label).flatten() == s,
        forall|j: int|
            0 <= j < chord_split(s, label).len() ==> #[trigger] chord_split(s, label)[j].len() > 0,
        chords_note_ons(chord_split(s, label)) == note_ons(s),
        chords_note_offs(chord_split(s, label)) == note_offs(s),
    decreases s.len(),
{
    let cs = chord_split(s, label);
    if s.len() == 0 {
        assert(note_ons(s) =~= Seq::<u8>::empty());
        assert(note_offs(s) =~= Seq::<u8>::empty());
    } else {
        let k = 1 + same_time_run(s.drop_first(), label);
        lemma_same_time_run_le(s.drop_first(), label);
        let head = s.take(k as int);
        assert(cs[0] == head);
        if k < s.len() {
            let r = s.skip(k as int);
            let l2 = s[k as int].time_ticks;
            lemma_chord_split(r, l2, label);
            let rest = chord_split(r, l2);
            assert(cs.drop_first() =~= rest);
            let k2 = 1 + same_time_run(r.drop_first(), l2);
            lemma_same_time_run_le(r.drop_first(), l2);
            assert(rest[0] == r.take(k2 as int));
            assert(cs[1] == rest[0]);
            assert(cs[1][0] == s[k as int]);
            assert(head + r =~= s);
            lemma_notes_append(head, r);
            assert forall|j: int| 0 <= j < cs.len() implies #[trigger] cs[j].len() > 0 by {
                if j > 0 {
                    assert(cs[j] == rest[j - 1]);
                }
            }
        } else {
            assert(head =~= s);
            assert(cs.drop_first() =~= Seq::<Seq<MidiEvent>>::empty());
            assert(cs.drop_first().flatten() =~= Seq::<MidiEvent>::empty());
            assert(chords_note_ons(cs.drop_first()) =~= Seq::<u8>::empty());
            assert(chords_note_offs(cs.drop_first()) =~= Seq::<u8>::empty());
            assert(cs.first() == s);
            assert(cs.flatten() =~= s);
            assert(chords_note_ons(cs) =~= note_ons(s));
            assert(chords_note_offs(cs) =~= note_offs(s));
            assert(track_chords(s, label, last) =~= chords_track(cs, label, last));
        }
    }
}

/// Every event is played exactly once. The track of a written file is the
/// tempo event, then the chords of the time-ordered events one after another,
/// then the end-of-track event; the chords, none empty, are the time-ordered
/// events cut into consecutive runs; the note-ons of the chords, taken chord
/// after chord, are one note-on per time-ordered event, and likewise the
/// note-offs; and the time-ordered events are the given events, each as
/// often as given.
pub proof fn lemma_track_plays_every_event(events: Seq<MidiEvent>)
    ensures
        ({
            let s = sort_by_time(events);
            let cs = chord_split(s, 0);
            &&& track_bytes(events) == tempo_event() + chords_track(cs, 0, 0) + end_of_track()
            &&& cs.flatten() == s
            &&& forall|j: int| 0 <= j < cs.len() ==> #[trigger] cs[j].len() > 0
            &&& chords_note_ons(cs) == note_ons(s)
            &&& chords_note_offs(cs) == note_offs(s)
            &&& note_ons(s).len() == 3 * s.len()
            &&& note_offs(s).len() == 3 * s.len()
            &&& forall|i: int|
                0 <= i < s.len() ==> #[trigger] note_ons(s).subrange(3 * i, 3 * i + 3) == note_on(
                    s[i],
                )
            &&& forall|i: int|
                0 <= i < s.len() ==> #[trigger] note_offs(s).subrange(3 * i, 3 * i + 3)
                    == note_off(s[i])
            &&& s.to_multiset() == events.to_multiset()
        }),
{
    let s = sort_by_time(events);
    lemma_chord_split(s, 0, 0);
    lemma_notes_per_event(s);
    lemma_sort_by_time(events);
}

/// The tick chord `j` of `cs` is labelled with: `label` for the first chord,
/// the tick of its own first event for every later one.
pub open spec fn chord_label(cs: Seq<Seq<MidiEvent>>, j: int, label: u32) -> u32 {
    if j == 0 {
        label
    } else {
        cs[j][0].time_ticks
    }
}

proof fn lemma_same_time_run_props(t: Seq<MidiEvent>, l: u32)
    ensures
        same_time_run(t, l) <= t.len(),
        forall|m: int| 0 <= m < same_time_run(t, l) ==> #[trigger] t[m].time_ticks == l,
        same_time_run(t, l) < t.len() ==> t[same_time_run(t, l) as int].time_ticks != l,
    decreases t.len(),
{
    if t.len() > 0 && t[0].time_ticks == l {
        let d = t.drop_first();
        lemma_same_time_run_props(d, l);
        assert forall|m: int| 0 <= m < same_time_run(t, l) implies #[trigger] t[m].time_ticks
            == l by {
            if m > 0 {
                assert(t[m] == d[m - 1]);
            }
        }
    }
}

proof fn lemma_chord_split_runs(s: Seq<MidiEvent>, label: u32)
    ensures
        forall|j: int, m: int|
            0 <= j < chord_split(s, label).len() && 0 < m < chord_split(s, label)[j].len()
                ==> #[trigger] chord_split(s, label)[j][m].time_ticks == chord_label(
                chord_split(s, label),
                j,
                label,
            ),
        forall|j: int|
            0 <= j < chord_split(s, label).len() - 1 ==> chord_split(s, label)[j + 1][0].time_ticks
                != #[trigger] chord_label(chord_split(s, label), j, label),
    decreases s.len(),
{
    let cs = chord_split(s, label);
    if s.len() > 0 {
        let t = s.drop_first();
        let k = 1 + same_time_run(t, label);
        lemma_same_time_run_props(t, label);
        let head = s.take(k as int);
        assert(cs[0] == head);
        if k < s.len() {
            let r = s.skip(k as int);
            let l2 = s[k as int].time_ticks;
            lemma_chord_split_runs(r, l2);
            let rest = chord_split(r, l2);
            assert(cs.drop_first() =~= rest);
            lemma_same_time_run_le(r.drop_first(), l2);
            assert(rest[0] == r.take(1 + same_time_run(r.drop_first(), l2) as int));
            assert(rest[0][0] == s[k as int]);
            assert(t[k - 1] == s[k as int]);
            assert forall|j: int, m: int|
                0 <= j < cs.len() && 0 < m < cs[j].len() implies #[trigger] cs[j][m].time_ticks
                == chord_label(cs, j, label) by {
                if j == 0 {
                    assert(cs[0][m] == t[m - 1]);
                } else {
                    assert(cs[j] == rest[j - 1]);
                    assert(rest[j - 1][m].time_ticks == chord_label(rest, j - 1, l2));
                }
            }
            assert forall|j: int| 0 <= j < cs.len() - 1 implies cs[j + 1][0].time_ticks
                != #[trigger] chord_label(cs, j, label) by {
                if j == 0 {
                    assert(cs[1] == rest[0]);
                } else {
                    assert(cs[j + 1] == rest[j]);
                    assert(cs[j] == rest[j - 1]);
                    assert(rest[j][0].time_ticks != chord_label(rest, j - 1, l2));
                }
            }
        } else {
            assert(cs.len() == 1);
            assert forall|j: int, m: int|
                0 <= j < cs.len() && 0 < m < cs[j].len() implies #[trigger] cs[j][m].time_ticks
                == chord_label(cs, j, label) by {
                assert(cs[0][m] == t[m - 1]);
            }
        }
    }
}

/// The bytes of the chords `cs`, each preceded by the ticks since the label
/// of the chord before it (the first: since `last`).
pub open spec fn chord_sequence_bytes(cs: Seq<Seq<MidiEvent>>, label: u32, last: u32) -> Seq<
    Seq<u8>,
> {
    Seq::new(
        cs.len(),
        |j: int|
            chord_bytes(
                cs[j],
                tick_delta(
                    chord_label(cs, j, label),
                    if j == 0 {
                        last
                    } else {
                        chord_label(cs, j - 1, label)
                    },
                ),
            ),
    )
}

proof fn lemma_chords_track_flat(cs: Seq<Seq<MidiEvent>>, label: u32, last: u32)
    ensures
        chords_track(cs, label, last) == chord_sequence_bytes(cs, label, last).flatten(),
    decreases cs.len(),
{
    let f = chord_sequence_bytes(cs, label, last);
    if cs.len() == 0 {
        assert(f =~= Seq::<Seq<u8>>::empty());
    } else if cs.len() == 1 {
        assert(f.drop_first() =~= Seq::<Seq<u8>>::empty());
        assert(f.drop_first().flatten() =~= Seq::<u8>::empty());
        assert(chords_track(cs, label, last) =~= f.flatten());
    } else {
        let c2 = cs.drop_first();
        let l2 = cs[1][0].time_ticks;
        lemma_chords_track_flat(c2, l2, label);
        let g = chord_sequence_bytes(c2, l2, label);
        assert forall|j: int| 0 <= j < g.len() implies #[trigger] g[j] == f.drop_first()[j] by {
            assert(c2[j] == cs[j + 1]);
            if j > 0 {
                assert(c2[j - 1] == cs[j]);
            }
        }
        assert(g =~= f.drop_first());
    }
}

/// The chords of a written track are the maximal runs of the time-ordered
/// events at their label tick. The track is the tempo event, then, chord
/// after chord, the ticks since the previous chord's label and the chord's
/// notes, then the end-of-track event; the chords, none empty, are the
/// time-ordered events cut into consecutive pieces; every event of a chord
/// after its first is at the chord's label tick (0 for the first chord, the
/// tick of its first event for the others); and the first event of the next
/// chord is not, so no event at a chord's label tick is left out of it.
pub proof fn lemma_track_chords_are_maximal_runs(events: Seq<MidiEvent>)
    ensures
        ({
            let s = sort_by_time(events);
            let cs = chord_split(s, 0);
            &&& track_bytes(events) == tempo_event() + chord_sequence_bytes(cs, 0, 0).flatten()
                + end_of_track()
            &&& cs.flatten() == s
            &&& forall|j: int| 0 <= j < cs.len() ==> #[trigger] cs[j].len() > 0
            &&& forall|j: int, m: int|
                0 <= j < cs.len() && 0 < m < cs[j].len() ==> #[trigger] cs[j][m].time_ticks
                    == chord_label(cs, j, 0)
            &&& forall|j: int|
                0 <= j < cs.len() - 1 ==> cs[j + 1][0].time_ticks != #[trigger] chord_label(
                    cs,
                    j,
                    0,
                )
        }),
{
    let s = sort_by_time(events);
    let cs = chord_split(s, 0);
    lemma_chord_split(s, 0, 0);
    lemma_chords_track_flat(cs, 0, 0);
    lemma_chord_split_runs(s, 0);
}

// ---------------------------------------------------------------------------
// Writing
// ---------------------------------------------------------------------------

fn push_bytes(data: &mut Vec<u8>, bytes: &Vec<u8>)
    ensures
        final(data)@ == old(data)@ + bytes@,
{
    let ghost d0 = data@;
    let mut i: usize = 0;
    while i < bytes.len()
        invariant
            i <= bytes@.len(),
            data@ == d0 + bytes@.take(i as int),
        decreases bytes@.len() - i,
    {
        data.push(bytes[i]);
        assert(bytes@.take(i + 1) =~= bytes@.take(i as int).push(bytes@[i as int]));
        i = i + 1;
    }
    assert(bytes@.take(bytes@.len() as int) =~= bytes@);
}

fn write_note_ons(track: &mut Vec<u8>, s: &Vec<MidiEvent>, start: usize, end: usize)
    requires
        start <= end <= s@.len(),
    ensures
        final(track)@ == old(track)@ + note_ons(s@.subrange(start as int, end as int)),
{
    let ghost t0 = track@;
    let mut i: usize = start;
    while i < end
        invariant
            start <= i <= end <= s@.len(),
            track@ == t0 + note_ons(s@.subrange(start as int, i as int)),
        decreases end - i,
    {
        let e = s[i];
        track.push(0x90u8 | (e.channel & 0x0Fu8));
        track.push(e.pitch & 0x7Fu8);
        track.push(e.velocity & 0x7Fu8);
        assert(s@.subrange(start as int, i + 1).drop_last() =~= s@.subrange(start as int, i as int));
        i = i + 1;
    }
}

fn write_note_offs(track: &mut Vec<u8>, s: &Vec<MidiEvent>, start: usize, end: usize)
    requires
        start <= end <= s@.len(),
    ensures
        final(track)@ == old(track)@ + note_offs(s@.subrange(start as int, end as int)),
{
    let ghost t0 = track@;
    let mut i: usize = start;
    while i < end
        invariant
            start <= i <= end <= s@.len(),
            track@ == t0 + note_offs(s@.subrange(start as int, i as int)),
        decreases end - i,
    {
        let e = s[i];
        track.push(0x80u8 | (e.channel & 0x0Fu8));
        track.push(e.pitch & 0x7Fu8);
        track.push(0x00u8);
        assert(s@.subrange(start as int, i + 1).drop_last() =~= s@.subrange(start as int, i as int));
        i = i + 1;
    }
}

fn write_chord(track: &mut Vec<u8>, s: &Vec<MidiEvent>, start: usize, end: usize, delta: u32)
    requires
        start <= end <= s@.len(),
    ensures
        final(track)@ == old(track)@ + chord_bytes(s@.subrange(start as int, end as int), delta as nat),
{
    write_variable_length(track, delta);
    write_note_ons(track, s, start, end);
    write_variable_length(track, NOTE_DURATION_TICKS);
    write_note_offs(track, s, start, end);
}

/// Append to `track` the chords of the time-ordered events `sorted`.
fn write_chords(track: &mut Vec<u8>, sorted: &Vec<MidiEvent>)
    ensures
        final(track)@ == old(track)@ + track_chords(sorted@, 0, 0),
{
    let ghost s = sorted@;
    let ghost t0 = track@;
    let n = sorted.len();
    let mut i: usize = 0;
    let mut label: u32 = 0;
    let mut last: u32 = 0;
    assert(s.skip(0) =~= s);
    while i < n
        invariant
            n == s.len(),
            s == sorted@,
            i <= n,
            t0 + track_chords(s, 0, 0) == track@ + track_chords(s.skip(i as int), label, last),
        decreases n - i,
    {
        let mut j: usize = i + 1;
        while j < n && sorted[j].time_ticks == label
            invariant
                i < j <= n,
                n == s.len(),
                s == sorted@,
                forall|m: int| i < m < j ==> #[trigger] s[m].time_ticks == label,
            decreases n - j,
        {
            j = j + 1;
        }
        let ghost r = s.skip(i as int);
        proof {
            let u = r.drop_first();
            assert forall|m: int| 0 <= m < j - i - 1 implies #[trigger] u[m].time_ticks
                == label by {
                assert(u[m] == s[i + 1 + m]);
            }
            if j < n {
                assert(u[j - i - 1] == s[j as int]);
            }
            lemma_same_time_run_at(u, label, (j - i - 1) as nat);
            assert(r.take(j - i) =~= s.subrange(i as int, j as int));
            if j < n {
                assert(r.skip(j - i) =~= s.skip(j as int));
                assert(r[j - i] == s[j as int]);
            } else {
                assert(s.skip(j as int) =~= Seq::<MidiEvent>::empty());
            }
        }
        let delta: u32 = if label >= last {
            label - last
        } else {
            0
        };
        write_chord(track, sorted, i, j, delta);
        last = label;
        i = j;
        if i < n {
            label = sorted[i].time_ticks;
        }
    }
}

/// Export MIDI events as a basic Standard MIDI File (format 0, one track,
/// 480 ticks per beat, 120 BPM). Fails exactly when there is no event.
pub fn export_midi(events: &[MidiEvent]) -> (result: Result<Vec<u8>, MidiExportError>)
    ensures
        match result {
            Ok(bytes) => events@.len() > 0 && bytes@ == midi_file(events@),
            Err(e) => events@.len() == 0 && e == MidiExportError::NoEvents,
        },
{
    if events.len() == 0 {
        return Err(MidiExportError::NoEvents);
    }
    let sorted = sort_events_by_time(events);

    let mut track_data: Vec<u8> = Vec::new();
    push_bytes(&mut track_data, &vec![0x00u8, 0xFFu8, 0x51u8, 0x03u8, 0x07u8, 0xA1u8, 0x20u8]);
    write_chords(&mut track_data, &sorted);
    push_bytes(&mut track_data, &vec![0x00u8, 0xFFu8, 0x2Fu8, 0x00u8]);

    let mut data: Vec<u8> = Vec::new();
    push_bytes(
        &mut data,
        &vec![
            0x4Du8, 0x54u8, 0x68u8, 0x64u8,
            0x00u8, 0x00u8, 0x00u8, 0x06u8,
            0x00u8, 0x00u8,
            0x00u8, 0x01u8,
            0x01u8, 0xE0u8,
        ],
    );
    push_bytes(&mut data, &vec![0x4Du8, 0x54u8, 0x72u8, 0x6Bu8]);
    let track_len = track_data.len() as u32;
    push_bytes(
        &mut data,
        &vec![(track_len >> 24u32) as u8, (track_len >> 16u32) as u8, (track_len >> 8u32) as u8, track_len as u8],
    );
    push_bytes(&mut data, &track_data);
    assert(data@ =~= midi_file(events@));
    Ok(data)
}

} // verus!
