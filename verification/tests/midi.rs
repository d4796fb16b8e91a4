use constraint_hamiltonian::midi::{
    export_midi, sort_events_by_time, trajectory_note_events, MidiEvent, MidiExportError, NotePoint,
};
use constraint_hamiltonian::vlq::write_variable_length;

fn ev(time_ticks: u32, pitch: u8, velocity: u8, channel: u8) -> MidiEvent {
    MidiEvent { time_ticks, pitch, velocity, channel }
}

/// The events of a two-point trajectory: q=0,p=1 at t=0 and q=1,p=0 at
/// t=0.01 (tick 5), one degree of freedom.
fn simple_events() -> Vec<MidiEvent> {
    vec![ev(0, 60, 96, 0), ev(5, 72, 64, 0)]
}

#[test]
fn test_variable_length_encoding() {
    let mut data = Vec::new();
    write_variable_length(&mut data, 0);
    assert_eq!(data, vec![0x00]);

    data.clear();
    write_variable_length(&mut data, 127);
    assert_eq!(data, vec![0x7F]);

    data.clear();
    write_variable_length(&mut data, 128);
    assert_eq!(data, vec![0x81, 0x00]);
}

#[test]
fn test_variable_length_larger_values() {
    let mut data = vec![0xAA];
    write_variable_length(&mut data, 0x3FFF);
    assert_eq!(data, vec![0xAA, 0xFF, 0x7F]);

    data.clear();
    write_variable_length(&mut data, 0x4000);
    assert_eq!(data, vec![0x81, 0x80, 0x00]);

    data.clear();
    write_variable_length(&mut data, 500_000);
    assert_eq!(data, vec![0x9E, 0xC2, 0x20]);

    data.clear();
    write_variable_length(&mut data, u32::MAX);
    assert_eq!(data, vec![0x8F, 0xFF, 0xFF, 0xFF, 0x7F]);
}

#[test]
fn test_variable_length_reads_back() {
    for &v in &[0u32, 1, 127, 128, 300, 16_383, 16_384, 2_097_151, 2_097_152, u32::MAX] {
        let mut data = Vec::new();
        write_variable_length(&mut data, v);
        data.push(0x55);
        let mut value: u64 = 0;
        let mut used = 0;
        for &b in &data {
            value = value * 128 + u64::from(b & 0x7F);
            used += 1;
            if b & 0x80 == 0 {
                break;
            }
        }
        assert_eq!(value, u64::from(v));
        assert_eq!(used, data.len() - 1);
        assert!(used >= 1 && used <= 5);
    }
}

#[test]
fn test_export_midi_valid_header() {
    let data = export_midi(&simple_events()).unwrap();
    // Check MIDI header
    assert_eq!(&data[0..4], b"MThd");
    assert_eq!(&data[8..10], &[0x00, 0x00]); // format 0
    assert_eq!(&data[10..12], &[0x00, 0x01]); // 1 track
    // Check track header
    assert_eq!(&data[14..18], b"MTrk");
}

#[test]
fn test_export_midi_empty_error() {
    let events: Vec<MidiEvent> = vec![];
    assert!(export_midi(&events).is_err());
    assert_eq!(export_midi(&events), Err(MidiExportError::NoEvents));
}

#[test]
fn test_export_midi_exact_bytes() {
    let data = export_midi(&simple_events()).unwrap();
    let mut expected: Vec<u8> = Vec::new();
    expected.extend_from_slice(b"MThd");
    expected.extend_from_slice(&[0, 0, 0, 6, 0, 0, 0, 1, 0x01, 0xE0]);
    expected.extend_from_slice(b"MTrk");
    expected.extend_from_slice(&[0, 0, 0, 27]);
    expected.extend_from_slice(&[0x00, 0xFF, 0x51, 0x03, 0x07, 0xA1, 0x20]);
    expected.extend_from_slice(&[0x00, 0x90, 60, 96, 0x78, 0x80, 60, 0x00]);
    expected.extend_from_slice(&[0x05, 0x90, 72, 64, 0x78, 0x80, 72, 0x00]);
    expected.extend_from_slice(&[0x00, 0xFF, 0x2F, 0x00]);
    assert_eq!(data, expected);
}

#[test]
fn test_export_midi_sorts_and_groups_chords() {
    // Given out of order; the two events at tick 0 form one chord in the
    // order given, masked to 4-bit channels and 7-bit data.
    let events = vec![ev(10, 64, 80, 1), ev(0, 60, 200, 17), ev(0, 200, 70, 2)];
    let data = export_midi(&events).unwrap();
    let track = &data[22..];
    assert_eq!(&data[18..22], &[0, 0, 0, (track.len()) as u8]);
    let expected: Vec<u8> = vec![
        0x00, 0xFF, 0x51, 0x03, 0x07, 0xA1, 0x20, //
        0x00, 0x91, 60, 72, 0x92, 72, 70, 0x78, 0x81, 60, 0x00, 0x82, 72, 0x00, //
        0x0A, 0x91, 64, 80, 0x78, 0x81, 64, 0x00, //
        0x00, 0xFF, 0x2F, 0x00,
    ];
    assert_eq!(track, &expected[..]);
}

#[test]
fn test_export_midi_first_chord_is_at_tick_zero() {
    // The first chord is labelled tick 0: an earliest event after tick 0
    // stands alone, and the next chord's delta counts from tick 0.
    let events = vec![ev(5, 60, 64, 0), ev(5, 62, 64, 0), ev(7, 64, 64, 0)];
    let data = export_midi(&events).unwrap();
    let expected: Vec<u8> = vec![
        0x00, 0xFF, 0x51, 0x03, 0x07, 0xA1, 0x20, //
        0x00, 0x90, 60, 64, 0x78, 0x80, 60, 0x00, //
        0x05, 0x90, 62, 64, 0x78, 0x80, 62, 0x00, //
        0x02, 0x90, 64, 64, 0x78, 0x80, 64, 0x00, //
        0x00, 0xFF, 0x2F, 0x00,
    ];
    assert_eq!(&data[22..], &expected[..]);
}

#[test]
fn test_export_midi_long_delta() {
    let events = vec![ev(0, 60, 64, 0), ev(1000, 61, 64, 0)];
    let data = export_midi(&events).unwrap();
    // 1000 = 7 * 128 + 104
    assert_eq!(&data[37..41], &[0x87, 0x68, 0x90, 61]);
}

#[test]
fn test_sort_events_is_stable() {
    let events = vec![ev(3, 1, 0, 0), ev(1, 2, 0, 0), ev(3, 3, 0, 0), ev(0, 4, 0, 0), ev(1, 5, 0, 0)];
    let sorted = sort_events_by_time(&events);
    let pitches: Vec<u8> = sorted.iter().map(|e| e.pitch).collect();
    assert_eq!(pitches, vec![4, 2, 5, 1, 3]);
}

#[test]
fn test_event_for_dof_channel() {
    let e = MidiEvent::for_dof(12, 60, 64, 17);
    assert_eq!(e, ev(12, 60, 64, 1));
    assert_eq!(MidiEvent::for_dof(0, 1, 2, 15).channel, 15);
    assert_eq!(MidiEvent::for_dof(0, 1, 2, 16).channel, 0);
}

#[test]
fn test_phase_to_midi() {
    // q=0,p=1 at t=0 and q=1,p=0 at t=0.01, mapped to notes.
    let points = vec![
        NotePoint { time_ticks: 0, notes: vec![(60, 96)] },
        NotePoint { time_ticks: 5, notes: vec![(72, 64)] },
    ];
    let events = trajectory_note_events(&points);
    assert_eq!(events.len(), 2); // 2 time points × 1 DOF
    assert_eq!(events[0].pitch, 60);
    assert_eq!(events, simple_events());
}

#[test]
fn test_trajectory_events_channels() {
    let notes: Vec<(u8, u8)> = (0..18u8).map(|i| (40 + i, 100 - i)).collect();
    let points = vec![
        NotePoint { time_ticks: 3, notes: notes.clone() },
        NotePoint { time_ticks: 0, notes: vec![] },
        NotePoint { time_ticks: 9, notes: vec![(1, 2)] },
    ];
    let events = trajectory_note_events(&points);
    assert_eq!(events.len(), 19);
    assert_eq!(events[0], ev(3, 40, 100, 0));
    assert_eq!(events[15], ev(3, 55, 85, 15));
    assert_eq!(events[16], ev(3, 56, 84, 0));
    assert_eq!(events[17], ev(3, 57, 83, 1));
    assert_eq!(events[18], ev(9, 1, 2, 0));
}

#[test]
fn test_export_midi_one_note_on_and_off_per_event() {
    let events = vec![
        ev(4, 64, 80, 1),
        ev(0, 60, 90, 0),
        ev(4, 67, 70, 2),
        ev(0, 62, 50, 3),
        ev(9, 71, 60, 4),
    ];
    let data = export_midi(&events).unwrap();
    let declared = u32::from_be_bytes([data[18], data[19], data[20], data[21]]) as usize;
    assert_eq!(declared, data.len() - 22);
    assert_eq!(&data[22..29], &[0x00, 0xFF, 0x51, 0x03, 0x07, 0xA1, 0x20]);
    assert!(data.ends_with(&[0x00, 0xFF, 0x2F, 0x00]));

    // Walk the chords (all deltas here fit in one byte).
    let track = &data[29..data.len() - 4];
    let mut ons = Vec::new();
    let mut offs = Vec::new();
    let mut i = 0;
    while i < track.len() {
        assert!(track[i] < 0x80);
        i += 1;
        while track[i] & 0xF0 == 0x90 {
            ons.push((track[i] & 0x0F, track[i + 1], track[i + 2]));
            i += 3;
        }
        assert_eq!(track[i], 0x78);
        i += 1;
        while i < track.len() && track[i] & 0xF0 == 0x80 {
            assert_eq!(track[i + 2], 0);
            offs.push((track[i] & 0x0F, track[i + 1]));
            i += 3;
        }
    }
    let sorted = sort_events_by_time(&events);
    let expected_ons: Vec<(u8, u8, u8)> = sorted.iter().map(|e| (e.channel, e.pitch, e.velocity)).collect();
    let expected_offs: Vec<(u8, u8)> = sorted.iter().map(|e| (e.channel, e.pitch)).collect();
    assert_eq!(ons, expected_ons);
    assert_eq!(offs, expected_offs);
    assert_eq!(ons.len(), events.len());
}
