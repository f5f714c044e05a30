use synthesizer_io::midi::{ControlMap, CtrlRange, Midi, MidiAction, NoteEvent};

fn synth_midi() -> Midi {
    Midi::new(ControlMap {
        cutoff: 3,
        reso: 4,
        attack: 6,
        decay: 7,
        sustain: 8,
        release: 9,
        ext: 12,
        note_receivers: vec![1, 10],
    })
}

#[test]
fn controllers_set_parameters() {
    let mut m = synth_midi();
    let acts = m.dispatch_midi(&[0xb0, 1, 64, 0xb0, 2, 127, 0xb0, 7, 0]);
    assert_eq!(
        acts,
        vec![
            MidiAction::SetCtrl { node: 3, value: 64, range: CtrlRange::Cutoff },
            MidiAction::SetCtrl { node: 4, value: 127, range: CtrlRange::Resonance },
            MidiAction::SetCtrl { node: 8, value: 0, range: CtrlRange::Sustain },
        ]
    );
    let acts = m.dispatch_midi(&[0xb0, 5, 1, 0xb0, 6, 2, 0xb0, 8, 3, 0xb0, 9, 4]);
    assert_eq!(
        acts,
        vec![
            MidiAction::SetCtrl { node: 6, value: 1, range: CtrlRange::Rate },
            MidiAction::SetCtrl { node: 7, value: 2, range: CtrlRange::Rate },
            MidiAction::SetCtrl { node: 9, value: 3, range: CtrlRange::Rate },
            MidiAction::UnknownController(9),
        ]
    );
}

#[test]
fn note_off_only_for_sounding_note() {
    let mut m = synth_midi();
    let acts = m.dispatch_midi(&[0x90, 60, 100]);
    assert_eq!(acts, vec![MidiAction::Note { midi_num: 60, velocity: 100, on: true }]);
    assert_eq!(m.cur_note(), Some(60));
    assert!(m.dispatch_midi(&[0x80, 62, 0]).is_empty());
    assert_eq!(m.cur_note(), Some(60));
    let acts = m.dispatch_midi(&[0x90, 60, 0]);
    assert_eq!(acts, vec![MidiAction::Note { midi_num: 60, velocity: 0, on: false }]);
    assert_eq!(m.cur_note(), None);
}

#[test]
fn decoding_stops_at_unknown_or_short_message() {
    let mut m = synth_midi();
    let acts = m.dispatch_midi(&[0x90, 64, 90, 0xf8, 0x90, 65, 90]);
    assert_eq!(acts, vec![MidiAction::Note { midi_num: 64, velocity: 90, on: true }]);
    let acts = m.dispatch_midi(&[0xb0, 1]);
    assert!(acts.is_empty());
    assert_eq!(m.control_map().note_receivers, vec![1, 10]);
}

#[test]
fn note_events_from_keyboard() {
    let mut m = synth_midi();
    let acts = m.dispatch_note_event(&NoteEvent { down: true, note: 69, velocity: 100 });
    assert_eq!(acts, vec![MidiAction::Note { midi_num: 69, velocity: 100, on: true }]);
    let acts = m.dispatch_note_event(&NoteEvent { down: false, note: 69, velocity: 100 });
    assert_eq!(acts, vec![MidiAction::Note { midi_num: 69, velocity: 100, on: false }]);
    assert_eq!(m.cur_note(), None);
}
