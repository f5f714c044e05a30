//! Decoding of the MIDI input that drives the mono synth: controller changes
//! become parameter updates for the nodes of its control map, and note on/off
//! messages become note events, with a note-off honoured only for the note
//! that is sounding.

use vstd::prelude::*;

verus! {

/// A note going down or up, as a keyboard widget reports it.
#[derive(Clone, Copy, Debug, PartialEq, Eq, Structural)]
pub struct NoteEvent {
    pub down: bool,
    pub note: u8,
    pub velocity: u8,
}

/// The kind of oscillator module to instantiate.
#[derive(Clone, Copy, Debug, PartialEq, Eq, Structural)]
pub enum ModuleType {
    Sin,
    Saw,
}

/// The interval that a controller value of 0..=127 is scaled into.
#[derive(Clone, Copy, Debug, PartialEq, Eq, Structural)]
pub enum CtrlRange {
    /// Log2 of a cutoff frequency, up to 22 kHz.
    Cutoff,
    /// Filter resonance, up to just below 1.
    Resonance,
    /// Log2 of an envelope rate.
    Rate,
    /// Log2 of the sustain level.
    Sustain,
}

/// What one MIDI message asks of the engine.
#[derive(Clone, Copy, Debug, PartialEq, Eq, Structural)]
pub enum MidiAction {
    /// Set parameter 0 of `node` to `value` scaled into `range`.
    SetCtrl { node: usize, value: u8, range: CtrlRange },
    /// Send a note event to every note receiver.
    Note { midi_num: u8, velocity: u8, on: bool },
    /// A controller with no handler.
    UnknownController(u8),
}

/// The node ids of the mono synth's controls.
pub struct ControlMap {
    pub cutoff: usize,
    pub reso: usize,
    pub attack: usize,
    pub decay: usize,
    pub sustain: usize,
    pub release: usize,
    /// The node that can be replaced to inject more audio.
    pub ext: usize,
    /// The nodes that receive note events.
    pub note_receivers: Vec<usize>,
}

/// The status byte of a controller change.
pub const CONTROL_CHANGE: u8 = 0xb0;

/// The status byte of a note-on.
pub const NOTE_ON: u8 = 0x90;

/// The status byte of a note-off.
pub const NOTE_OFF: u8 = 0x80;

/// The action for controller `controller` moved to `value`.
pub open spec fn ctrl_action(map: ControlMap, controller: u8, value: u8) -> MidiAction {
    if controller == 1 {
        MidiAction::SetCtrl { node: map.cutoff, value, range: CtrlRange::Cutoff }
    } else if controller == 2 {
        MidiAction::SetCtrl { node: map.reso, value, range: CtrlRange::Resonance }
    } else if controller == 5 {
        MidiAction::SetCtrl { node: map.attack, value, range: CtrlRange::Rate }
    } else if controller == 6 {
        MidiAction::SetCtrl { node: map.decay, value, range: CtrlRange::Rate }
    } else if controller == 7 {
        MidiAction::SetCtrl { node: map.sustain, value, range: CtrlRange::Sustain }
    } else if controller == 8 {
        MidiAction::SetCtrl { node: map.release, value, range: CtrlRange::Rate }
    } else {
        MidiAction::UnknownController(controller)
    }
}

/// The actions for the messages of `data` from position `i` on, with `cur`
/// the sounding note, and the sounding note afterwards. Decoding stops at a
/// status byte it does not know and at a message cut short by the end of
/// `data`.
pub open spec fn decode(map: ControlMap, cur: Option<u8>, data: Seq<u8>, i: int) -> (Seq<MidiAction>, Option<u8>)
    decreases data.len() - i,
{
    if i < 0 || i + 2 >= data.len() {
        (Seq::empty(), cur)
    } else if data[i] == CONTROL_CHANGE {
        let rest = decode(map, cur, data, i + 3);
        (seq![ctrl_action(map, data[i + 1], data[i + 2])] + rest.0, rest.1)
    } else if data[i] == NOTE_ON || data[i] == NOTE_OFF {
        let num = data[i + 1];
        let vel = data[i + 2];
        let on = data[i] == NOTE_ON && vel > 0;
        if on || cur == Some(num) {
            let rest = decode(map, if on { Some(num) } else { None }, data, i + 3);
            (seq![MidiAction::Note { midi_num: num, velocity: vel, on }] + rest.0, rest.1)
        } else {
            decode(map, cur, data, i + 3)
        }
    } else {
        (Seq::empty(), cur)
    }
}

/// The three bytes of the MIDI message for a note event.
pub open spec fn note_bytes(ev: NoteEvent) -> Seq<u8> {
    seq![if ev.down { NOTE_ON } else { NOTE_OFF }, ev.note, ev.velocity]
}

/// The MIDI state of the mono synth: its control map and the sounding note.
pub struct Midi {
    control_map: ControlMap,
    cur_note: Option<u8>,
}

impl Midi {
    pub closed spec fn map(&self) -> ControlMap {
        self.control_map
    }

    /// The note that is sounding, if any.
    pub closed spec fn cur(&self) -> Option<u8> {
        self.cur_note
    }

    pub fn new(control_map: ControlMap) -> (r: Midi)
        ensures
            r.map() == control_map,
            r.cur() is None,
    {
        Midi { control_map, cur_note: None }
    }

    /// The control map.
    pub fn control_map(&self) -> (r: &ControlMap)
        ensures
            *r == self.map(),
    {
        &self.control_map
    }

    /// The note that is sounding, if any.
    pub fn cur_note(&self) -> (r: Option<u8>)
        ensures
            r == self.cur(),
    {
        self.cur_note
    }

    /// Decode a buffer of MIDI messages into the actions they ask for.
    pub fn dispatch_midi(&mut self, data: &[u8]) -> (r: Vec<MidiAction>)
        ensures
            r@ == decode(old(self).map(), old(self).cur(), data@, 0).0,
            final(self).cur() == decode(old(self).map(), old(self).cur(), data@, 0).1,
            final(self).map() == old(self).map(),
    {
        let mut acts: Vec<MidiAction> = Vec::new();
        let mut i: usize = 0;
        let n = data.len();
        while i < n && n - i > 2
            invariant
                n == data@.len(),
                i <= n,
                self.control_map == old(self).control_map,
                decode(self.control_map, old(self).cur_note, data@, 0).0 == acts@ + decode(
                    self.control_map,
                    self.cur_note,
                    data@,
                    i as int,
                ).0,
                decode(self.control_map, old(self).cur_note, data@, 0).1 == decode(
                    self.control_map,
                    self.cur_note,
                    data@,
                    i as int,
                ).1,
            decreases n - i,
        {
            let status = data[i];
            if status == CONTROL_CHANGE {
                let controller = data[i + 1];
                let value = data[i + 2];
                let act = self.ctrl_action(controller, value);
                let ghost before = acts@;
                acts.push(act);
                proof {
                    let rest = decode(self.control_map, self.cur_note, data@, i + 3);
                    assert(acts@ + rest.0 =~= before + (seq![act] + rest.0));
                }
            } else if status == NOTE_ON || status == NOTE_OFF {
                let midi_num = data[i + 1];
                let velocity = data[i + 2];
                let on = status == NOTE_ON && velocity > 0;
                let sounding = match self.cur_note {
                    Some(c) => c == midi_num,
                    None => false,
                };
                if on || sounding {
                    let act = MidiAction::Note { midi_num, velocity, on };
                    let ghost before = acts@;
                    acts.push(act);
                    self.cur_note = if on {
                        Some(midi_num)
                    } else {
                        None
                    };
                    proof {
                        let rest = decode(self.control_map, self.cur_note, data@, i + 3);
                        assert(acts@ + rest.0 =~= before + (seq![act] + rest.0));
                    }
                }
            } else {
                proof {
                    assert(acts@ =~= acts@ + Seq::<MidiAction>::empty());
                }
                return acts;
            }
            i = i + 3;
        }
        proof {
            assert(acts@ =~= acts@ + Seq::<MidiAction>::empty());
        }
        acts
    }

    fn ctrl_action(&self, controller: u8, value: u8) -> (r: MidiAction)
        ensures
            r == ctrl_action(self.control_map, controller, value),
    {
        let m = &self.control_map;
        if controller == 1 {
            MidiAction::SetCtrl { node: m.cutoff, value, range: CtrlRange::Cutoff }
        } else if controller == 2 {
            MidiAction::SetCtrl { node: m.reso, value, range: CtrlRange::Resonance }
        } else if controller == 5 {
            MidiAction::SetCtrl { node: m.attack, value, range: CtrlRange::Rate }
        } else if controller == 6 {
            MidiAction::SetCtrl { node: m.decay, value, range: CtrlRange::Rate }
        } else if controller == 7 {
            MidiAction::SetCtrl { node: m.sustain, value, range: CtrlRange::Sustain }
        } else if controller == 8 {
            MidiAction::SetCtrl { node: m.release, value, range: CtrlRange::Rate }
        } else {
            MidiAction::UnknownController(controller)
        }
    }

    /// Decode a note event as the MIDI message it stands for.
    pub fn dispatch_note_event(&mut self, note_event: &NoteEvent) -> (r: Vec<MidiAction>)
        ensures
            r@ == decode(old(self).map(), old(self).cur(), note_bytes(*note_event), 0).0,
            final(self).cur() == decode(old(self).map(), old(self).cur(), note_bytes(*note_event), 0).1,
            final(self).map() == old(self).map(),
    {
        let status = if note_event.down {
            NOTE_ON
        } else {
            NOTE_OFF
        };
        let data: Vec<u8> = vec![status, note_event.note, note_event.velocity];
        assert(data@ =~= note_bytes(*note_event));
        self.dispatch_midi(data.as_slice())
    }
}

} // verus!
