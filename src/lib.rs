//! The logic of a real-time modular synthesizer: the wiring topology that the
//! audio worker executes and its allocation-free topological sort, the
//! holding back of messages stamped for a later chunk, the phases of the
//! envelope generator, the integer phase arithmetic of the oscillators, node
//! id allocation, the decoding of MIDI controller and note input, and the
//! patching grid with its electrical nets.

pub mod envelope;
pub mod graph;
pub mod grid;
pub mod id_allocator;
pub mod midi;
pub mod pending;
pub mod phase;
pub mod wire_net;
