//! The phase machine of the attack-decay-sustain-release envelope. The level
//! itself is computed per chunk by the audio code; this decides which segment
//! the envelope is in.

use vstd::prelude::*;

verus! {

#[derive(Clone, Copy, Debug, PartialEq, Eq, Structural)]
pub enum AdsrPhase {
    /// No note; the level rests at the floor.
    Quiet,
    /// Note is on, rising.
    Attack,
    /// Note is on, falling towards the sustain level.
    Decay,
    /// Note is on, steady.
    Sustain,
    /// Note is off, falling towards the floor.
    Release,
}

/// The phase a note event puts the envelope in, whatever it was in.
pub open spec fn phase_after_note(on: bool) -> AdsrPhase {
    if on { AdsrPhase::Attack } else { AdsrPhase::Release }
}

/// The phase after one chunk in `phase`, where `reached` tells whether the
/// level got to the end of the current segment during the chunk.
pub open spec fn phase_after_chunk(phase: AdsrPhase, reached: bool) -> AdsrPhase {
    match phase {
        AdsrPhase::Attack => if reached { AdsrPhase::Decay } else { AdsrPhase::Attack },
        AdsrPhase::Decay => if reached { AdsrPhase::Sustain } else { AdsrPhase::Decay },
        AdsrPhase::Release => if reached { AdsrPhase::Quiet } else { AdsrPhase::Release },
        other => other,
    }
}

/// The note is held in this phase.
pub open spec fn is_held(phase: AdsrPhase) -> bool {
    phase == AdsrPhase::Attack || phase == AdsrPhase::Decay || phase == AdsrPhase::Sustain
}

impl AdsrPhase {
    /// Handle a note on or off.
    pub fn handle_note(self, on: bool) -> (r: AdsrPhase)
        ensures
            r == phase_after_note(on),
    {
        if on {
            AdsrPhase::Attack
        } else {
            AdsrPhase::Release
        }
    }

    /// Move on after one chunk.
    pub fn advance(self, reached: bool) -> (r: AdsrPhase)
        ensures
            r == phase_after_chunk(self, reached),
    {
        match self {
            AdsrPhase::Attack => if reached {
                AdsrPhase::Decay
            } else {
                AdsrPhase::Attack
            },
            AdsrPhase::Decay => if reached {
                AdsrPhase::Sustain
            } else {
                AdsrPhase::Decay
            },
            AdsrPhase::Release => if reached {
                AdsrPhase::Quiet
            } else {
                AdsrPhase::Release
            },
            other => other,
        }
    }
}

/// Without a note-on, the envelope never enters the attack, decay or sustain
/// phase from a phase in which no note is held, however the chunks go.
pub proof fn lemma_chunks_keep_note_released(phase: AdsrPhase, reached: Seq<bool>)
    requires
        !is_held(phase),
    ensures
        !is_held(run_chunks(phase, reached)),
    decreases reached.len(),
{
    if reached.len() > 0 {
        lemma_chunks_keep_note_released(phase_after_chunk(phase, reached[0]), reached.drop_first());
    }
}

/// Once released, the envelope goes quiet at the first chunk that reaches the
/// floor, and stays quiet.
pub proof fn lemma_release_ends_quiet(reached: Seq<bool>, k: int)
    requires
        0 <= k < reached.len(),
        reached[k],
    ensures
        run_chunks(AdsrPhase::Release, reached) == AdsrPhase::Quiet,
    decreases reached.len(),
{
    if reached[0] {
        lemma_quiet_stays(reached.drop_first());
    } else {
        lemma_release_ends_quiet(reached.drop_first(), k - 1);
    }
}

proof fn lemma_quiet_stays(reached: Seq<bool>)
    ensures
        run_chunks(AdsrPhase::Quiet, reached) == AdsrPhase::Quiet,
    decreases reached.len(),
{
    if reached.len() > 0 {
        lemma_quiet_stays(reached.drop_first());
    }
}

/// The phase after a run of chunks, `reached[i]` telling whether chunk `i`
/// reached the end of its segment.
pub open spec fn run_chunks(phase: AdsrPhase, reached: Seq<bool>) -> AdsrPhase
    decreases reached.len(),
{
    if reached.len() == 0 {
        phase
    } else {
        run_chunks(phase_after_chunk(phase, reached[0]), reached.drop_first())
    }
}

} // verus!
