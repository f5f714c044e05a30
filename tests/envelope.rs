use synthesizer_io::envelope::AdsrPhase;

#[test]
fn gate_cycle_returns_to_quiet() {
    let mut p = AdsrPhase::Quiet;
    assert_eq!(p.advance(true), AdsrPhase::Quiet);
    p = p.handle_note(true);
    assert_eq!(p, AdsrPhase::Attack);
    p = p.advance(false);
    assert_eq!(p, AdsrPhase::Attack);
    p = p.advance(true);
    assert_eq!(p, AdsrPhase::Decay);
    p = p.advance(true);
    assert_eq!(p, AdsrPhase::Sustain);
    p = p.advance(true);
    assert_eq!(p, AdsrPhase::Sustain);
    p = p.handle_note(false);
    assert_eq!(p, AdsrPhase::Release);
    p = p.advance(false);
    assert_eq!(p, AdsrPhase::Release);
    p = p.advance(true);
    assert_eq!(p, AdsrPhase::Quiet);
}

#[test]
fn note_off_during_attack_releases() {
    let p = AdsrPhase::Quiet.handle_note(true).handle_note(false);
    assert_eq!(p, AdsrPhase::Release);
    assert_eq!(AdsrPhase::Decay.handle_note(true), AdsrPhase::Attack);
}
