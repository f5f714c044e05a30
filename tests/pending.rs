use synthesizer_io::pending::Pending;

fn drain(p: &mut Pending<&'static str>, now: u64) -> Vec<&'static str> {
    let mut out = Vec::new();
    while let Some(x) = p.take_next_due(now) {
        out.push(x);
    }
    out
}

#[test]
fn due_items_leave_in_order() {
    let mut p: Pending<&str> = Pending::new();
    p.push(10, "a");
    p.push(30, "b");
    p.push(5, "c");
    p.push(20, "d");
    assert_eq!(drain(&mut p, 20), vec!["a", "c", "d"]);
    assert_eq!(p.len(), 1);
    assert!(drain(&mut p, 29).is_empty());
    assert_eq!(p.len(), 1);
    assert_eq!(drain(&mut p, 30), vec!["b"]);
    assert_eq!(p.len(), 0);
}

#[test]
fn unstamped_items_are_always_due() {
    let mut p: Pending<u32> = Pending::with_capacity(4);
    p.push(0, 1);
    p.push(0, 2);
    assert_eq!(p.take_next_due(0), Some(1));
    assert_eq!(p.take_next_due(0), Some(2));
    assert_eq!(p.take_next_due(0), None);
}
