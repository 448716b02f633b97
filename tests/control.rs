use grust::control::{Step, TickControl};

#[test]
fn running_control_advances_and_counts() {
    let mut c = TickControl::new();
    assert!(!c.is_paused());
    assert_eq!(c.frame(), Step::Advance);
    assert_eq!(c.frame(), Step::Advance);
    assert_eq!(c.ticks(), 2);
}

#[test]
fn paused_control_holds_twice_unchanged() {
    let mut c = TickControl::new();
    c.frame();
    c.set_paused(true);
    assert_eq!(c.frame(), Step::Hold);
    let after_first = (c.is_paused(), c.ticks());
    assert_eq!(c.frame(), Step::Hold);
    assert_eq!((c.is_paused(), c.ticks()), after_first);
    assert_eq!(c.ticks(), 1);
}

#[test]
fn resuming_continues_the_count() {
    let mut c = TickControl::new();
    c.set_paused(true);
    c.frame();
    c.set_paused(false);
    assert_eq!(c.frame(), Step::Advance);
    assert_eq!(c.ticks(), 1);
}
