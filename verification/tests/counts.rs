use shared_ownership::counts::{
    released, retained, step, upgraded, weak_of, CountFault, Step, Upgrade,
};

#[test]
fn retain_live_refuses_zero() {
    assert_eq!(step(Step::RetainLive, 0), None);
    assert_eq!(step(Step::RetainLive, 1), Some(2));
    assert_eq!(step(Step::RetainLive, usize::MAX - 1), Some(usize::MAX));
    assert_eq!(step(Step::RetainLive, usize::MAX), None);
}

#[test]
fn release_never_goes_below_zero() {
    assert_eq!(step(Step::Release, 0), None);
    assert_eq!(step(Step::Release, 1), Some(0));
    assert_eq!(step(Step::Release, usize::MAX), Some(usize::MAX - 1));
}

#[test]
fn retained_reports_the_new_count_or_the_fault() {
    assert_eq!(retained(Ok(1)), Ok(2));
    assert_eq!(retained(Err(0)), Err(CountFault::Underflow));
    assert_eq!(retained(Err(usize::MAX)), Err(CountFault::Overflow));
    assert_eq!(retained(Ok(usize::MAX)), Err(CountFault::Overflow));
    assert_eq!(retained(Ok(usize::MAX - 1)), Ok(usize::MAX));
}

#[test]
fn upgraded_tells_gone_from_saturated() {
    assert_eq!(upgraded(Ok(3)), Upgrade::Upgraded { strong: 4 });
    assert_eq!(upgraded(Err(0)), Upgrade::Gone);
    assert_eq!(upgraded(Err(usize::MAX)), Upgrade::Saturated);
    assert_eq!(upgraded(Ok(usize::MAX)), Upgrade::Saturated);
}

#[test]
fn released_marks_the_last_handle_only() {
    assert_eq!(released(Ok(3)), Ok((2, false)));
    assert_eq!(released(Ok(1)), Ok((0, true)));
    assert_eq!(released(Err(0)), Err(CountFault::Underflow));
    assert_eq!(released(Ok(0)), Err(CountFault::Underflow));
}

#[test]
fn weak_of_takes_off_the_share_of_the_owners() {
    assert_eq!(weak_of(1, 1), 0);
    assert_eq!(weak_of(3, 2), 2);
    assert_eq!(weak_of(2, 0), 2);
    assert_eq!(weak_of(0, 0), 0);
    assert_eq!(weak_of(0, 5), 0);
}
