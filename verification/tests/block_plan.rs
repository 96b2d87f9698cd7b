use garlic_crust::garlic_crust::{plan_block, BlockAction};

#[test]
fn exhausted_sequence_renders_every_sample() {
    let plan = plan_block(4, 3, 3, &|_i: usize, _s: usize| true);
    assert_eq!(
        plan,
        vec![BlockAction::Render(0), BlockAction::Render(1), BlockAction::Render(2), BlockAction::Render(3)]
    );
}

#[test]
fn empty_block_has_no_steps() {
    let plan = plan_block(0, 0, 5, &|_i: usize, _s: usize| true);
    assert!(plan.is_empty());
}

#[test]
fn events_due_at_start_come_first() {
    let plan = plan_block(2, 0, 2, &|_i: usize, _s: usize| true);
    assert_eq!(
        plan,
        vec![
            BlockAction::Dispatch(0),
            BlockAction::Dispatch(1),
            BlockAction::Render(0),
            BlockAction::Render(1)
        ]
    );
}

#[test]
fn events_are_dispatched_before_the_sample_they_are_due_at() {
    // event i is due from sample 2 * i + 1 on
    let due = |i: usize, s: usize| s >= 2 * i + 1;
    let plan = plan_block(5, 0, 2, &due);
    assert_eq!(
        plan,
        vec![
            BlockAction::Render(0),
            BlockAction::Dispatch(0),
            BlockAction::Render(1),
            BlockAction::Render(2),
            BlockAction::Dispatch(1),
            BlockAction::Render(3),
            BlockAction::Render(4)
        ]
    );
}

#[test]
fn dispatch_starts_at_the_cursor() {
    let plan = plan_block(1, 2, 4, &|_i: usize, _s: usize| true);
    assert_eq!(
        plan,
        vec![BlockAction::Dispatch(2), BlockAction::Dispatch(3), BlockAction::Render(0)]
    );
}

#[test]
fn an_event_not_yet_due_holds_back_later_ones() {
    // event 1 would be due, but event 0 never is: sequence order is kept
    let due = |i: usize, _s: usize| i == 1;
    let plan = plan_block(3, 0, 2, &due);
    assert_eq!(
        plan,
        vec![BlockAction::Render(0), BlockAction::Render(1), BlockAction::Render(2)]
    );
}

#[test]
fn due_is_asked_about_the_pending_event_and_current_sample() {
    let asked = std::cell::RefCell::new(Vec::new());
    let due = |i: usize, s: usize| {
        asked.borrow_mut().push((i, s));
        s == 1
    };
    let plan = plan_block(2, 0, 1, &due);
    assert_eq!(plan, vec![BlockAction::Render(0), BlockAction::Dispatch(0), BlockAction::Render(1)]);
    assert_eq!(*asked.borrow(), vec![(0, 0), (0, 1)]);
}
