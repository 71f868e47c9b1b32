use tui_runtime::runtime::{
    channel, dispatch, drain, drive, process_tick, Directive, Event, Input, LoopError, LoopState,
    RunOutcome, TaskStatus,
};

fn render_of(events: Vec<Event<u32>>) -> (LoopState, Directive<u32, u64>) {
    dispatch(LoopState::Running, Input::Render(events))
}

#[test]
fn interleaved_sends_one_redraw_updates_in_order() {
    let events: Vec<Event<u32>> = vec![
        Event::Message(1),
        Event::Print(String::from("alpha")),
        Event::Message(2),
        Event::Print(String::from("beta")),
        Event::Message(3),
    ];
    let (state, directive) = render_of(events);
    assert_eq!(state, LoopState::Running);
    match directive {
        Directive::Redraw(plan) => {
            assert_eq!(plan.updates, vec![1, 2, 3]);
            assert_eq!(plan.scrollback, vec![String::from("alpha"), String::from("beta")]);
        }
        _ => panic!("a tick must produce exactly a redraw"),
    }
}

#[test]
fn zero_sends_still_redraws() {
    let (state, directive) = render_of(Vec::new());
    assert_eq!(state, LoopState::Running);
    match directive {
        Directive::Redraw(plan) => {
            assert!(plan.updates.is_empty());
            assert!(plan.scrollback.is_empty());
        }
        _ => panic!("a tick with no events must still redraw"),
    }
}

#[test]
fn print_with_line_breaks_splits_into_lines() {
    let plan = process_tick::<u32>(vec![Event::Print(String::from("one\ntwo\nthree"))]);
    assert_eq!(
        plan.scrollback,
        vec![String::from("one"), String::from("two"), String::from("three")]
    );
}

#[test]
fn print_split_edge_cases() {
    // A final line ending is optional, carriage returns pair with the line
    // feed, an empty print contributes nothing, an empty line survives.
    let plan = process_tick::<u32>(vec![
        Event::Print(String::from("tail\n")),
        Event::Print(String::from("a\r\nb")),
        Event::Print(String::from("")),
        Event::Print(String::from("x\n\ny")),
    ]);
    let expect: Vec<String> = ["tail", "a", "b", "x", "", "y"]
        .iter()
        .map(|s| s.to_string())
        .collect();
    assert_eq!(plan.scrollback, expect);
}

#[test]
fn finished_success_returns_exact_value() {
    let inputs: Vec<Input<u32, u64>> = vec![
        Input::Render(Vec::new()),
        Input::Render(Vec::new()),
        Input::Finished(TaskStatus::Completed(42)),
        // Queued behind the completion; the loop must never look at these.
        Input::Term,
        Input::Render(Vec::new()),
    ];
    let mut state = LoopState::Running;
    let mut returned: Option<Result<u64, LoopError>> = None;
    for input in inputs {
        if state != LoopState::Running {
            break;
        }
        let (next, directive) = dispatch(state, input);
        state = next;
        match directive {
            Directive::Redraw(_) => {}
            Directive::Finish(r) => returned = Some(r),
            Directive::Exit => panic!("completion must not exit the process"),
        }
    }
    assert_eq!(state, LoopState::Finishing);
    assert_eq!(returned, Some(Ok(42)));
}

#[test]
fn finished_failure_propagates_error() {
    let (state, directive) = dispatch::<u32, u64>(
        LoopState::Running,
        Input::Finished(TaskStatus::Failed),
    );
    assert_eq!(state, LoopState::Finishing);
    match directive {
        Directive::Finish(r) => assert_eq!(r, Err(LoopError::TaskFailed)),
        _ => panic!("a failed task must surface as a propagated failure"),
    }
}

#[test]
fn interrupt_always_exits() {
    // Before the first tick, between ticks, and with a completion already
    // queued behind it: the first Term always wins.
    let runs: Vec<Vec<Input<u32, u64>>> = vec![
        vec![Input::Term],
        vec![Input::Render(Vec::new()), Input::Term],
        vec![
            Input::Render(Vec::new()),
            Input::Term,
            Input::Finished(TaskStatus::Completed(7)),
        ],
    ];
    for inputs in runs {
        let mut state = LoopState::Running;
        let mut exited = false;
        for input in inputs {
            if state != LoopState::Running {
                break;
            }
            let (next, directive) = dispatch(state, input);
            state = next;
            match directive {
                Directive::Redraw(_) => {}
                Directive::Finish(_) => panic!("the interrupt must win"),
                Directive::Exit => exited = true,
            }
        }
        assert!(exited);
        assert_eq!(state, LoopState::Terminating);
    }
}

#[test]
fn drive_stops_at_first_deciding_input() {
    let completed: Vec<Input<u32, u64>> = vec![
        Input::Render(Vec::new()),
        Input::Finished(TaskStatus::Completed(11)),
        Input::Term,
    ];
    assert_eq!(drive(completed), RunOutcome::Returned(11));

    let failed: Vec<Input<u32, u64>> = vec![
        Input::Render(Vec::new()),
        Input::Finished(TaskStatus::Failed),
        Input::Finished(TaskStatus::Completed(11)),
    ];
    assert_eq!(drive(failed), RunOutcome::Failed);

    let interrupted: Vec<Input<u32, u64>> = vec![
        Input::Term,
        Input::Finished(TaskStatus::Completed(11)),
    ];
    assert_eq!(drive(interrupted), RunOutcome::Exited);

    let only_ticks: Vec<Input<u32, u64>> = vec![Input::Render(Vec::new())];
    assert_eq!(drive(only_ticks), RunOutcome::Pending);
}

#[test]
fn cloned_handles_lose_and_duplicate_nothing() {
    let (mut a, mut receiver) = channel::<u32>();
    let mut b = a.clone();
    let mut c = b.clone();
    a.update(1);
    b.print(String::from("from b"));
    c.update(2);
    b.update(3);
    a.print(String::from("from a"));
    let events = drain(&mut receiver);
    assert_eq!(events.len(), 5);
    let plan = process_tick(events);
    assert_eq!(plan.updates, vec![1, 2, 3]);
    assert_eq!(plan.scrollback, vec![String::from("from b"), String::from("from a")]);
    // Nothing was left behind.
    assert!(drain(&mut receiver).is_empty());
}

#[test]
fn send_after_receiver_gone_is_swallowed() {
    let (mut handle, receiver) = channel::<u32>();
    drop(receiver);
    handle.update(9);
    handle.print(String::from("late"));
}

#[test]
fn channel_absorbs_a_fast_producer_without_loss() {
    // The channel applies no backpressure: a producer far ahead of the
    // render cadence grows the queue, and a single later drain still
    // delivers every event.  This documents deliberate behavior; a bounded
    // or lossy channel would be a regression.
    let (mut handle, mut receiver) = channel::<u32>();
    for i in 0..10_000u32 {
        handle.update(i);
    }
    let events = drain(&mut receiver);
    assert_eq!(events.len(), 10_000);
    let plan = process_tick(events);
    let expect: Vec<u32> = (0..10_000u32).collect();
    assert_eq!(plan.updates, expect);
}

#[test]
fn drain_takes_only_what_is_queued() {
    let (mut handle, mut receiver) = channel::<u32>();
    handle.update(1);
    handle.update(2);
    let first = drain(&mut receiver);
    assert_eq!(first.len(), 2);
    handle.update(3);
    let second = drain(&mut receiver);
    let plan = process_tick(second);
    assert_eq!(plan.updates, vec![3]);
}
