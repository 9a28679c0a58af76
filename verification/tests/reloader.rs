use shwoop::reloader::{Action, Poll, ReloadEvent, Reloader, State, Wait};

#[test]
fn output_change_reloads_after_quiet_period() {
    let mut r = Reloader::new();
    assert!(r.wait_kind() == Wait::Blocking);
    assert!(r.on_poll(Poll::Received(ReloadEvent::Reload)) == Action::Continue);
    assert!(r.wait_kind() == Wait::NonBlocking);
    assert!(r.on_poll(Poll::Empty) == Action::Sleep);
    assert!(r.on_poll(Poll::Empty) == Action::Notify);
    assert!(r.state == State::Idle);
    assert!(r.wait_kind() == Wait::Blocking);
}

#[test]
fn new_events_restart_the_quiet_period() {
    let mut r = Reloader::new();
    r.on_poll(Poll::Received(ReloadEvent::Reload));
    assert!(r.on_poll(Poll::Empty) == Action::Sleep);
    assert!(r.on_poll(Poll::Received(ReloadEvent::Reload)) == Action::Continue);
    assert!(r.on_poll(Poll::Empty) == Action::Sleep);
    assert!(r.on_poll(Poll::Empty) == Action::Notify);
}

#[test]
fn source_change_builds_then_reloads() {
    let mut r = Reloader::new();
    r.on_poll(Poll::Received(ReloadEvent::BuildAndReload));
    assert!(r.should_build);
    assert!(r.on_poll(Poll::Empty) == Action::Sleep);
    assert!(r.on_poll(Poll::Empty) == Action::Build);
    assert!(!r.should_build);
    r.on_build_finished(true);
    assert!(r.on_poll(Poll::Empty) == Action::Sleep);
    assert!(r.on_poll(Poll::Empty) == Action::Notify);
}

#[test]
fn failed_build_does_not_reload() {
    let mut r = Reloader::new();
    r.on_poll(Poll::Received(ReloadEvent::BuildAndReload));
    r.on_poll(Poll::Empty);
    assert!(r.on_poll(Poll::Empty) == Action::Build);
    r.on_build_finished(false);
    assert!(r.state == State::Idle);
    assert!(r.wait_kind() == Wait::Blocking);
}

#[test]
fn pending_build_survives_output_events() {
    let mut r = Reloader::new();
    r.on_poll(Poll::Received(ReloadEvent::BuildAndReload));
    r.on_poll(Poll::Received(ReloadEvent::Reload));
    assert!(r.should_build);
    r.on_poll(Poll::Empty);
    assert!(r.on_poll(Poll::Empty) == Action::Build);
}

#[test]
fn disconnect_stops() {
    let mut r = Reloader::new();
    assert!(r.on_poll(Poll::Disconnected) == Action::Stop);
    r.on_poll(Poll::Received(ReloadEvent::Reload));
    assert!(r.on_poll(Poll::Disconnected) == Action::Stop);
}

/// Drives a reloader through `polls`; every build ends with `build_ok`.
/// Returns how many builds ran and how many reloads were sent.
fn drive(polls: &[Poll], build_ok: bool) -> (usize, usize) {
    let mut r = Reloader::new();
    let mut builds = 0;
    let mut notifies = 0;
    for poll in polls {
        match r.on_poll(*poll) {
            Action::Build => {
                builds += 1;
                r.on_build_finished(build_ok);
            }
            Action::Notify => notifies += 1,
            Action::Stop => panic!("the reloader stopped"),
            _ => {}
        }
    }
    (builds, notifies)
}

fn burst_then_quiet(events: &[Option<ReloadEvent>]) -> Vec<Poll> {
    let mut polls: Vec<Poll> = events
        .iter()
        .map(|e| match e {
            Some(e) => Poll::Received(*e),
            None => Poll::Empty,
        })
        .collect();
    polls.extend(std::iter::repeat(Poll::Empty).take(6));
    polls
}

#[test]
fn burst_of_changes_builds_and_reloads_once() {
    let polls = burst_then_quiet(&[
        Some(ReloadEvent::Reload),
        None,
        Some(ReloadEvent::BuildAndReload),
        Some(ReloadEvent::Reload),
        None,
        Some(ReloadEvent::BuildAndReload),
        None,
        Some(ReloadEvent::Reload),
    ]);
    assert_eq!(drive(&polls, true), (1, 1));
    assert_eq!(drive(&polls, false), (1, 0));
}

#[test]
fn burst_of_output_changes_reloads_once() {
    let polls = burst_then_quiet(&[
        Some(ReloadEvent::Reload),
        None,
        Some(ReloadEvent::Reload),
        Some(ReloadEvent::Reload),
        None,
        Some(ReloadEvent::Reload),
    ]);
    assert_eq!(drive(&polls, true), (0, 1));
    assert_eq!(drive(&polls, false), (0, 1));
}
