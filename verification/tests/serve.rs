use moq_origin::error::Error;
use moq_origin::serve::{
    Action, Attempt, Event, Observed, Step, TrackServer, MAX_TRACK_RETRIES, TRACK_IDLE_LINGER_SECS,
};
use moq_origin::time::Clock;

const SEC: u128 = 1_000_000_000;
const LINGER: u128 = TRACK_IDLE_LINGER_SECS as u128 * SEC;

fn quiet(active: Option<u64>) -> Observed {
    Observed { closed: false, active, edge: false, ended: None, latest: None, fired: false }
}

fn spliced(id: u64) -> Event {
    Event::Spliced { id, latest: None, settled: Some(true) }
}

/// One pass at `now`: the countdown and the next step.
fn pass(server: &mut TrackServer, used: bool, now: u128, seen: Observed) -> Option<Step> {
    let at = server.begin_at(used, now);
    let fired = match at {
        Some(at) => at <= now,
        None => false,
    };
    server.next(used, at.is_some(), Observed { fired, ..seen })
}

#[test]
fn test_serve_resets_retry_budget() {
    let mut server = TrackServer::new();
    // Alternate a pre-splice failure with a successful splice, well past the
    // retry cap; the resets keep the track alive.
    for _ in 0..2 * MAX_TRACK_RETRIES {
        assert_eq!(pass(&mut server, true, 0, quiet(Some(0))), Some(Step::Splice(0)));
        assert_eq!(server.apply(Event::Rejected), Action::Continue);
        assert_eq!(pass(&mut server, true, 0, quiet(Some(0))), Some(Step::Splice(0)));
        assert_eq!(server.apply(spliced(0)), Action::Continue);
        let died = Observed { ended: Some(false), ..quiet(Some(0)) };
        assert_eq!(pass(&mut server, true, 0, died), Some(Step::Failed));
        assert_eq!(server.apply(Event::Failed), Action::Continue);
    }
    assert_eq!(pass(&mut server, true, 0, quiet(Some(0))), Some(Step::Splice(0)));
    assert_eq!(server.apply(spliced(0)), Action::Continue);
    assert_eq!(pass(&mut server, true, 0, quiet(Some(0))), None);
}

#[test]
fn rejections_in_a_row_abort() {
    let mut server = TrackServer::new();
    assert_eq!(server.apply(Event::Rejected), Action::Continue);
    assert_eq!(server.apply(Event::Closing { id: 4 }), Action::Continue);
    assert_eq!(server.apply(Event::Moved), Action::Continue);
    assert_eq!(server.apply(Event::Rejected), Action::Continue);
    assert_eq!(server.apply(Event::Rejected), Action::Abort(Error::Unroutable));
}

#[test]
fn test_idle_track_releases_without_respinning() {
    let mut server = TrackServer::new();
    assert_eq!(pass(&mut server, true, 0, quiet(Some(0))), Some(Step::Splice(0)));
    server.apply(spliced(0));
    assert_eq!(pass(&mut server, true, 0, quiet(Some(0))), None);

    // The reader leaves, but the copy stays warm inside the window.
    let left = Observed { edge: true, ..quiet(Some(0)) };
    assert_eq!(pass(&mut server, true, SEC, left), Some(Step::Demand));
    server.apply(Event::Demand);
    assert_eq!(pass(&mut server, false, SEC, quiet(Some(0))), None);
    assert_eq!(pass(&mut server, false, SEC + LINGER / 2, quiet(Some(0))), None);
    assert_eq!(server.serving, Some(0), "the copy must stay spliced inside the linger");

    // Past the window the segment is released.
    assert_eq!(pass(&mut server, false, SEC + LINGER, quiet(Some(0))), Some(Step::Idle));
    assert_eq!(server.apply(Event::Idle { released: true }), Action::Continue);
    assert_eq!(server.serving, None, "an idle copy must be released after the linger");

    // The release must not re-arm the splice.
    for i in 1..4 {
        assert_eq!(
            pass(&mut server, false, SEC + LINGER * (1 + i), quiet(Some(0))),
            None,
            "an unread copy must stay released, not be re-spliced"
        );
        assert_eq!(server.serving, None);
    }

    // A returning reader re-splices.
    let back = Observed { edge: true, ..quiet(Some(0)) };
    assert_eq!(pass(&mut server, false, 9 * LINGER, back), Some(Step::Demand));
    assert_eq!(pass(&mut server, true, 9 * LINGER, quiet(Some(0))), Some(Step::Splice(0)));
}

#[test]
fn test_back_to_back_fetches_reuse_the_track() {
    let mut server = TrackServer::new();
    // The first fetch has to ask the source for the track.
    assert_eq!(pass(&mut server, true, 0, quiet(Some(0))), Some(Step::Splice(0)));
    server.apply(spliced(0));
    assert_eq!(pass(&mut server, false, SEC, quiet(Some(0))), None);
    // A second fetch inside the linger reuses the copy already spliced in.
    assert_eq!(pass(&mut server, true, 2 * SEC, quiet(Some(0))), None);
    assert_eq!(server.idle_since, None);
    // Once the fetches stop, the copy is released like any other idle track.
    assert_eq!(pass(&mut server, false, 3 * SEC, quiet(Some(0))), None);
    assert_eq!(pass(&mut server, false, 3 * SEC + 2 * LINGER, quiet(Some(0))), Some(Step::Idle));
    server.apply(Event::Idle { released: true });
    // And a later fetch re-requests it.
    assert_eq!(pass(&mut server, true, 4 * LINGER, quiet(Some(0))), Some(Step::Splice(0)));
}

#[test]
fn test_completed_track_survives_route_churn() {
    let mut server = TrackServer::new();
    server.apply(spliced(0));
    let done = Observed { ended: Some(true), ..quiet(Some(0)) };
    assert_eq!(pass(&mut server, true, 0, done), Some(Step::Complete));
    assert_eq!(server.apply(Event::Complete), Action::Finish);
}

#[test]
fn handover_follows_the_active_source() {
    let mut server = TrackServer::new();
    server.apply(spliced(0));
    // Another source became active: it is spliced in, though the old copy also ended.
    let seen = Observed { ended: Some(true), edge: true, ..quiet(Some(1)) };
    assert_eq!(pass(&mut server, true, 0, seen), Some(Step::Splice(1)));
    // It had closed: park until the table moves on.
    assert_eq!(server.apply(Event::Closing { id: 1 }), Action::Continue);
    assert_eq!(server.serving, None);
    assert_eq!(pass(&mut server, true, 0, quiet(Some(1))), None);
    assert_eq!(pass(&mut server, true, 0, quiet(Some(2))), Some(Step::Splice(2)));
    // A closed front comes before everything else.
    let over = Observed { closed: true, ..quiet(Some(2)) };
    assert_eq!(pass(&mut server, true, 0, over), Some(Step::Closed));
    assert_eq!(server.apply(Event::Closed), Action::Stop);
}

#[test]
fn production_settles_a_splice() {
    let mut server = TrackServer::new();
    server.apply(Event::Spliced { id: 0, latest: Some(4), settled: Some(false) });
    assert_eq!(server.splice_latest, Some(4));
    let produced = Observed { latest: Some(Some(5)), ..quiet(Some(0)) };
    assert_eq!(pass(&mut server, true, 0, produced), Some(Step::Produced(Some(5))));
    assert_eq!(
        server.apply(Event::Produced { latest: Some(5), settled: Some(true) }),
        Action::Continue
    );
    // Settled: production is not watched any more.
    assert_eq!(pass(&mut server, true, 0, produced), None);
    assert_eq!(server.apply(Event::Produced { latest: None, settled: None }), Action::Stop);
    assert_eq!(server.apply(Event::Idle { released: false }), Action::Stop);
    assert_eq!(
        server.apply(Event::Spliced { id: 1, latest: None, settled: None }),
        Action::Stop
    );
}

#[test]
fn attempts_are_judged() {
    assert_eq!(TrackServer::judge(true, None, false, true), Attempt::Moved);
    assert_eq!(TrackServer::judge(true, Some(true), false, true), Attempt::Servable);
    assert_eq!(TrackServer::judge(true, Some(true), true, false), Attempt::Rejected);
    assert_eq!(TrackServer::judge(true, Some(false), false, false), Attempt::Rejected);
    assert_eq!(TrackServer::judge(false, None, false, false), Attempt::Rejected);
    assert_eq!(TrackServer::judge(false, None, false, true), Attempt::Closing);
}

#[test]
fn the_wait_for_info_ends_with_the_source() {
    assert!(TrackServer::awaits(false, Some(3), 3));
    assert!(!TrackServer::awaits(true, Some(3), 3));
    assert!(!TrackServer::awaits(false, Some(4), 3));
    assert!(!TrackServer::awaits(false, None, 3));
}

#[test]
fn countdown_by_the_clock() {
    let clock = Clock::new();
    let mut server = TrackServer::default();
    assert_eq!(server.begin(false, &clock), None);
    server.apply(spliced(0));
    let at = server.begin(false, &clock).unwrap();
    assert!(at >= LINGER && at < LINGER + 60 * SEC);
    assert_eq!(server.begin(false, &clock), Some(at));
    assert_eq!(server.begin(true, &clock), None);
}
