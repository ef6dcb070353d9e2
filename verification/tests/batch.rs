use index_sync::driver::{Command, Driver, Event, Policy, Stage};
use index_sync::regenerate_index::{Action, Opts, Run};

#[test]
fn run_goes_through_its_stages() {
    let mut d = Driver::new(Policy::Isolate, 20);
    assert_eq!(d.pending(), Command::Discover);
    assert_eq!(d.state().stage, Stage::Discover);
    assert_eq!(d.advance(Event::Discovered { units: 2 }), Command::Confirm { units: 2 });
    assert_eq!(d.state().stage, Stage::Confirm);
    assert_eq!(
        d.advance(Event::Answered { confirmed: true }),
        Command::Process { unit: 0, delay: 20 }
    );
    assert_eq!(d.state().stage, Stage::Iterate);
    assert_eq!(d.advance(Event::UnitSucceeded), Command::Process { unit: 1, delay: 20 });
    assert_eq!(
        d.advance(Event::UnitSucceeded),
        Command::Finish { succeeded: true, processed: 2, failed: 0 }
    );
    assert_eq!(d.state().stage, Stage::Complete);
}

#[test]
fn declining_ends_the_run_as_a_success() {
    let mut d = Driver::new(Policy::Isolate, 0);
    d.advance(Event::Discovered { units: 5 });
    assert_eq!(
        d.advance(Event::Answered { confirmed: false }),
        Command::Finish { succeeded: true, processed: 0, failed: 0 }
    );
}

#[test]
fn failed_discovery_ends_the_run_as_failed() {
    let mut d = Driver::new(Policy::Isolate, 0);
    assert_eq!(
        d.advance(Event::DiscoveryFailed),
        Command::Finish { succeeded: false, processed: 0, failed: 0 }
    );
    assert_eq!(
        d.advance(Event::Discovered { units: 3 }),
        Command::Finish { succeeded: false, processed: 0, failed: 0 }
    );
}

#[test]
fn failing_unit_does_not_stop_an_isolating_run() {
    let mut d = Driver::new(Policy::Isolate, 7);
    d.advance(Event::Discovered { units: 3 });
    d.advance(Event::Answered { confirmed: true });
    assert_eq!(d.advance(Event::UnitSucceeded), Command::Process { unit: 1, delay: 7 });
    assert_eq!(d.advance(Event::UnitFailed), Command::Process { unit: 2, delay: 7 });
    assert_eq!(
        d.advance(Event::UnitSucceeded),
        Command::Finish { succeeded: true, processed: 3, failed: 1 }
    );
}

#[test]
fn failing_unit_stops_an_aborting_run() {
    let mut d = Driver::new(Policy::Abort, 0);
    d.advance(Event::Discovered { units: 3 });
    d.advance(Event::Answered { confirmed: true });
    assert_eq!(d.advance(Event::UnitSucceeded), Command::Process { unit: 1, delay: 0 });
    assert_eq!(
        d.advance(Event::UnitFailed),
        Command::Finish { succeeded: false, processed: 2, failed: 1 }
    );
    assert_eq!(
        d.advance(Event::UnitSucceeded),
        Command::Finish { succeeded: false, processed: 2, failed: 1 }
    );
}

#[test]
fn confirmed_run_without_units_is_over_at_once() {
    let mut d = Driver::new(Policy::Isolate, 0);
    d.advance(Event::Discovered { units: 0 });
    assert_eq!(
        d.advance(Event::Answered { confirmed: true }),
        Command::Finish { succeeded: true, processed: 0, failed: 0 }
    );
}

#[test]
fn events_out_of_turn_change_nothing() {
    let mut d = Driver::new(Policy::Isolate, 0);
    assert_eq!(d.advance(Event::UnitFailed), Command::Discover);
    assert_eq!(d.advance(Event::Answered { confirmed: true }), Command::Discover);
    d.advance(Event::Discovered { units: 1 });
    assert_eq!(d.advance(Event::UnitSucceeded), Command::Confirm { units: 1 });
    assert_eq!(d.advance(Event::Discovered { units: 9 }), Command::Confirm { units: 1 });
    d.advance(Event::Answered { confirmed: true });
    assert_eq!(
        d.advance(Event::Answered { confirmed: false }),
        Command::Process { unit: 0, delay: 0 }
    );
}

#[test]
fn rewriting_run_normalizes_then_regenerates() {
    let mut run = Run::new(Opts { delay: 30 });
    assert_eq!(run.pending(), Action::Walk);
    assert_eq!(run.advance(Event::Discovered { units: 2 }), Action::AskNormalize { files: 2 });
    assert_eq!(
        run.advance(Event::Answered { confirmed: true }),
        Action::Normalize { file: 0, report: true }
    );
    assert_eq!(run.advance(Event::UnitSucceeded), Action::Normalize { file: 1, report: false });
    assert_eq!(run.advance(Event::UnitSucceeded), Action::ListPackages);
    assert_eq!(
        run.advance(Event::Discovered { units: 2 }),
        Action::AskRegenerate { packages: 2 }
    );
    assert_eq!(
        run.advance(Event::Answered { confirmed: true }),
        Action::Regenerate { package: 0, delay: 30 }
    );
    assert_eq!(run.advance(Event::UnitFailed), Action::Regenerate { package: 1, delay: 30 });
    assert_eq!(run.advance(Event::UnitSucceeded), Action::Finish { succeeded: true });
    assert_eq!(run.advance(Event::UnitSucceeded), Action::Finish { succeeded: true });
}

#[test]
fn rewriting_run_reports_progress_every_fifty_files() {
    let mut run = Run::new(Opts { delay: 0 });
    run.advance(Event::Discovered { units: 120 });
    let mut action = run.advance(Event::Answered { confirmed: true });
    let mut reported = Vec::new();
    for expected in 0..120 {
        match action {
            Action::Normalize { file, report } => {
                assert_eq!(file, expected);
                if report {
                    reported.push(file);
                }
            }
            other => panic!("unexpected {other:?}"),
        }
        action = run.advance(Event::UnitSucceeded);
    }
    assert_eq!(reported, vec![0, 50, 100]);
    assert_eq!(action, Action::ListPackages);
}

#[test]
fn file_that_cannot_be_normalized_ends_the_run() {
    let mut run = Run::new(Opts { delay: 0 });
    run.advance(Event::Discovered { units: 3 });
    run.advance(Event::Answered { confirmed: true });
    assert_eq!(run.advance(Event::UnitSucceeded), Action::Normalize { file: 1, report: false });
    assert_eq!(run.advance(Event::UnitFailed), Action::Finish { succeeded: false });
    assert_eq!(run.advance(Event::Discovered { units: 1 }), Action::Finish { succeeded: false });
}

#[test]
fn declined_normalizing_still_offers_regenerating() {
    let mut run = Run::new(Opts { delay: 9 });
    run.advance(Event::Discovered { units: 3 });
    assert_eq!(run.advance(Event::Answered { confirmed: false }), Action::ListPackages);
    assert_eq!(
        run.advance(Event::Discovered { units: 1 }),
        Action::AskRegenerate { packages: 1 }
    );
    assert_eq!(run.advance(Event::Answered { confirmed: false }), Action::Finish { succeeded: true });
}

#[test]
fn failed_walk_or_listing_ends_the_run() {
    let mut run = Run::new(Opts { delay: 0 });
    assert_eq!(run.advance(Event::DiscoveryFailed), Action::Finish { succeeded: false });

    let mut run = Run::new(Opts { delay: 0 });
    run.advance(Event::Discovered { units: 0 });
    assert_eq!(run.advance(Event::Answered { confirmed: true }), Action::ListPackages);
    assert_eq!(run.advance(Event::DiscoveryFailed), Action::Finish { succeeded: false });
}
