use sim::command::{Command, CommandError, CommandKind};
use sim::replay::{Divergence, Replay, ReplayError, VerifyError};
use sim::simulation::SimConfig;

fn stop(p: u8) -> Command {
    Command {
        player: p,
        kind: CommandKind::Stop { ids: vec![] },
    }
}

fn base() -> Replay {
    Replay {
        version: Replay::VERSION,
        seed: 1,
        config: SimConfig::default(),
        ticks: 10,
        commands: vec![],
    }
}

/// A replay is untrusted input; each of these is refused before it runs.
#[test]
fn malformed_replays_are_rejected_not_run() {
    let base = base();

    let huge = Replay {
        ticks: u64::MAX,
        ..base.clone()
    };
    assert_eq!(huge.validate(), Err(ReplayError::TooLong { got: u64::MAX }));

    let wrong_version = Replay {
        version: Replay::VERSION + 1,
        ..base.clone()
    };
    assert!(matches!(
        wrong_version.validate(),
        Err(ReplayError::Version { .. })
    ));

    let unordered = Replay {
        commands: vec![(5, stop(0)), (2, stop(0))],
        ..base.clone()
    };
    assert!(matches!(
        unordered.validate(),
        Err(ReplayError::OutOfOrder { index: 1, .. })
    ));

    let after_end = Replay {
        commands: vec![(11, stop(0))],
        ..base.clone()
    };
    assert!(matches!(
        after_end.validate(),
        Err(ReplayError::IssuedAfterEnd { index: 0, .. })
    ));

    // Issued exactly at the end is legal; it simply never executes.
    let at_end = Replay {
        commands: vec![(10, stop(0))],
        ..base.clone()
    };
    assert!(at_end.validate().is_ok());

    let bad_player = Replay {
        commands: vec![(0, stop(200))],
        ..base
    };
    assert!(matches!(
        bad_player.validate(),
        Err(ReplayError::BadCommand { index: 0, .. })
    ));
}

#[test]
fn replay_errors_carry_exact_details() {
    let r = Replay {
        version: 7,
        ..base()
    };
    assert_eq!(
        r.validate(),
        Err(ReplayError::Version { got: 7, expected: 1 })
    );
    let r = Replay {
        commands: vec![(3, stop(0)), (3, stop(1)), (1, stop(0))],
        ..base()
    };
    assert_eq!(
        r.validate(),
        Err(ReplayError::OutOfOrder { index: 2, tick: 1, previous: 3 })
    );
    let r = Replay {
        commands: vec![(4, stop(0)), (12, stop(0))],
        ..base()
    };
    assert_eq!(
        r.validate(),
        Err(ReplayError::IssuedAfterEnd { index: 1, tick: 12, ticks: 10 })
    );
    let r = Replay {
        commands: vec![(0, stop(1)), (2, stop(9))],
        ..base()
    };
    assert_eq!(
        r.validate(),
        Err(ReplayError::BadCommand {
            index: 1,
            source: CommandError::PlayerOutOfRange { player: 9 }
        })
    );
}

#[test]
fn the_first_problem_is_the_one_reported() {
    // Out of order and after the end at once: the order is checked first.
    let r = Replay {
        commands: vec![(20, stop(0)), (5, stop(0))],
        ..base()
    };
    assert!(matches!(
        r.validate(),
        Err(ReplayError::IssuedAfterEnd { index: 0, .. })
    ));
    let r = Replay {
        ticks: Replay::MAX_TICKS + 1,
        version: 2,
        ..base()
    };
    assert!(matches!(r.validate(), Err(ReplayError::Version { .. })));
    let r = Replay {
        ticks: Replay::MAX_TICKS,
        ..base()
    };
    assert!(r.validate().is_ok());
}

#[test]
fn a_replay_error_becomes_an_invalid_verdict() {
    let e = ReplayError::TooLong { got: 3 };
    assert_eq!(VerifyError::from(e), VerifyError::Invalid(e));
    let d = Divergence {
        tick: 4,
        first: 1,
        second: 2,
    };
    assert_ne!(VerifyError::Diverged(d), VerifyError::Invalid(e));
}
