use sim::command::CommandError;
use sim::entity::WorldViolation;
use sim::fx::Fx;
use sim::replay::{Divergence, ReplayError, VerifyError};
use sim::simulation::{ConfigError, PlaceError, ResearchError, Violation};
use sim::tech::{Age, AGE_TOOL};
use sim::vec2::Vec2Fx;

#[test]
fn config_errors_read_as_words() {
    assert_eq!(
        ConfigError::PopCapOutOfRange { got: 49 }.to_string(),
        "population cap 49 is outside 50..=200"
    );
    assert_eq!(
        ConfigError::NegativeStockpile {
            resource: 2,
            amount: -5
        }
        .to_string(),
        "starting stockpile entry 2 is -5"
    );
}

#[test]
fn placement_and_research_refusals_read_as_words() {
    assert_eq!(
        PlaceError::AgeLocked { needs: Age::Tool }.to_string(),
        "needs the Tool Age"
    );
    assert_eq!(PlaceError::Blocked.to_string(), "cannot build there");
    assert_eq!(
        ResearchError::MissingPrerequisite { tech: AGE_TOOL }.to_string(),
        "needs Tool Age"
    );
    assert_eq!(
        ResearchError::MissingPrerequisite { tech: 999 }.to_string(),
        "needs another technology"
    );
    assert_eq!(
        ResearchError::NeedBuildings { have: 1, need: 2 }.to_string(),
        "needs 2 buildings of this age, have 1"
    );
    assert_eq!(ResearchError::QueueFull.to_string(), "queue is full");
}

#[test]
fn replay_refusals_read_as_words() {
    assert_eq!(
        ReplayError::TooLong { got: 5 }.to_string(),
        "replay claims 5 ticks, limit is 10000000"
    );
    let bad = ReplayError::BadCommand {
        index: 0,
        source: CommandError::PlayerOutOfRange { player: 200 },
    };
    assert_eq!(bad.to_string(), "command 0: player 200 is not in 0..8");
    assert_eq!(
        CommandError::TooManyIds { len: 9000 }.to_string(),
        "command names 9000 entities, limit is 8192"
    );
    let d = Divergence {
        tick: 4,
        first: 255,
        second: 0xdead_beef,
    };
    assert_eq!(
        d.to_string(),
        "state diverged at tick 4: 00000000000000ff vs 00000000deadbeef"
    );
    assert_eq!(
        VerifyError::Diverged(d).to_string(),
        format!("DESYNC {}", d.to_string())
    );
    assert_eq!(
        VerifyError::Invalid(ReplayError::Version {
            got: 2,
            expected: 1
        })
        .to_string(),
        "invalid replay: replay version 2 but this build reads version 1"
    );
}

#[test]
fn invariant_violations_read_as_words() {
    let ragged = WorldViolation::RaggedColumns {
        column: "pos",
        len: 3,
        expected: 4,
    };
    assert_eq!(ragged.to_string(), "column `pos` has 3 rows, expected 4");
    assert_eq!(
        Violation::World(ragged).to_string(),
        "column `pos` has 3 rows, expected 4"
    );
    assert_eq!(
        Violation::NegativeHealth {
            slot: 3,
            health: Fx::from_int(-1)
        }
        .to_string(),
        "slot 3 has health -1.0000"
    );
    assert_eq!(
        Violation::PositionOutOfMap {
            slot: 1,
            pos: Vec2Fx::new(Fx::HALF(), Fx::from_int(300))
        }
        .to_string(),
        "slot 1 is at Vec2Fx { x: Fx(0.5000), y: Fx(300.0000) }, outside the map"
    );
    assert_eq!(
        Violation::NegativeStockpile {
            player: 1,
            resource: 0,
            amount: -3
        }
        .to_string(),
        "player 1 has -3 of resource 0: something was spent that was never gathered"
    );
}
