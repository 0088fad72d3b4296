use std::sync::{Arc, Mutex};

use bevy::prelude::{Commands, Entity};
use bevy_level_plan::{Conditional, Cycle, LevelPlan, LevelPlanElement, Nop, Sequence, While};

/// The snapshot of these tests: one flag that the guards read.
struct Flag {
    up: bool,
}

type Log = Arc<Mutex<Vec<String>>>;

fn new_log() -> Log {
    Arc::new(Mutex::new(Vec::new()))
}

fn taken(log: &Log) -> Vec<String> {
    let mut entries = log.lock().unwrap();
    let seen = entries.clone();
    entries.clear();
    seen
}

fn lines(expected: &[&str]) -> Vec<String> {
    expected.iter().map(|line| line.to_string()).collect()
}

/// A leaf that writes down every call it gets and answers its steps from a
/// script; once the script is used up it keeps giving its last answer.
struct Probe {
    name: &'static str,
    log: Log,
    answers: Vec<bool>,
    asked: usize,
}

impl Probe {
    fn new(name: &'static str, log: &Log, answers: &[bool]) -> Self {
        Probe { name, log: log.clone(), answers: answers.to_vec(), asked: 0 }
    }
}

impl LevelPlanElement<Flag> for Probe {
    fn step(&mut self, _level: Entity, _commands: &mut Commands, _context: &mut Flag) -> bool {
        let at = if self.asked < self.answers.len() { self.asked } else { self.answers.len() - 1 };
        let answer = self.answers[at];
        self.asked += 1;
        self.log.lock().unwrap().push(format!("step({})={}", self.name, answer));
        answer
    }

    fn activate(&mut self, _level: Entity, _commands: &mut Commands, _context: &mut Flag) {
        self.asked = 0;
        self.log.lock().unwrap().push(format!("activate({})", self.name));
    }

    fn deactivate(&mut self, _level: Entity, _commands: &mut Commands, _context: &mut Flag) {
        self.log.lock().unwrap().push(format!("deactivate({})", self.name));
    }
}

/// A leaf that overrides `activate` only.
struct Herald {
    log: Log,
}

impl LevelPlanElement<Flag> for Herald {
    fn activate(&mut self, _level: Entity, _commands: &mut Commands, _context: &mut Flag) {
        self.log.lock().unwrap().push("activate(herald)".to_string());
    }
}

fn queued(commands: &Commands) -> usize {
    commands.commands.lock().commands.len()
}

#[test]
fn sequence_of_two_advances_within_the_tick() {
    let log = new_log();
    let level = Entity::new(7);
    let mut commands = Commands::default();
    let mut context = Flag { up: true };
    let mut plan = LevelPlan::new(
        Sequence::default()
            .push(Probe::new("A", &log, &[false]))
            .push(Probe::new("B", &log, &[false])),
    );

    assert!(plan.tick(level, &mut commands, &mut context));
    assert_eq!(
        taken(&log),
        lines(&["activate(A)", "step(A)=false", "deactivate(A)", "activate(B)"])
    );
    assert_eq!(queued(&commands), 0);

    assert!(!plan.tick(level, &mut commands, &mut context));
    assert_eq!(taken(&log), lines(&["step(B)=false", "deactivate(B)"]));
    assert_eq!(queued(&commands), 1);
}

#[test]
fn sequence_visits_each_child_once_in_order() {
    let log = new_log();
    let level = Entity::new(1);
    let mut commands = Commands::default();
    let mut context = Flag { up: true };
    let mut sequence = Sequence::default()
        .push(Probe::new("A", &log, &[true, false]))
        .push(Probe::new("B", &log, &[false]))
        .push(Probe::new("C", &log, &[true, true, false]));

    sequence.activate(level, &mut commands, &mut context);
    let mut answers = Vec::new();
    loop {
        let running = sequence.step(level, &mut commands, &mut context);
        answers.push(running);
        if !running {
            break;
        }
    }
    assert_eq!(answers, vec![true, true, true, true, true, false]);
    assert_eq!(
        taken(&log),
        lines(&[
            "activate(A)",
            "step(A)=true",
            "step(A)=false",
            "deactivate(A)",
            "activate(B)",
            "step(B)=false",
            "deactivate(B)",
            "activate(C)",
            "step(C)=true",
            "step(C)=true",
            "step(C)=false",
            "deactivate(C)",
        ])
    );
    assert_eq!(queued(&commands), 0);
}

#[test]
fn exhausted_sequence_stays_exhausted_and_deactivates_nothing() {
    let log = new_log();
    let level = Entity::new(1);
    let mut commands = Commands::default();
    let mut context = Flag { up: true };
    let mut sequence = Sequence::default().push(Probe::new("A", &log, &[false]));

    sequence.activate(level, &mut commands, &mut context);
    assert!(!sequence.step(level, &mut commands, &mut context));
    assert_eq!(taken(&log), lines(&["activate(A)", "step(A)=false", "deactivate(A)"]));

    assert!(!sequence.step(level, &mut commands, &mut context));
    sequence.deactivate(level, &mut commands, &mut context);
    assert_eq!(taken(&log), Vec::<String>::new());

    sequence.activate(level, &mut commands, &mut context);
    assert_eq!(taken(&log), lines(&["activate(A)"]));
}

#[test]
fn sequence_given_up_early_deactivates_the_current_child() {
    let log = new_log();
    let level = Entity::new(1);
    let mut commands = Commands::default();
    let mut context = Flag { up: true };
    let mut sequence = Sequence::default()
        .push(Probe::new("A", &log, &[false]))
        .push(Probe::new("B", &log, &[true]));

    sequence.activate(level, &mut commands, &mut context);
    assert!(sequence.step(level, &mut commands, &mut context));
    assert!(sequence.step(level, &mut commands, &mut context));
    sequence.deactivate(level, &mut commands, &mut context);
    assert_eq!(
        taken(&log),
        lines(&[
            "activate(A)",
            "step(A)=false",
            "deactivate(A)",
            "activate(B)",
            "step(B)=true",
            "deactivate(B)",
        ])
    );

    sequence.activate(level, &mut commands, &mut context);
    assert_eq!(taken(&log), lines(&["activate(A)"]));
}

#[test]
fn sequence_without_children_answers_false_to_a_step() {
    let level = Entity::new(1);
    let mut commands = Commands::default();
    let mut context = Flag { up: true };
    let mut sequence = Sequence::<Flag>::default();

    assert!(!sequence.step(level, &mut commands, &mut context));
    assert_eq!(queued(&commands), 0);
}

#[test]
fn advance_follows_the_answer_it_is_given() {
    let log = new_log();
    let level = Entity::new(1);
    let mut commands = Commands::default();
    let mut context = Flag { up: true };
    let mut sequence = Sequence::default()
        .push(Probe::new("A", &log, &[true]))
        .push(Probe::new("B", &log, &[true]));

    sequence.activate(level, &mut commands, &mut context);
    assert!(sequence.advance(true, level, &mut commands, &mut context));
    assert_eq!(taken(&log), lines(&["activate(A)"]));
    assert!(sequence.advance(false, level, &mut commands, &mut context));
    assert_eq!(taken(&log), lines(&["deactivate(A)", "activate(B)"]));
    assert!(!sequence.advance(false, level, &mut commands, &mut context));
    assert_eq!(taken(&log), lines(&["deactivate(B)"]));
    assert!(!sequence.advance(true, level, &mut commands, &mut context));
    assert_eq!(taken(&log), Vec::<String>::new());
}

#[test]
fn settle_retires_the_container_when_the_root_has_finished() {
    let log = new_log();
    let level = Entity::new(5);
    let mut commands = Commands::default();
    let mut context = Flag { up: true };
    let mut plan = LevelPlan::new(Probe::new("R", &log, &[true]));

    assert!(plan.settle(true, level, &mut commands));
    assert_eq!(queued(&commands), 0);
    assert!(plan.tick(level, &mut commands, &mut context));
    assert!(!plan.settle(false, level, &mut commands));
    assert_eq!(queued(&commands), 1);
    assert!(!plan.tick(level, &mut commands, &mut context));
    assert_eq!(taken(&log), lines(&["activate(R)", "step(R)=true"]));
    assert_eq!(queued(&commands), 1);
}

#[test]
fn nested_sequence_is_deactivated_after_it_is_exhausted() {
    let log = new_log();
    let level = Entity::new(1);
    let mut commands = Commands::default();
    let mut context = Flag { up: true };
    let mut outer = Sequence::default()
        .push(Sequence::default().push(Probe::new("A", &log, &[false])))
        .push(Probe::new("B", &log, &[false]));

    outer.activate(level, &mut commands, &mut context);
    assert!(outer.step(level, &mut commands, &mut context));
    assert_eq!(
        taken(&log),
        lines(&["activate(A)", "step(A)=false", "deactivate(A)", "activate(B)"])
    );
    assert!(!outer.step(level, &mut commands, &mut context));
    assert_eq!(taken(&log), lines(&["step(B)=false", "deactivate(B)"]));
}

#[test]
fn cycle_restarts_in_the_tick_that_exhausts_it() {
    let log = new_log();
    let level = Entity::new(1);
    let mut commands = Commands::default();
    let mut context = Flag { up: true };
    let mut cycle = Cycle::new(
        Sequence::default()
            .push(Probe::new("A", &log, &[false]))
            .push(Probe::new("B", &log, &[false])),
    );

    cycle.activate(level, &mut commands, &mut context);
    assert_eq!(taken(&log), lines(&["activate(A)"]));

    assert!(cycle.step(level, &mut commands, &mut context));
    assert_eq!(taken(&log), lines(&["step(A)=false", "deactivate(A)", "activate(B)"]));

    assert!(cycle.step(level, &mut commands, &mut context));
    assert_eq!(taken(&log), lines(&["step(B)=false", "deactivate(B)", "activate(A)"]));

    assert!(cycle.step(level, &mut commands, &mut context));
    assert_eq!(taken(&log), lines(&["step(A)=false", "deactivate(A)", "activate(B)"]));

    cycle.deactivate(level, &mut commands, &mut context);
    assert_eq!(taken(&log), lines(&["deactivate(B)"]));
}

#[test]
fn cycle_never_finishes() {
    let log = new_log();
    let level = Entity::new(1);
    let mut commands = Commands::default();
    let mut context = Flag { up: true };
    let mut cycle = Cycle::new(Sequence::default().push(Probe::new("A", &log, &[false])));

    cycle.activate(level, &mut commands, &mut context);
    for _ in 0..10 {
        assert!(cycle.step(level, &mut commands, &mut context));
    }
    let seen = taken(&log);
    assert_eq!(seen.len(), 1 + 10 * 3);
    assert_eq!(seen.iter().filter(|line| line.as_str() == "activate(A)").count(), 11);
    assert_eq!(seen.iter().filter(|line| line.as_str() == "deactivate(A)").count(), 10);
}

#[test]
fn while_with_false_guard_never_steps_its_child() {
    let log = new_log();
    let level = Entity::new(3);
    let mut commands = Commands::default();
    let mut context = Flag { up: false };
    let mut plan = LevelPlan::new(While::new(|_: &Flag| false, Probe::new("X", &log, &[true])));

    assert!(!plan.tick(level, &mut commands, &mut context));
    assert_eq!(taken(&log), lines(&["activate(X)"]));
    assert_eq!(queued(&commands), 1);
}

#[test]
fn while_asks_its_guard_every_tick() {
    let log = new_log();
    let level = Entity::new(3);
    let mut commands = Commands::default();
    let mut node = While::new(|flag: &Flag| flag.up, Probe::new("X", &log, &[true]));

    node.activate(level, &mut commands, &mut Flag { up: true });
    assert!(node.step(level, &mut commands, &mut Flag { up: true }));
    assert!(node.step(level, &mut commands, &mut Flag { up: true }));
    assert!(!node.step(level, &mut commands, &mut Flag { up: false }));
    assert!(node.step(level, &mut commands, &mut Flag { up: true }));
    assert_eq!(
        taken(&log),
        lines(&["activate(X)", "step(X)=true", "step(X)=true", "step(X)=true"])
    );
}

#[test]
fn while_passes_on_the_answer_of_its_child() {
    let log = new_log();
    let level = Entity::new(3);
    let mut commands = Commands::default();
    let mut context = Flag { up: true };
    let mut node = While::new(|flag: &Flag| flag.up, Probe::new("X", &log, &[true, false]));

    node.activate(level, &mut commands, &mut context);
    assert!(node.step(level, &mut commands, &mut context));
    assert!(!node.step(level, &mut commands, &mut context));
    node.deactivate(level, &mut commands, &mut context);
    assert_eq!(
        taken(&log),
        lines(&["activate(X)", "step(X)=true", "step(X)=false", "deactivate(X)"])
    );
}

#[test]
fn while_step_when_follows_the_answer_it_is_given() {
    let log = new_log();
    let level = Entity::new(3);
    let mut commands = Commands::default();
    let mut context = Flag { up: false };
    let mut node = While::new(|flag: &Flag| flag.up, Probe::new("X", &log, &[true]));

    node.activate(level, &mut commands, &mut context);
    assert!(node.step_when(true, level, &mut commands, &mut context));
    assert!(!node.step_when(false, level, &mut commands, &mut context));
    assert_eq!(taken(&log), lines(&["activate(X)", "step(X)=true"]));
}

#[test]
fn child_of_while_is_deactivated_when_the_guard_ends_it() {
    let log = new_log();
    let level = Entity::new(3);
    let mut commands = Commands::default();
    let mut sequence = Sequence::default()
        .push(While::new(|flag: &Flag| flag.up, Probe::new("X", &log, &[true])))
        .push(Probe::new("Y", &log, &[true]));

    sequence.activate(level, &mut commands, &mut Flag { up: true });
    assert!(sequence.step(level, &mut commands, &mut Flag { up: true }));
    assert!(sequence.step(level, &mut commands, &mut Flag { up: true }));
    assert!(sequence.step(level, &mut commands, &mut Flag { up: false }));
    assert_eq!(
        taken(&log),
        lines(&["activate(X)", "step(X)=true", "step(X)=true", "deactivate(X)", "activate(Y)"])
    );
}

#[test]
fn conditional_switches_branches_with_its_guard() {
    let log = new_log();
    let level = Entity::new(4);
    let mut commands = Commands::default();
    let mut plan = LevelPlan::new(Conditional::if_else(
        |flag: &Flag| flag.up,
        Probe::new("A", &log, &[true]),
        Probe::new("B", &log, &[true]),
    ));

    assert!(plan.tick(level, &mut commands, &mut Flag { up: true }));
    assert_eq!(taken(&log), lines(&["activate(A)", "step(A)=true"]));

    assert!(plan.tick(level, &mut commands, &mut Flag { up: false }));
    assert_eq!(taken(&log), lines(&["deactivate(A)", "activate(B)", "step(B)=true"]));

    assert!(plan.tick(level, &mut commands, &mut Flag { up: true }));
    assert_eq!(taken(&log), lines(&["deactivate(B)", "activate(A)", "step(A)=true"]));

    assert!(plan.tick(level, &mut commands, &mut Flag { up: true }));
    assert_eq!(taken(&log), lines(&["step(A)=true"]));
    assert_eq!(queued(&commands), 0);
}

#[test]
fn conditional_without_else_finishes_when_its_guard_fails() {
    let log = new_log();
    let level = Entity::new(4);
    let mut commands = Commands::default();
    let mut node = Conditional::new(|flag: &Flag| flag.up, Probe::new("A", &log, &[true]));

    node.activate(level, &mut commands, &mut Flag { up: true });
    assert_eq!(taken(&log), Vec::<String>::new());
    assert!(node.step(level, &mut commands, &mut Flag { up: true }));
    assert_eq!(taken(&log), lines(&["activate(A)", "step(A)=true"]));
    assert!(!node.step(level, &mut commands, &mut Flag { up: false }));
    assert_eq!(taken(&log), lines(&["deactivate(A)"]));
    assert!(!node.step(level, &mut commands, &mut Flag { up: false }));
    node.deactivate(level, &mut commands, &mut Flag { up: false });
    assert_eq!(taken(&log), Vec::<String>::new());
}

#[test]
fn conditional_passes_on_the_answer_of_the_branch() {
    let log = new_log();
    let level = Entity::new(4);
    let mut commands = Commands::default();
    let mut node = Conditional::if_else(
        |flag: &Flag| flag.up,
        Probe::new("A", &log, &[false]),
        Probe::new("B", &log, &[true, false]),
    );

    assert!(!node.step(level, &mut commands, &mut Flag { up: true }));
    assert!(node.step(level, &mut commands, &mut Flag { up: false }));
    assert!(!node.step(level, &mut commands, &mut Flag { up: false }));
    assert_eq!(
        taken(&log),
        lines(&[
            "activate(A)",
            "step(A)=false",
            "deactivate(A)",
            "activate(B)",
            "step(B)=true",
            "step(B)=false",
        ])
    );
}

#[test]
fn conditional_deactivates_the_branch_that_is_active() {
    let log = new_log();
    let level = Entity::new(4);
    let mut commands = Commands::default();
    let mut node = Conditional::if_else(
        |flag: &Flag| flag.up,
        Probe::new("A", &log, &[true]),
        Probe::new("B", &log, &[true]),
    );

    assert!(node.step(level, &mut commands, &mut Flag { up: false }));
    node.deactivate(level, &mut commands, &mut Flag { up: false });
    assert_eq!(taken(&log), lines(&["activate(B)", "step(B)=true", "deactivate(B)"]));

    assert!(node.step_when(true, level, &mut commands, &mut Flag { up: false }));
    node.deactivate(level, &mut commands, &mut Flag { up: false });
    node.deactivate(level, &mut commands, &mut Flag { up: false });
    assert_eq!(taken(&log), lines(&["activate(A)", "step(A)=true", "deactivate(A)"]));
}

#[test]
fn container_activates_its_root_once() {
    let log = new_log();
    let level = Entity::new(5);
    let mut commands = Commands::default();
    let mut context = Flag { up: true };
    let mut plan = LevelPlan::new(Probe::new("R", &log, &[true, true, true, false]));

    assert_eq!(taken(&log), Vec::<String>::new());
    for _ in 0..3 {
        assert!(plan.tick(level, &mut commands, &mut context));
    }
    assert!(!plan.tick(level, &mut commands, &mut context));
    let seen = taken(&log);
    assert_eq!(
        seen,
        lines(&["activate(R)", "step(R)=true", "step(R)=true", "step(R)=true", "step(R)=false"])
    );
    assert_eq!(queued(&commands), 1);
}

#[test]
fn retired_container_is_left_alone() {
    let log = new_log();
    let level = Entity::new(5);
    let mut commands = Commands::default();
    let mut context = Flag { up: true };
    let mut plan = LevelPlan::new(Probe::new("R", &log, &[false]));

    assert!(!plan.tick(level, &mut commands, &mut context));
    assert_eq!(taken(&log), lines(&["activate(R)", "step(R)=false"]));
    assert_eq!(queued(&commands), 1);

    assert!(!plan.tick(level, &mut commands, &mut context));
    assert!(!plan.tick(level, &mut commands, &mut context));
    assert_eq!(taken(&log), Vec::<String>::new());
    assert_eq!(queued(&commands), 1);
}

#[test]
fn nop_runs_for_ever_and_queues_nothing() {
    let level = Entity::new(6);
    let mut commands = Commands::default();
    let mut context = Flag { up: true };
    let mut nop = Nop;

    LevelPlanElement::<Flag>::activate(&mut nop, level, &mut commands, &mut context);
    for _ in 0..5 {
        assert!(LevelPlanElement::<Flag>::step(&mut nop, level, &mut commands, &mut context));
    }
    LevelPlanElement::<Flag>::deactivate(&mut nop, level, &mut commands, &mut context);
    assert_eq!(queued(&commands), 0);
}

#[test]
fn nop_holds_a_place_in_a_sequence() {
    let log = new_log();
    let level = Entity::new(6);
    let mut commands = Commands::default();
    let mut context = Flag { up: true };
    let mut sequence = Sequence::default().push(Nop).push(Probe::new("B", &log, &[false]));

    sequence.activate(level, &mut commands, &mut context);
    for _ in 0..4 {
        assert!(sequence.step(level, &mut commands, &mut context));
    }
    assert_eq!(taken(&log), Vec::<String>::new());
}

#[test]
fn element_with_default_step_is_always_running() {
    let log = new_log();
    let level = Entity::new(6);
    let mut commands = Commands::default();
    let mut context = Flag { up: true };
    let mut plan = LevelPlan::new(Herald { log: log.clone() });

    for _ in 0..3 {
        assert!(plan.tick(level, &mut commands, &mut context));
    }
    assert_eq!(taken(&log), lines(&["activate(herald)"]));
    assert_eq!(queued(&commands), 0);
}

#[test]
fn snapshot_is_left_as_it_was() {
    let log = new_log();
    let level = Entity::new(6);
    let mut commands = Commands::default();
    let mut context = Flag { up: true };
    let mut plan = LevelPlan::new(
        Sequence::default()
            .push(While::new(|flag: &Flag| flag.up, Probe::new("A", &log, &[false])))
            .push(Conditional::new(|flag: &Flag| flag.up, Probe::new("B", &log, &[false]))),
    );

    assert!(plan.tick(level, &mut commands, &mut context));
    assert!(context.up);
    assert!(!plan.tick(level, &mut commands, &mut context));
    assert!(context.up);
}
