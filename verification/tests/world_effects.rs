use bevy::prelude::{Commands, Entity, Resources, World};
use bevy_level_plan::{
    Conditional, Cycle, LevelPlan, LevelPlanElement, Nop, Sequence, SetComponent, While,
};

#[derive(Clone, Debug, PartialEq)]
struct Spawner(u32);

#[derive(Clone, Debug, PartialEq)]
struct Banner(&'static str);

/// A component that the tests set on an object to end a guarded element.
#[derive(Clone)]
struct Stop;

/// The snapshot: how many objects carry a `Stop`.
struct Census {
    stops: usize,
}

impl Census {
    fn build(world: &World) -> Self {
        Census { stops: world.query::<&Stop>().iter().count() }
    }
}

/// One tick of every plan in the world: one snapshot, every plan ticked
/// against it, and the buffer committed after the last.
fn run_tick(world: &mut World, resources: &mut Resources) {
    let mut context = Census::build(world);
    let mut commands = Commands::default();
    commands.set_entity_reserver(world.get_entity_reserver());
    for (owner, mut plan) in &mut world.query_mut::<(Entity, &mut LevelPlan<Census>)>().iter() {
        plan.tick(owner, &mut commands, &mut context);
    }
    commands.apply(world, resources);
}

/// A leaf that finishes on its first step.
struct Done;

impl LevelPlanElement<Census> for Done {
    fn step(&mut self, _level: Entity, _commands: &mut Commands, _context: &mut Census) -> bool {
        false
    }
}

/// A leaf that runs for a number of steps, then finishes.
struct Countdown(u32);

impl LevelPlanElement<Census> for Countdown {
    fn step(&mut self, _level: Entity, _commands: &mut Commands, _context: &mut Census) -> bool {
        if self.0 > 0 {
            self.0 -= 1;
            true
        } else {
            false
        }
    }
}

/// A leaf that spawns an object with a banner when it is activated.
struct Announce(&'static str);

impl LevelPlanElement<Census> for Announce {
    fn step(&mut self, _level: Entity, _commands: &mut Commands, _context: &mut Census) -> bool {
        false
    }

    fn activate(&mut self, _level: Entity, commands: &mut Commands, _context: &mut Census) {
        commands.spawn((Banner(self.0),));
    }
}

fn queued(commands: &Commands) -> usize {
    commands.commands.lock().commands.len()
}

fn banners(world: &World) -> Vec<&'static str> {
    let mut found: Vec<&'static str> =
        world.query::<&Banner>().iter().map(|banner| banner.0).collect();
    found.sort();
    found
}

#[test]
fn set_component_attaches_on_activate_and_detaches_on_deactivate() {
    let mut world = World::new();
    let mut resources = Resources::default();
    let level = world.spawn((Banner("level"),));
    let mut context = Census { stops: 0 };
    let mut leaf = SetComponent::new(Spawner(3));

    let mut commands = Commands::default();
    leaf.activate(level, &mut commands, &mut context);
    assert_eq!(queued(&commands), 1);
    assert!(world.get::<Spawner>(level).is_err());
    commands.apply(&mut world, &mut resources);
    assert_eq!(world.get::<Spawner>(level).unwrap(), &Spawner(3));

    let mut commands = Commands::default();
    assert!(leaf.step(level, &mut commands, &mut context));
    assert!(leaf.step(level, &mut commands, &mut context));
    assert_eq!(queued(&commands), 0);

    leaf.deactivate(level, &mut commands, &mut context);
    assert_eq!(queued(&commands), 1);
    assert_eq!(world.get::<Spawner>(level).unwrap(), &Spawner(3));
    commands.apply(&mut world, &mut resources);
    assert!(world.get::<Spawner>(level).is_err());
    assert_eq!(world.get::<Banner>(level).unwrap(), &Banner("level"));
}

#[test]
fn set_component_acts_on_the_owner_it_is_called_for() {
    let mut world = World::new();
    let mut resources = Resources::default();
    let first = world.spawn((Banner("first"),));
    let second = world.spawn((Banner("second"),));
    let mut context = Census { stops: 0 };
    let mut leaf = SetComponent::new(Spawner(1));

    let mut commands = Commands::default();
    leaf.activate(second, &mut commands, &mut context);
    commands.apply(&mut world, &mut resources);
    assert!(world.get::<Spawner>(first).is_err());
    assert!(world.get::<Spawner>(second).is_ok());

    let mut commands = Commands::default();
    leaf.deactivate(second, &mut commands, &mut context);
    commands.apply(&mut world, &mut resources);
    assert!(world.get::<Spawner>(second).is_err());
    assert!(world.contains(second));
}

#[test]
fn set_component_can_be_attached_again_after_it_was_detached() {
    let mut world = World::new();
    let mut resources = Resources::default();
    let level = world.spawn((Banner("level"),));
    let mut context = Census { stops: 0 };
    let mut leaf = SetComponent::new(Spawner(9));
    let mut commands = Commands::default();

    leaf.activate(level, &mut commands, &mut context);
    leaf.deactivate(level, &mut commands, &mut context);
    leaf.activate(level, &mut commands, &mut context);
    assert_eq!(queued(&commands), 3);
    commands.apply(&mut world, &mut resources);
    assert_eq!(world.get::<Spawner>(level).unwrap(), &Spawner(9));
}

#[test]
fn sequence_of_set_components_swaps_them_in_one_tick() {
    let mut world = World::new();
    let mut resources = Resources::default();
    let level = world.spawn((Banner("level"),));
    let mut context = Census { stops: 0 };
    let mut plan = LevelPlan::new(
        Sequence::default()
            .push(While::new(|census: &Census| census.stops == 0, SetComponent::new(Spawner(1))))
            .push(SetComponent::new(Banner("late"))),
    );

    let mut commands = Commands::default();
    assert!(plan.tick(level, &mut commands, &mut context));
    assert_eq!(queued(&commands), 1);
    commands.apply(&mut world, &mut resources);
    assert_eq!(world.get::<Spawner>(level).unwrap(), &Spawner(1));

    context.stops = 1;
    let mut commands = Commands::default();
    assert!(plan.tick(level, &mut commands, &mut context));
    assert_eq!(queued(&commands), 2);
    commands.apply(&mut world, &mut resources);
    assert!(world.get::<Spawner>(level).is_err());
    assert_eq!(world.get::<Banner>(level).unwrap(), &Banner("late"));
}

#[test]
fn finished_plan_queues_the_destruction_of_its_owner() {
    let mut world = World::new();
    let mut resources = Resources::default();
    let level = world.spawn((Banner("level"),));
    let other = world.spawn((Banner("other"),));
    let mut context = Census { stops: 0 };
    let mut plan = LevelPlan::new(Done);

    let mut commands = Commands::default();
    assert!(!plan.tick(level, &mut commands, &mut context));
    assert_eq!(queued(&commands), 1);
    assert!(world.contains(level));
    commands.apply(&mut world, &mut resources);
    assert!(!world.contains(level));
    assert!(world.contains(other));
}

#[test]
fn tick_over_a_world_retires_a_plan_and_destroys_its_owner() {
    let mut world = World::new();
    let mut resources = Resources::default();
    let level = world.spawn((LevelPlan::<Census>::new(Countdown(2)),));

    run_tick(&mut world, &mut resources);
    assert!(world.contains(level));
    run_tick(&mut world, &mut resources);
    assert!(world.contains(level));
    run_tick(&mut world, &mut resources);
    assert!(!world.contains(level));
    run_tick(&mut world, &mut resources);
    assert!(!world.contains(level));
}

#[test]
fn tick_over_a_world_commits_what_the_plans_queue() {
    let mut world = World::new();
    let mut resources = Resources::default();
    let level = world.spawn((LevelPlan::<Census>::new(
        Sequence::default().push(SetComponent::new(Spawner(5))),
    ),));

    assert!(world.get::<Spawner>(level).is_err());
    run_tick(&mut world, &mut resources);
    assert_eq!(world.get::<Spawner>(level).unwrap(), &Spawner(5));
    run_tick(&mut world, &mut resources);
    assert_eq!(world.get::<Spawner>(level).unwrap(), &Spawner(5));
    assert!(world.contains(level));
}

#[test]
fn tick_over_a_world_ticks_every_plan_against_one_snapshot() {
    let mut world = World::new();
    let mut resources = Resources::default();
    let guarded = |census: &Census| census.stops == 0;
    let first = world.spawn((LevelPlan::<Census>::new(While::new(guarded, Nop)),));
    let second = world.spawn((LevelPlan::<Census>::new(While::new(guarded, Nop)),));
    let third = world.spawn((LevelPlan::<Census>::new(
        Sequence::default().push(SetComponent::new(Stop)).push(Nop),
    ),));

    run_tick(&mut world, &mut resources);
    assert!(world.contains(first) && world.contains(second) && world.contains(third));
    assert!(world.get::<Stop>(third).is_ok());

    run_tick(&mut world, &mut resources);
    assert!(!world.contains(first));
    assert!(!world.contains(second));
    assert!(world.contains(third));
}

#[test]
fn tick_over_a_world_lets_elements_spawn_objects() {
    let mut world = World::new();
    let mut resources = Resources::default();
    let level = world.spawn((LevelPlan::<Census>::new(
        Sequence::default().push(Announce("one")).push(Announce("two")).push(Countdown(0)),
    ),));

    run_tick(&mut world, &mut resources);
    assert_eq!(banners(&world), vec!["one", "two"]);
    assert!(world.contains(level));
    run_tick(&mut world, &mut resources);
    assert_eq!(banners(&world), vec!["one", "two"]);
    assert!(world.contains(level));
    run_tick(&mut world, &mut resources);
    assert_eq!(banners(&world), vec!["one", "two"]);
    assert!(!world.contains(level));
}

#[test]
fn tick_over_a_world_leaves_a_world_without_plans_alone() {
    let mut world = World::new();
    let mut resources = Resources::default();
    let bystander = world.spawn((Banner("bystander"),));

    run_tick(&mut world, &mut resources);
    assert!(world.contains(bystander));
    assert_eq!(banners(&world), vec!["bystander"]);
}

#[test]
fn cycle_alternates_two_components() {
    let mut world = World::new();
    let mut resources = Resources::default();
    let level = world.spawn((LevelPlan::<Census>::new(Cycle::new(
        Sequence::default()
            .push(Conditional::if_else(|_: &Census| false, Nop, SetComponent::new(Spawner(1))))
            .push(SetComponent::new(Banner("pause"))),
    )),));

    run_tick(&mut world, &mut resources);
    assert_eq!(world.get::<Spawner>(level).unwrap(), &Spawner(1));
    assert!(world.get::<Banner>(level).is_err());
    run_tick(&mut world, &mut resources);
    assert_eq!(world.get::<Spawner>(level).unwrap(), &Spawner(1));
    assert!(world.contains(level));
}
