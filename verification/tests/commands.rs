use winny::ecs::commands::{Command, CommandQueue, Commands, EntityCommand, EntityCommands};
use winny::ecs::entity::{ArchId, ArchRow, Entities, Entity, TableId, TableRow};

fn describe(c: &Command<&'static str>) -> String {
    match c {
        Command::Entity(e, EntityCommand::Insert(p)) => format!("insert {} {}", e.index(), p),
        Command::Entity(e, EntityCommand::Remove(p)) => format!("remove {} {}", e.index(), p),
        Command::Entity(e, EntityCommand::Despawn) => format!("despawn {}", e.index()),
        Command::InsertResource(p) => format!("resource {}", p),
        Command::RunSystemOnceWhen(s, c) => format!("run {} when {}", s, c),
    }
}

#[test]
fn apply_deffered_hands_out_the_latest_command_first() {
    let mut queue: CommandQueue<&'static str> = CommandQueue::new();
    queue.push(Command::InsertResource("a"));
    queue.push(Command::InsertResource("b"));
    queue.push(Command::InsertResource("c"));
    let applied: Vec<String> = queue.apply_deffered().iter().map(describe).collect();
    assert_eq!(applied, vec!["resource c", "resource b", "resource a"]);
    assert!(queue.apply_deffered().is_empty());
}

#[test]
fn entity_commands_record_in_call_order() {
    let mut queue: CommandQueue<&'static str> = CommandQueue::new();
    let e = Entity::new(0, 4);
    {
        let mut ec = EntityCommands::new(e, &mut queue);
        assert_eq!(ec.entity(), e);
        ec.insert("health").remove("size");
        ec.despawn();
    }
    let applied: Vec<String> = queue.apply_deffered().iter().map(describe).collect();
    assert_eq!(applied, vec!["despawn 4", "remove 4 size", "insert 4 health"]);
}

#[test]
fn commands_spawn_reserves_an_entity_and_queues_its_bundle() {
    let mut entities = Entities::new();
    let existing = entities.spawn(TableId(0), ArchId(0), TableRow(0), ArchRow(0));
    let mut queue: CommandQueue<&'static str> = CommandQueue::new();
    let spawned;
    {
        let mut commands = Commands::new(&mut entities, &mut queue);
        spawned = commands.spawn("bundle").entity();
        commands.insert_resource("time").run_system_once_when("setup", "ready");
        commands.get_entity(existing).despawn();
    }
    assert_eq!((spawned.generation(), spawned.index()), (0, 1));
    assert!(!entities.is_valid(spawned));
    let applied: Vec<String> = queue.apply_deffered().iter().map(describe).collect();
    assert_eq!(
        applied,
        vec!["despawn 0", "run setup when ready", "resource time", "insert 1 bundle"]
    );
}
