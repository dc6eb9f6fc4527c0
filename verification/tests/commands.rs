use owo_colors::OwoColorize;
use railyard::arguments::justfile_arguments;
use railyard::command::{CommandOutput, CommandReport};
use railyard::commands::{collect_failures, report_failures, Commands, Exit, Write};
use railyard::watchdog::Watchdog;

fn strings(parts: &[&str]) -> Vec<String> {
    parts.iter().map(|p| p.to_string()).collect()
}

fn failed(name: &str, exit_code: i32, buffer: &[u8]) -> CommandReport {
    CommandReport::Failed(CommandOutput {
        name: name.to_string(),
        exit_code,
        buffer: buffer.to_vec(),
    })
}

#[test]
fn a_run_needs_a_command_that_waits_for_nothing() {
    let mut commands = Commands::new(true, 4);
    let refusal = "[\x1b[1m\x1b[31mERROR\x1b[39m\x1b[0m]: No commands without dependencies";
    assert_eq!(commands.start_error().as_deref(), Some(refusal));
    commands.dependent_command("b", &strings(&["echo"]), &strings(&["a"]));
    assert_eq!(commands.start_error().as_deref(), Some(refusal));
    let end = commands.refusal().unwrap();
    assert_eq!(end.exit, Exit::Failure);
    assert_eq!(end.writes.len(), 1);
    assert_eq!(text(&end.writes[0]), format!("{}\n", refusal));
    commands.dependent_command("a", &strings(&["echo"]), &[]);
    assert_eq!(commands.start_error(), None);
    assert!(commands.refusal().is_none());
    assert_eq!(commands.jobs(), 4);
    let mut commands = Commands::new(true, 1);
    commands.command("a", &strings(&["echo", "a"]));
    assert_eq!(commands.start_error(), None);
    assert_eq!(commands.at(0).name, "a");
    assert_eq!(commands.at(0).args, strings(&["echo", "a"]));
    assert!(commands.at(0).dependencies.is_empty());
}

#[test]
fn the_last_command_of_a_name_reports() {
    let mut commands = Commands::new(true, 1);
    for name in ["m", "z", "a", "m", "z"] {
        commands.command(name, &strings(&["echo"]));
    }
    assert_eq!(commands.len(), 5);
    assert_eq!(commands.report_count(), 3);
    assert_eq!(commands.reporting(), vec![2, 3, 4]);
}

#[test]
fn a_run_without_failures_succeeds() {
    let commands = Commands::new(true, 1);
    let conclusion = commands.conclude(vec![Some(CommandReport::Success), None]);
    assert_eq!(conclusion.exit, Exit::Success);
    assert!(conclusion.writes.is_empty());
}

#[test]
fn a_failure_fails_the_run() {
    let commands = Commands::new(false, 1);
    let conclusion = commands.conclude(vec![
        Some(CommandReport::Success),
        Some(failed("a", 1, b"")),
    ]);
    assert_eq!(conclusion.exit, Exit::Failure);
    assert!(conclusion.writes.is_empty());
}

fn text(write: &Write) -> &str {
    match write {
        Write::Text(text) => text,
        Write::Output(_) => panic!("a text was due"),
    }
}

#[test]
fn failures_are_told_of() {
    let commands = Commands::new(true, 1);
    let conclusion = commands.conclude(vec![
        Some(failed("lint", 7, b"bad\n")),
        None,
        Some(failed("test", 101, b"worse\n")),
        Some(CommandReport::Success),
    ]);
    assert_eq!(conclusion.exit, Exit::Failure);
    let writes = &conclusion.writes;
    assert_eq!(writes.len(), 8);
    let count = format!("{:=^80}\n", " 2 Tasks Failed ");
    assert_eq!(text(&writes[0]), count);
    assert_eq!(text(&writes[1]), format!("{:=^80}\n", " lint "));
    assert!(matches!(&writes[2], Write::Output(b) if b == b"bad\n"));
    assert_eq!(text(&writes[3]), format!("{:=^80}\n", " test "));
    assert!(matches!(&writes[4], Write::Output(b) if b == b"worse\n"));
    assert_eq!(text(&writes[5]), count);
    assert_eq!(
        text(&writes[6]),
        "\x1b[2m\x1b[1mlint\x1b[0m\x1b[0m: \x1b[1m\x1b[31mexited\x1b[39m\x1b[0m with 7\n"
    );
    assert_eq!(
        text(&writes[7]),
        format!(
            "{}: {} with {}\n",
            "test".to_string().bold().dimmed(),
            "exited".red().bold(),
            101
        )
    );
}

#[test]
fn failures_keep_their_order() {
    let collected = collect_failures(vec![
        Some(failed("b", 1, b"")),
        Some(CommandReport::Success),
        Some(failed("a", 2, b"")),
    ]);
    let names: Vec<&str> = collected.iter().map(|o| o.name.as_str()).collect();
    assert_eq!(names, ["b", "a"]);
    assert_eq!(report_failures(&collected).len(), 8);
}

#[test]
fn a_stuck_run_is_given_up_at_the_sixth_idle_look() {
    let mut watchdog = Watchdog::new(3);
    for _ in 0..5 {
        assert!(!watchdog.tick(3));
    }
    assert!(!watchdog.tick(2));
    for _ in 0..5 {
        assert!(!watchdog.tick(3));
    }
    assert!(watchdog.tick(3));
}

#[test]
fn one_value_is_a_recipe_and_two_are_a_path_and_a_recipe() {
    assert_eq!(justfile_arguments(&[]), (None, None));
    assert_eq!(
        justfile_arguments(&strings(&["test"])),
        (None, Some("test".to_string()))
    );
    assert_eq!(
        justfile_arguments(&strings(&["ci/justfile", "test"])),
        (Some("ci/justfile".to_string()), Some("test".to_string()))
    );
}
