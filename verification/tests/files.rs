use railyard::command::{Action, Closing, Command, CommandRun, Event, ExitStatus};
use railyard::commands::Commands;
use railyard::dependencies::Dependencies;
use railyard::justfile::{
    dump_arguments, dump_result, read_justfile_for_target, Alias, Dependency, Justfile, JustfileError, Recipe,
};
use railyard::ordered::OrderedMap;
use railyard::railfile::{add_entries, read_railyard_file, try_read_railyard_file, Entry, RailfileError};

fn strings(parts: &[&str]) -> Vec<String> {
    parts.iter().map(|p| p.to_string()).collect()
}

fn dependency(recipe: &str, arguments: &[&str]) -> Dependency {
    Dependency {
        recipe: recipe.to_string(),
        arguments: strings(arguments),
    }
}

fn justfile(first: &str, recipes: Vec<(&str, Vec<Dependency>)>, aliases: &[(&str, &str)]) -> Justfile {
    let mut justfile = Justfile {
        aliases: OrderedMap::new(),
        first: first.to_string(),
        recipes: OrderedMap::new(),
    };
    for (name, dependencies) in recipes {
        let recipe = Recipe {
            name: name.to_string(),
            dependencies,
        };
        justfile.recipes.insert(name.to_string(), recipe);
    }
    for (name, target) in aliases {
        let alias = Alias {
            name: name.to_string(),
            target: target.to_string(),
        };
        justfile.aliases.insert(name.to_string(), alias);
    }
    justfile
}

fn listed(commands: &Commands) -> Vec<(String, Vec<String>, Vec<String>)> {
    (0..commands.len())
        .map(|i| {
            let command = commands.at(i);
            (
                command.name.clone(),
                command.args.clone(),
                command.dependencies.clone(),
            )
        })
        .collect()
}

fn names(commands: &Commands) -> Vec<String> {
    listed(commands).into_iter().map(|c| c.0).collect()
}

#[test]
fn dependencies_are_named_by_recipe_and_arguments() {
    assert_eq!(dependency("build", &[]).name(), "build");
    assert_eq!(dependency("build", &["x"]).name(), "build(x)");
    assert_eq!(dependency("build", &["x", "y z"]).name(), "build(x,y z)");
}

#[test]
fn names_tell_dependencies_apart() {
    let all = [
        dependency("r", &[]),
        dependency("r", &[""]),
        dependency("r", &["", ""]),
        dependency("r", &["a"]),
        dependency("r", &["a", ""]),
        dependency("r", &["", "a"]),
        dependency("r", &["a)", "(b"]),
        dependency("ra", &[]),
    ];
    for (i, x) in all.iter().enumerate() {
        for (j, y) in all.iter().enumerate() {
            assert_eq!(x.name() == y.name(), i == j);
        }
    }
    assert_eq!(dependency("r(a)", &[]).name(), dependency("r", &["a"]).name());
}

#[test]
fn recipes_come_before_aliases() {
    let file = justfile(
        "a",
        vec![("a", vec![]), ("b", vec![])],
        &[("a", "b"), ("c", "b"), ("d", "nothing")],
    );
    assert_eq!(file.recipe("a").unwrap().name, "a");
    assert_eq!(file.recipe("c").unwrap().name, "b");
    assert!(file.recipe("d").is_none());
    assert!(file.recipe("e").is_none());
}

#[test]
fn a_recipe_brings_what_it_depends_on_once() {
    let file = justfile(
        "all",
        vec![
            ("all", vec![dependency("test", &["fast"]), dependency("lint", &[])]),
            ("test", vec![dependency("build", &[]), dependency("fetch", &[])]),
            ("lint", vec![dependency("build", &[])]),
            ("build", vec![dependency("fetch", &[]), dependency("tools", &[])]),
            ("fetch", vec![]),
        ],
        &[],
    );
    let mut commands = Commands::new(true, 2);
    assert!(read_justfile_for_target(&mut commands, &file, None, None).is_ok());
    let call = |rest: &[&str]| {
        let mut args = strings(&["just", "--no-deps"]);
        args.extend(strings(rest));
        args
    };
    assert_eq!(
        listed(&commands),
        vec![
            ("all".to_string(), call(&["all"]), strings(&["test(fast)", "lint"])),
            ("test(fast)".to_string(), call(&["test", "fast"]), strings(&["build", "fetch"])),
            ("lint".to_string(), call(&["lint"]), strings(&["build"])),
            ("build".to_string(), call(&["build"]), strings(&["fetch", "tools"])),
            ("fetch".to_string(), call(&["fetch"]), vec![]),
            ("tools".to_string(), call(&["tools"]), vec![]),
        ]
    );
    assert_eq!(commands.start_error(), None);
}

#[test]
fn every_command_gets_to_run_though_all_of_them_fail() {
    let file = justfile(
        "all",
        vec![
            ("all", vec![dependency("test", &[]), dependency("lint", &[])]),
            ("test", vec![dependency("build", &[])]),
            ("lint", vec![dependency("build", &[]), dependency("tools", &[])]),
            ("build", vec![]),
        ],
        &[],
    );
    let mut commands = Commands::new(true, 1);
    assert!(read_justfile_for_target(&mut commands, &file, None, None).is_ok());
    let mut dependencies: Dependencies<()> = Dependencies::new();
    let mut left: Vec<usize> = (0..commands.len()).collect();
    let mut order = Vec::new();
    while !left.is_empty() {
        let next = left
            .iter()
            .position(|&i| {
                let waits = &commands.at(i).dependencies;
                waits.iter().all(|name| dependencies.ready_already(name))
            })
            .unwrap();
        let command = commands.at(left.remove(next));
        let (command, _) = Command::new(
            command.name.clone(),
            command.args.clone(),
            command.dependencies.clone(),
        );
        let name = command.name.clone();
        let count = command.dependencies.len();
        let (mut run, mut action) = CommandRun::start(command);
        for place in 0..count {
            assert!(matches!(action, Action::AwaitDependencies));
            action = run.step(Event::DependencyReady(place));
        }
        assert!(matches!(action, Action::AcquirePermit));
        assert!(matches!(run.step(Event::PermitAcquired), Action::Spawn { .. }));
        run.step(Event::Spawned);
        let status = ExitStatus {
            success: false,
            code: Some(1),
        };
        match run.step(Event::Exited(Ok(status))) {
            Action::Finish(steps) => {
                assert!(steps.iter().any(|s| matches!(s, Closing::Announce)))
            }
            _ => panic!("the command is to be done"),
        }
        dependencies.ready(&name);
        order.push(name);
    }
    assert_eq!(order, strings(&["build", "test", "tools", "lint", "all"]));
}

#[test]
fn the_path_of_the_justfile_is_passed_on() {
    let file = justfile(
        "a",
        vec![("a", vec![dependency("b", &["1"])]), ("b", vec![])],
        &[("main", "a")],
    );
    let mut commands = Commands::new(true, 2);
    assert!(read_justfile_for_target(&mut commands, &file, Some("x/justfile"), Some("main")).is_ok());
    assert_eq!(
        listed(&commands),
        vec![
            (
                "a".to_string(),
                strings(&["just", "--no-deps", "--justfile", "x/justfile", "a"]),
                strings(&["b(1)"])
            ),
            (
                "b(1)".to_string(),
                strings(&["just", "--no-deps", "--justfile", "x/justfile", "b", "1"]),
                vec![]
            ),
        ]
    );
}

#[test]
fn dependencies_of_one_name_are_one() {
    let file = justfile(
        "a",
        vec![
            ("a", vec![dependency("b", &["1", "2"]), dependency("b", &["1,2"])]),
            ("b", vec![]),
        ],
        &[],
    );
    let mut commands = Commands::new(true, 2);
    assert!(read_justfile_for_target(&mut commands, &file, None, Some("a")).is_ok());
    assert_eq!(names(&commands), strings(&["a", "b(1,2)"]));
    assert_eq!(commands.at(1).args, strings(&["just", "--no-deps", "b", "1", "2"]));
}

#[test]
fn a_circle_is_walked_once() {
    let file = justfile(
        "a",
        vec![
            ("a", vec![dependency("b", &[])]),
            ("b", vec![dependency("a", &[]), dependency("b", &[])]),
        ],
        &[],
    );
    let mut commands = Commands::new(true, 2);
    assert!(read_justfile_for_target(&mut commands, &file, None, None).is_ok());
    assert_eq!(names(&commands), strings(&["a", "b", "a"]));
    assert!(commands.start_error().is_some());
    assert_eq!(commands.reporting(), vec![2, 1]);
}

#[test]
fn a_recipe_that_is_not_there_is_an_error() {
    let file = justfile("a", vec![("a", vec![])], &[]);
    let mut commands = Commands::new(true, 2);
    match read_justfile_for_target(&mut commands, &file, None, Some("zap")) {
        Err(error) => {
            assert_eq!(error.message(), "recipe zap not found");
            assert!(matches!(error, JustfileError::RecipeNotFound(name) if name == "zap"));
        }
        Ok(()) => panic!("an error was due"),
    }
    assert_eq!(commands.len(), 0);
}

#[test]
fn just_is_asked_for_json() {
    assert_eq!(dump_arguments(None), strings(&["--dump", "--dump-format=json"]));
    assert_eq!(
        dump_arguments(Some("p")),
        strings(&["--dump", "--dump-format=json", "--justfile", "p"])
    );
    assert!(dump_result(true, Some(0)).is_ok());
    let message = |code| dump_result(false, code).unwrap_err().message();
    assert_eq!(message(Some(12)), "command 'just' exited with status 12");
    assert_eq!(message(None), "command 'just' exited with status 1");
}

#[test]
fn arrays_of_a_railyard_file_are_commands() {
    let raw = "title = \"x\"\nbuild = [\"cargo\", \"build\", 3, \"-q\"]\n\"a b\" = []\n[table]\nlist = [\"no\"]\n";
    let mut commands = Commands::new(true, 2);
    read_railyard_file(&mut commands, raw);
    let mut tried = Commands::new(true, 2);
    assert!(try_read_railyard_file(&mut tried, raw).is_ok());
    assert_eq!(listed(&tried), listed(&commands));
    assert_eq!(
        listed(&commands),
        vec![
            ("build".to_string(), strings(&["cargo", "build", "-q"]), vec![]),
            ("a b".to_string(), vec![], vec![]),
        ]
    );
    assert_eq!(commands.start_error(), None);
}

#[test]
fn a_railyard_file_has_to_be_toml() {
    let mut commands = Commands::new(true, 2);
    for raw in ["= 3", "a = [\"x\"", "a = [\"x\"]\na = [\"y\"]\n"] {
        assert!(matches!(
            try_read_railyard_file(&mut commands, raw),
            Err(RailfileError::InvalidToml(_))
        ));
    }
    assert_eq!(commands.len(), 0);
    assert!(try_read_railyard_file(&mut commands, "").is_ok());
    assert_eq!(commands.len(), 0);
}

#[test]
fn entries_become_commands_in_order() {
    let entries = vec![
        Entry {
            name: "z".to_string(),
            array: Some(vec![Some("run".to_string()), None, Some("it".to_string())]),
        },
        Entry {
            name: "skipped".to_string(),
            array: None,
        },
        Entry {
            name: "a".to_string(),
            array: Some(vec![]),
        },
    ];
    let mut commands = Commands::new(false, 1);
    add_entries(&mut commands, &entries);
    assert_eq!(
        listed(&commands),
        vec![
            ("z".to_string(), strings(&["run", "it"]), vec![]),
            ("a".to_string(), vec![], vec![]),
        ]
    );
}
