use rdo::cli::{Cli, CliAction, Commands, GlobalOpts};
use rdo::config::{ConfigData, ConfigType, ScriptConfig};
use rdo::console::OutputLine;
use rdo::error::{join_names, Error};
use rdo::script::{
    load_all_scripts_from_config, load_script_from_config, load_scripts_from_config, Script,
    ScriptType,
};

fn entry(name: &str, cmd: Option<&str>, path: Option<&str>, deps: &[&str], enabled: bool) -> ScriptConfig {
    ScriptConfig {
        name: name.to_string(),
        cmd: cmd.map(|c| c.to_string()),
        path: path.map(|p| p.to_string()),
        script_type: None,
        args: Vec::new(),
        dependencies: deps.iter().map(|d| d.to_string()).collect(),
        enabled,
    }
}

#[test]
fn load_one_script_by_name() {
    let config = ConfigData {
        scripts: vec![entry("build", Some("make"), None, &["deps"], true), entry(
            "deps",
            Some("make deps"),
            None,
            &[],
            true,
        )],
    };
    let script = load_script_from_config("deps", &config).unwrap();
    assert_eq!(script.name, "deps");
    assert_eq!(script.cmd, "make deps");
    assert!(script.path.is_none());
    assert!(matches!(script.script_type, ScriptType::Bash));
    assert!(script.dependencies.is_empty());
    assert!(script.enabled);
}

#[test]
fn load_selected_scripts_in_config_order() {
    let config = ConfigData {
        scripts: vec![
            entry("one", Some("echo 1"), None, &[], true),
            entry("two", Some("echo 2"), None, &[], false),
            entry("three", Some("echo 3"), None, &[], true),
        ],
    };
    let picked = load_scripts_from_config(&config, vec!["three".to_string(), "one".to_string()])
        .unwrap();
    let names: Vec<String> = picked.iter().map(|s| s.name.clone()).collect();
    assert_eq!(names, vec!["one", "three"]);
    // A requested name with no entry is simply not there.
    let picked = load_scripts_from_config(&config, vec!["nine".to_string()]).unwrap();
    assert!(picked.is_empty());
}

#[test]
fn load_all_scripts_keeps_order_and_fields() {
    let config = ConfigData {
        scripts: vec![
            entry("one", Some("echo 1"), None, &["two"], true),
            entry("two", None, Some("/opt/two.sh"), &[], false),
        ],
    };
    let all = load_all_scripts_from_config(&config).unwrap();
    assert_eq!(all.len(), 2);
    assert_eq!(all[0].name, "one");
    assert_eq!(all[0].dependencies, vec!["two".to_string()]);
    assert_eq!(all[1].name, "two");
    // A file-backed script starts with empty shell text; the caller loads
    // the file and installs it.
    assert_eq!(all[1].cmd, "");
    assert_eq!(all[1].path.as_deref(), Some("/opt/two.sh"));
    let loaded = all[1].duplicate().with_command("echo 2".to_string());
    assert_eq!(loaded.cmd, "echo 2");
    assert_eq!(loaded.path.as_deref(), Some("/opt/two.sh"));
    assert_eq!(loaded.name, "two");
    assert!(!loaded.enabled);
}

#[test]
fn first_entry_wins_on_repeated_names() {
    let config = ConfigData {
        scripts: vec![entry("dup", Some("first"), None, &[], true), entry(
            "dup",
            Some("second"),
            None,
            &[],
            true,
        )],
    };
    let script = load_script_from_config("dup", &config).unwrap();
    assert_eq!(script.cmd, "first");
}

#[test]
fn script_duplicate_copies_every_field() {
    let s = Script::new(
        "s",
        None,
        Some("/bin/s.sh".to_string()),
        Some(ScriptType::Bash),
        vec!["--fast".to_string()],
        vec!["dep".to_string()],
        true,
    );
    let d = s.duplicate();
    assert_eq!(d.name, s.name);
    assert_eq!(d.cmd, s.cmd);
    assert_eq!(d.path, s.path);
    assert_eq!(d.args, s.args);
    assert_eq!(d.dependencies, s.dependencies);
    assert_eq!(d.enabled, s.enabled);
}

#[test]
fn error_messages_name_the_offender() {
    assert_eq!(
        Error::DuplicateKey("a".to_string()).describe(),
        "Duplicate task name: a"
    );
    assert_eq!(
        Error::NotFound(None, "x".to_string()).describe(),
        "Task not found: x"
    );
    assert_eq!(
        Error::NotFound(Some("t".to_string()), "x".to_string()).describe(),
        "Dependency of t not found: x"
    );
    assert_eq!(
        Error::CycleDetected(vec!["a".to_string(), "b".to_string()]).describe(),
        "Dependency cycle among: a, b"
    );
    assert_eq!(
        Error::DependencyNotRun("t".to_string(), "d".to_string()).describe(),
        "Dependency of t not run: d"
    );
    assert_eq!(
        Error::TaskDisabled("d".to_string()).describe(),
        "Task is disabled: d"
    );
    assert_eq!(Error::Task("b".to_string()).describe(), "Task failed: b");
    assert_eq!(Error::StdinClosed.describe(), "Stdin closed");
    assert_eq!(
        Error::Io("pipe broke".to_string()).describe(),
        "IO error: pipe broke"
    );
    assert_eq!(
        Error::Unspecified("odd".to_string()).describe(),
        "Unspecified error: odd"
    );
}

#[test]
fn join_names_separates_with_commas() {
    assert_eq!(join_names(&Vec::new()), "");
    assert_eq!(join_names(&vec!["a".to_string()]), "a");
    assert_eq!(
        join_names(&vec!["a".to_string(), "b".to_string(), "c".to_string()]),
        "a, b, c"
    );
}

#[test]
fn config_type_names() {
    assert_eq!(ConfigType::Production.to_string(), "config");
    assert_eq!(ConfigType::Test.to_string(), "config.test");
    assert_eq!(ConfigType::Default.to_string(), "config.default");
    assert_eq!(ConfigType::Test.file_name(), "config/config.test");
}

#[test]
fn output_line_wraps_no_error() {
    let line = OutputLine::new("Running script: build".to_string());
    assert_eq!(line.text, "Running script: build");
    assert!(line.wrapped_error.is_none());
}

#[test]
fn cli_defaults_to_run() {
    let cli = Cli {
        global_opts: GlobalOpts { config: Some("config".to_string()) },
        command: None,
        scripts: Some(vec!["build".to_string()]),
    };
    match cli.into_action() {
        CliAction::Run { scripts, config } => {
            assert_eq!(scripts, Some(vec!["build".to_string()]));
            assert_eq!(config.as_deref(), Some("config"));
        }
        _ => panic!("expected a run"),
    }
    let cli = Cli {
        global_opts: GlobalOpts { config: None },
        command: Some(Commands::List { config: Some("alt".to_string()) }),
        scripts: None,
    };
    match cli.into_action() {
        CliAction::List { config } => assert_eq!(config.as_deref(), Some("alt")),
        _ => panic!("expected a list"),
    }
    let cli = Cli {
        global_opts: GlobalOpts { config: None },
        command: Some(Commands::Run),
        scripts: None,
    };
    assert!(matches!(cli.into_action(), CliAction::Run { scripts: None, config: None }));
}
