use tinysh::commands::builtins::{Cd, Echo, History, HistoryAction};
use tinysh::commands::{init_registry, Builtin, Registry};

fn words(ws: &[&str]) -> Vec<String> {
    ws.iter().map(|w| w.to_string()).collect()
}

#[test]
fn test_new() {
    let registry = Registry::new();
    assert!(
        registry.command_names().is_empty(),
        "Registry should be empty after creation"
    );
}

#[test]
fn test_register() {}

#[test]
fn registry_holds_every_builtin() {
    let reg = init_registry();
    let mut names = reg.command_names();
    names.sort();
    assert_eq!(names, words(&["cd", "echo", "exit", "history", "pwd", "type"]));
    assert_eq!(reg.get_command("cd"), Some(Builtin::Cd));
    assert_eq!(reg.get_command("history"), Some(Builtin::History));
    assert_eq!(reg.get_command("ls"), None);
    assert!(reg.check_builtin("echo"));
    assert!(!reg.check_builtin("cat"));
    assert_eq!(Builtin::Type.name(), "type");
}

#[test]
fn echo_joins_with_spaces() {
    assert_eq!(Echo::line(&words(&["a", "b c", "d"])), "a b c d");
    assert_eq!(Echo::line(&words(&[])), "");
    assert_eq!(Echo::line(&words(&["one"])), "one");
}

#[test]
fn history_arguments() {
    assert_eq!(History::parse_history_args(&words(&[])), Ok(HistoryAction::List { limit: None }));
    assert_eq!(History::parse_history_args(&words(&["3"])), Ok(HistoryAction::List { limit: Some(3) }));
    assert_eq!(History::parse_history_args(&words(&["-c"])), Ok(HistoryAction::Clear));
    assert_eq!(
        History::parse_history_args(&words(&["-r", "f"])),
        Ok(HistoryAction::Read("f".to_string()))
    );
    assert_eq!(
        History::parse_history_args(&words(&["-w", "f"])),
        Ok(HistoryAction::Write("f".to_string()))
    );
    assert_eq!(
        History::parse_history_args(&words(&["-a", "f"])),
        Ok(HistoryAction::Append("f".to_string()))
    );
}

#[test]
fn history_argument_errors() {
    assert_eq!(
        History::parse_history_args(&words(&["-c", "x"])),
        Err("history: too many arguments".to_string())
    );
    assert_eq!(
        History::parse_history_args(&words(&["-r"])),
        Err("history: -r requires a filename".to_string())
    );
    assert_eq!(
        History::parse_history_args(&words(&["-a", "f", "g"])),
        Err("history: too many arguments".to_string())
    );
    assert_eq!(
        History::parse_history_args(&words(&["5", "6"])),
        Err("history: too many arguments".to_string())
    );
    assert_eq!(
        History::parse_history_args(&words(&["-x"])),
        Err("history: unknown argument -x".to_string())
    );
}

#[test]
fn history_listing_window() {
    assert_eq!(History::list_start(10, None), 0);
    assert_eq!(History::list_start(10, Some(3)), 7);
    assert_eq!(History::list_start(10, Some(30)), 0);
    assert_eq!(History::list_start(0, Some(0)), 0);
}

#[test]
fn cd_targets() {
    assert_eq!(Cd::target(&words(&[]), Some("/home/u")), Some("/home/u".to_string()));
    assert_eq!(Cd::target(&words(&["~"]), Some("/home/u")), Some("/home/u".to_string()));
    assert_eq!(Cd::target(&words(&["~"]), None), None);
    assert_eq!(Cd::target(&words(&["/tmp"]), None), Some("/tmp".to_string()));
}
