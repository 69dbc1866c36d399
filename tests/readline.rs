use tinysh::commands::ExtCommand;
use tinysh::context::ShellContext;
use tinysh::readline::{make_readline_helper, matching, sorted_unique, ReadlineHelper};

fn words(ws: &[&str]) -> Vec<String> {
    ws.iter().map(|w| w.to_string()).collect()
}

fn helper() -> ReadlineHelper {
    let ctx = ShellContext::new(
        vec![("PATH".to_string(), "/bin:/usr/bin".to_string())],
        "/".to_string(),
    );
    make_readline_helper(&ctx)
}

#[test]
fn helper_takes_names_and_path() {
    let h = helper();
    assert_eq!(h.paths().to_vec(), words(&["/bin", "/usr/bin"]));
    assert_eq!(h.builtin_names().len(), 6);
}

#[test]
fn split_at_last_slash() {
    assert_eq!(
        ReadlineHelper::split_path("src/ma"),
        ("src/".to_string(), "ma".to_string(), true)
    );
    assert_eq!(
        ReadlineHelper::split_path("/a/b/"),
        ("/a/b/".to_string(), "".to_string(), true)
    );
    assert_eq!(
        ReadlineHelper::split_path("main"),
        (".".to_string(), "main".to_string(), false)
    );
}

#[test]
fn file_completion_choice() {
    assert!(ReadlineHelper::uses_file_completion("ab", true));
    assert!(ReadlineHelper::uses_file_completion("./ab", false));
    assert!(!ReadlineHelper::uses_file_completion("ab", false));
}

#[test]
fn builtin_search_is_sorted() {
    let h = helper();
    assert_eq!(h.search_builtin("e"), words(&["echo", "exit"]));
    assert_eq!(h.search_builtin("hi"), words(&["history"]));
    assert!(h.search_builtin("zz").is_empty());
}

#[test]
fn command_completion_merges_and_marks_a_single_match() {
    let h = helper();
    assert_eq!(
        h.complete_command("ec", &words(&["ecat", "echo", "ls"])),
        words(&["ecat", "echo"])
    );
    assert_eq!(h.complete_command("his", &words(&["ls"])), words(&["history "]));
    assert_eq!(h.complete_command("ech", &words(&["echo"])), words(&["echo "]));
    assert!(h.complete_command("qq", &words(&["ls"])).is_empty());
}

#[test]
fn sort_and_dedup() {
    assert_eq!(
        sorted_unique(words(&["b", "a", "ab", "b", "", "a"])),
        words(&["", "a", "ab", "b"])
    );
    assert_eq!(sorted_unique(words(&["Z", "a", "é"])), words(&["Z", "a", "é"]));
    assert!(sorted_unique(Vec::new()).is_empty());
}

#[test]
fn prefix_filter_keeps_order() {
    assert_eq!(
        matching(&words(&["cat", "cd", "ls", "cargo"]), "c"),
        words(&["cat", "cd", "cargo"])
    );
    assert_eq!(matching(&words(&["a"]), ""), words(&["a"]));
}

#[test]
fn runnable_needs_a_file_with_an_execute_bit() {
    assert!(ExtCommand::is_runnable(true, 0o100755));
    assert!(ExtCommand::is_runnable(true, 0o100010));
    assert!(ExtCommand::is_runnable(true, 0o100001));
    assert!(!ExtCommand::is_runnable(true, 0o100644));
    assert!(!ExtCommand::is_runnable(false, 0o040755));
}
