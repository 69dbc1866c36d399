use tinysh::context::{split_colons, Env, ShellContext};

fn pairs(ps: &[(&str, &str)]) -> Vec<(String, String)> {
    ps.iter().map(|(k, v)| (k.to_string(), v.to_string())).collect()
}

fn words(ws: &[&str]) -> Vec<String> {
    ws.iter().map(|w| w.to_string()).collect()
}

#[test]
fn env_set_get_unset() {
    let mut env = Env::new();
    assert_eq!(env.get("A"), None);
    assert_eq!(env.set("A", "1"), None);
    assert_eq!(env.get("A"), Some("1"));
    assert_eq!(env.set("A", "2"), Some("1".to_string()));
    assert_eq!(env.get("A"), Some("2"));
    assert_eq!(env.unset("A"), Some("2".to_string()));
    assert_eq!(env.get("A"), None);
    assert_eq!(env.unset("A"), None);
}

#[test]
fn later_bindings_win() {
    let env = Env::from_pairs(pairs(&[("A", "1"), ("B", "2"), ("A", "3")]));
    assert_eq!(env.get("A"), Some("3"));
    assert_eq!(env.get("B"), Some("2"));
}

#[test]
fn path_splits_on_colons() {
    let ctx = ShellContext::new(pairs(&[("PATH", "/bin:/usr/bin::x")]), "/".to_string());
    assert_eq!(ctx.paths(), words(&["/bin", "/usr/bin", "", "x"]));
    let ctx = ShellContext::new(pairs(&[]), "/".to_string());
    assert!(ctx.paths().is_empty());
    assert_eq!(split_colons(""), words(&[""]));
    assert_eq!(split_colons("a:"), words(&["a", ""]));
}

#[test]
fn context_env_and_cwd() {
    let mut ctx = ShellContext::new(pairs(&[("HOME", "/h")]), "/start".to_string());
    assert_eq!(ctx.env("HOME"), Some("/h"));
    assert_eq!(ctx.set_env("X", "y"), None);
    assert_eq!(ctx.env("X"), Some("y"));
    assert_eq!(ctx.unset_env("X"), Some("y".to_string()));
    assert_eq!(ctx.cwd(), "/start");
    ctx.set_cwd("/tmp");
    assert_eq!(ctx.cwd(), "/tmp");
    assert!(ctx.registry().check_builtin("pwd"));
    assert_eq!(ctx.builtin_names_iter().len(), 6);
}

#[test]
fn history_flushing() {
    let mut ctx = ShellContext::new(pairs(&[]), "/".to_string());
    ctx.preload_history(&words(&["old1", "", "old2"]));
    assert_eq!(ctx.historys().to_vec(), words(&["old1", "old2"]));
    assert!(ctx.unflushed_history().is_empty());
    ctx.push_history("new");
    assert_eq!(ctx.unflushed_history().to_vec(), words(&["new"]));
    ctx.flush_history();
    assert!(ctx.unflushed_history().is_empty());
    ctx.read_history(&words(&["r1", ""]));
    assert_eq!(ctx.historys().to_vec(), words(&["old1", "old2", "new", "r1"]));
    assert_eq!(ctx.unflushed_history().to_vec(), words(&["r1"]));
    ctx.clear_history();
    assert!(ctx.historys().is_empty());
    assert!(ctx.unflushed_history().is_empty());
}
