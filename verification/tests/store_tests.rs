use cmux_env::scope::Scope;
use cmux_env::shell::ShellKind;
use cmux_env::store::State;

#[test]
fn generation_advances_once_per_actual_change() {
    let mut st = State::default();
    assert_eq!(st.generation, 0);
    assert!(st.set(Scope::Global, "FOO".to_string(), "bar".to_string()));
    assert_eq!(st.generation, 1);
    // writing the same value again is a no-op
    assert!(!st.set(Scope::Global, "FOO".to_string(), "bar".to_string()));
    assert_eq!(st.generation, 1);
    assert!(st.set(Scope::Global, "FOO".to_string(), "baz".to_string()));
    assert_eq!(st.generation, 2);
    assert!(st.unset(Scope::Global, "FOO".to_string()));
    assert_eq!(st.generation, 3);
    // unsetting an absent key is a no-op
    assert!(!st.unset(Scope::Global, "FOO".to_string()));
    assert_eq!(st.generation, 3);
}

#[test]
fn generation_advances_for_dir_scopes_too() {
    let mut st = State::default();
    assert!(st.set(Scope::Dir("/proj".to_string()), "A".to_string(), "1".to_string()));
    assert_eq!(st.generation, 1);
    assert!(!st.set(Scope::Dir("/proj".to_string()), "A".to_string(), "1".to_string()));
    assert_eq!(st.generation, 1);
    // unsetting in a directory that has no scope is a no-op
    assert!(!st.unset(Scope::Dir("/elsewhere".to_string()), "A".to_string()));
    assert_eq!(st.generation, 1);
    assert!(st.unset(Scope::Dir("/proj".to_string()), "A".to_string()));
    assert_eq!(st.generation, 2);
}

#[test]
fn bootstrap_export_reports_the_new_variable() {
    let mut st = State::default();
    st.set(Scope::Global, "FOO".to_string(), "bar".to_string());
    let (script, gen) = st.export_since(ShellKind::Bash, 0, "/anywhere");
    assert_eq!(gen, 1);
    assert_eq!(script, "export FOO='bar'\nexport ENVCTL_GEN=1\n");
}

#[test]
fn unset_export_reports_the_removal() {
    let mut st = State::default();
    st.set(Scope::Global, "FOO".to_string(), "bar".to_string());
    st.unset(Scope::Global, "FOO".to_string());
    let (script, gen) = st.export_since(ShellKind::Bash, 0, "/anywhere");
    assert_eq!(gen, 2);
    assert_eq!(script, "unset -v FOO\nexport ENVCTL_GEN=2\n");
}

#[test]
fn scope_overlay_picks_the_deepest_ancestor() {
    let mut st = State::default();
    st.set(Scope::Global, "VAR".to_string(), "global".to_string());
    st.set(Scope::Dir("/proj".to_string()), "VAR".to_string(), "local".to_string());
    assert_eq!(st.get_effective("VAR", "/proj/sub"), Some("local".to_string()));
    assert_eq!(st.get_effective("VAR", "/proj"), Some("local".to_string()));
    assert_eq!(st.get_effective("VAR", "/other"), Some("global".to_string()));
    assert_eq!(st.get_effective("MISSING", "/proj"), None);
}

#[test]
fn sibling_directory_does_not_leak() {
    let mut st = State::default();
    st.set(Scope::Dir("/proj".to_string()), "VAR".to_string(), "local".to_string());
    assert_eq!(st.get_effective("VAR", "/projx"), None);
    assert_eq!(st.get_effective("VAR", "/pro"), None);
    assert_eq!(st.get_effective("VAR", "/proj/deep/nest"), Some("local".to_string()));
}

#[test]
fn export_is_idempotent_at_the_new_generation() {
    let mut st = State::default();
    st.set(Scope::Global, "A".to_string(), "1".to_string());
    st.set(Scope::Global, "B".to_string(), "2".to_string());
    let (_, gen) = st.export_since(ShellKind::Bash, 0, "/w");
    let (script2, gen2) = st.export_since(ShellKind::Bash, gen, "/w");
    assert_eq!(gen2, gen);
    assert_eq!(script2, "export ENVCTL_GEN=2\n");
}

#[test]
fn minimal_diff_since_a_generation() {
    let mut st = State::default();
    st.set(Scope::Global, "X".to_string(), "1".to_string());
    let (first, gen) = st.export_since(ShellKind::Bash, 0, "/w");
    assert!(first.contains("export X='1'"));
    st.set(Scope::Global, "Y".to_string(), "2".to_string());
    let (second, gen2) = st.export_since(ShellKind::Bash, gen, "/w");
    assert_eq!(gen2, 2);
    assert!(!second.contains("export X='1'"), "should not re-export unchanged var");
    assert_eq!(second, "export Y='2'\nexport ENVCTL_GEN=2\n");
}

#[test]
fn bootstrap_export_matches_effective_map() {
    let mut st = State::default();
    st.set(Scope::Global, "A".to_string(), "1".to_string());
    st.set(Scope::Global, "B".to_string(), "2".to_string());
    st.set(Scope::Dir("/p".to_string()), "B".to_string(), "override".to_string());
    st.unset(Scope::Global, "A".to_string());
    let effective = st.effective_for_pwd("/p/sub");
    let mut visible: Vec<(String, String)> = effective.entries.clone();
    visible.sort();
    assert_eq!(
        visible,
        vec![("B".to_string(), "override".to_string())]
    );
    // since 0: A was changed and is gone, B is visible with its override
    let (script, _) = st.export_since(ShellKind::Bash, 0, "/p/sub");
    assert_eq!(script, "unset -v A\nexport B='override'\nexport ENVCTL_GEN=4\n");
}

#[test]
fn export_actions_are_sorted_by_key() {
    let mut st = State::default();
    st.set(Scope::Global, "ZULU".to_string(), "z".to_string());
    st.set(Scope::Global, "ALPHA".to_string(), "a".to_string());
    st.set(Scope::Global, "MIKE".to_string(), "m".to_string());
    let (script, _) = st.export_since(ShellKind::Bash, 0, "/w");
    assert_eq!(
        script,
        "export ALPHA='a'\nexport MIKE='m'\nexport ZULU='z'\nexport ENVCTL_GEN=3\n"
    );
}

#[test]
fn dir_event_outside_pwd_is_not_exported() {
    let mut st = State::default();
    st.set(Scope::Dir("/elsewhere".to_string()), "E".to_string(), "1".to_string());
    let (script, gen) = st.export_since(ShellKind::Bash, 0, "/home/me");
    assert_eq!(gen, 1);
    assert_eq!(script, "export ENVCTL_GEN=1\n");
}

#[test]
fn load_applies_entries_in_order_with_change_detection() {
    let mut st = State::default();
    st.load(
        Scope::Global,
        vec![
            ("X".to_string(), "1".to_string()),
            ("X".to_string(), "1".to_string()),
            ("X".to_string(), "2".to_string()),
            ("Y".to_string(), "3".to_string()),
        ],
    );
    // first write, rewrite of same value (no-op), overwrite, fresh key
    assert_eq!(st.generation, 3);
    assert_eq!(st.get_effective("X", "/w"), Some("2".to_string()));
    assert_eq!(st.get_effective("Y", "/w"), Some("3".to_string()));
}

#[test]
fn emptied_directory_scope_is_harmless() {
    let mut st = State::default();
    st.set(Scope::Global, "V".to_string(), "g".to_string());
    st.set(Scope::Dir("/d".to_string()), "V".to_string(), "l".to_string());
    st.unset(Scope::Dir("/d".to_string()), "V".to_string());
    // the scope still exists but contributes nothing
    assert_eq!(st.get_effective("V", "/d"), Some("g".to_string()));
    assert_eq!(st.scoped.len(), 1);
}

#[test]
fn deeper_scope_without_the_key_hides_a_shallower_definition() {
    // The best-match rule picks the deepest ancestor scope as a whole; a key
    // it does not define falls back to the globals, not to a shallower scope.
    let mut st = State::default();
    st.set(Scope::Dir("/a".to_string()), "X".to_string(), "shallow".to_string());
    st.set(Scope::Dir("/a/b".to_string()), "Y".to_string(), "deep".to_string());
    assert_eq!(st.get_effective("X", "/a/b/c"), None);
    assert_eq!(st.get_effective("X", "/a"), Some("shallow".to_string()));
    assert_eq!(st.get_effective("Y", "/a/b/c"), Some("deep".to_string()));
}
