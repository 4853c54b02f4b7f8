use cmux_env::scope::Scope;
use cmux_env::script::{is_valid_key, render_script, sh_single_quote};
use cmux_env::shell::{hook_bash, hook_fish, hook_zsh, ShellKind};
use cmux_env::socket_path;
use cmux_env::store::State;
use cmux_env::{is_ancestor, str_eq, str_lt};

#[test]
fn single_quoting_wraps_the_value() {
    assert_eq!(sh_single_quote("bar"), "'bar'");
    assert_eq!(sh_single_quote(""), "''");
}

#[test]
fn single_quoting_escapes_embedded_quotes() {
    // a'b renders as 'a'\''b': close, escaped quote, reopen
    assert_eq!(sh_single_quote("a'b"), "'a'\\''b'");
    assert_eq!(sh_single_quote("'"), "''\\'''");
    assert_eq!(sh_single_quote("it's a 'test'"), "'it'\\''s a '\\''test'\\'''");
}

#[test]
fn quoted_value_round_trips_through_a_posix_reader() {
    // hand-evaluate the quoted word the way a POSIX shell would
    fn sh_eval(word: &str) -> Option<String> {
        let mut out = String::new();
        let mut chars = word.chars();
        let mut in_quote = false;
        loop {
            match chars.next() {
                None => {
                    return if in_quote { None } else { Some(out) };
                }
                Some(c) => {
                    if in_quote {
                        if c == '\'' {
                            in_quote = false;
                        } else {
                            out.push(c);
                        }
                    } else if c == '\'' {
                        in_quote = true;
                    } else if c == '\\' {
                        match chars.next() {
                            Some(e) => out.push(e),
                            None => return None,
                        }
                    } else {
                        out.push(c);
                    }
                }
            }
        }
    }
    for value in ["plain", "has space", "a'b", "''", "end'", "'start", "\\back'slash"] {
        let quoted = sh_single_quote(value);
        assert_eq!(sh_eval(&quoted).as_deref(), Some(value), "value {value:?}");
    }
}

#[test]
fn key_validation_follows_the_identifier_rule() {
    assert!(is_valid_key("FOO"));
    assert!(is_valid_key("_private"));
    assert!(is_valid_key("A1_b2"));
    assert!(!is_valid_key(""));
    assert!(!is_valid_key("1A"));
    assert!(!is_valid_key("A-B"));
    assert!(!is_valid_key("A B"));
    assert!(!is_valid_key("Ä"));
}

#[test]
fn render_bash_assignments_and_removals() {
    let actions = vec![
        ("FOO".to_string(), Some("bar".to_string())),
        ("GONE".to_string(), None),
    ];
    let script = render_script(ShellKind::Bash, &actions, 7);
    assert_eq!(script, "export FOO='bar'\nunset -v GONE\nexport ENVCTL_GEN=7\n");
    let script = render_script(ShellKind::Zsh, &actions, 7);
    assert_eq!(script, "export FOO='bar'\nunset -v GONE\nexport ENVCTL_GEN=7\n");
}

#[test]
fn render_fish_uses_set_statements() {
    let actions = vec![
        ("FOO".to_string(), Some("bar".to_string())),
        ("GONE".to_string(), None),
    ];
    let script = render_script(ShellKind::Fish, &actions, 12);
    assert_eq!(script, "set -x FOO 'bar'\nset -e GONE\nset -x ENVCTL_GEN 12\n");
}

#[test]
fn render_omits_invalid_keys() {
    let actions = vec![
        ("not a key".to_string(), Some("x".to_string())),
        ("OK_KEY".to_string(), Some("y".to_string())),
    ];
    let script = render_script(ShellKind::Bash, &actions, 3);
    assert_eq!(script, "export OK_KEY='y'\nexport ENVCTL_GEN=3\n");
}

#[test]
fn stamp_is_emitted_even_with_nothing_to_do() {
    let st = State::default();
    let (script, gen) = st.export_since(ShellKind::Bash, 0, "/w");
    assert_eq!(gen, 0);
    assert_eq!(script, "export ENVCTL_GEN=0\n");
    let (script, _) = st.export_since(ShellKind::Fish, 0, "/w");
    assert_eq!(script, "set -x ENVCTL_GEN 0\n");
}

#[test]
fn large_generations_render_in_decimal() {
    let mut st = State::default();
    for i in 0..12 {
        st.set(Scope::Global, "N".to_string(), format!("{i}"));
    }
    let (script, gen) = st.export_since(ShellKind::Bash, 12, "/w");
    assert_eq!(gen, 12);
    assert_eq!(script, "export ENVCTL_GEN=12\n");
}

#[test]
fn shell_names_parse() {
    assert!(matches!(ShellKind::from_str("bash"), Some(ShellKind::Bash)));
    assert!(matches!(ShellKind::from_str("zsh"), Some(ShellKind::Zsh)));
    assert!(matches!(ShellKind::from_str("fish"), Some(ShellKind::Fish)));
    assert!(ShellKind::from_str("csh").is_none());
    assert!(ShellKind::from_str("Bash").is_none());
}

#[test]
fn ancestor_rule_matches_component_prefixes() {
    assert!(is_ancestor("/proj", "/proj"));
    assert!(is_ancestor("/proj", "/proj/sub"));
    assert!(!is_ancestor("/proj", "/projx"));
    assert!(!is_ancestor("/proj/sub", "/proj"));
    assert!(is_ancestor("/", "/anything"));
    assert!(is_ancestor("/a/", "/a/b"));
}

#[test]
fn string_order_helpers() {
    assert!(str_eq("same", "same"));
    assert!(!str_eq("same", "sam"));
    assert!(str_lt("ALPHA", "BETA"));
    assert!(str_lt("A", "AB"));
    assert!(!str_lt("B", "B"));
    assert!(!str_lt("C", "B"));
}

#[test]
fn hooks_drive_envctl_exports() {
    assert!(hook_bash().contains("envctl export bash"));
    assert!(hook_bash().contains("trap '__envctl_debug_trap' DEBUG"));
    assert!(hook_zsh().contains("add-zsh-hook preexec envctl_preexec"));
    assert!(hook_fish().contains("--on-event fish_preexec"));
}

#[test]
fn socket_path_lives_under_the_runtime_dir() {
    assert_eq!(socket_path("/run/user/1000"), "/run/user/1000/cmux-envd/envd.sock");
    assert_eq!(socket_path("/tmp"), "/tmp/cmux-envd/envd.sock");
}
