use awesome_runner::{parse_awesome_toml, Config, Error};

const SIMPLE_AWESOME_TMPL: &str = r#"
Some = "stuff"

[[runner]]
name = "my_solo_runner"
cmd = "ls"
args = ["-llh"]

[[runners.build]]
name = "build_stuff"
working_dir = "some-work-dir"
cmd = "cargo"
args = ["build"]

[[runners.dev]]
name = "tauri_icons"
working_dir = "crates/app-desktop/"
when.no_file_at = "icons/32x32.png"
cmd = "cargo"
args = ["tauri", "icon", "icons/app-icon.png"]

# Note: Does a furst cargo build of the app-desktop.
#       This seems to help the future build process.
[[runners.dev]]
name = "cargo_build_tauri_app"
working_dir = "crates/app-desktop/"
cmd = "cargo"
args = ["build"]



"#;

const REFED_AWESOME_TMPL: &str = r#"
Some = "stuff"

[[runner]]
name = "my_solo_runner"
cmd = "ls"
args = ["-llh"]

[[runners.build]]
name = "tauri_icons"
working_dir = "crates/app-desktop/"
when.no_file_at = "icons/32x32.png"
cmd = "cargo"
args = ["tauri", "icon", "icons/app-icon.png"]

[[runners.build]]
name = "pcss"
working_dir = "frontend/"
cmd = "npm"
args = ["run", "pcss"]
concurrent = true
# if this process exit, end the dev session
end_all_on_exit = true

[[runners.dev]]
ref = "build.tauri_icons"

[[runners.dev]]
ref = "build.pcss"
args = ["run_special", "pcss", "--", "-w"]

[[runners.dev2]]
ref = "build.pcss"
args_add = ["--", "-w"]
"#;

#[test]
fn test_parse_simple_awesome_toml() {
    // -- Exec
    let config: Config = parse_awesome_toml(SIMPLE_AWESOME_TMPL).unwrap();

    // -- Check dev runners
    // Number of dev runners.
    let runners = config.get_runners("dev").expect("Should have dev runners.");
    assert_eq!(runners.len(), 2, "Number of dev runners.");
    // Second runner.
    let runner = runners.get(1).unwrap(); // Should be the 'tauri_icons'.
    assert_eq!(runner.name, "cargo_build_tauri_app");

    // -- Check build runners
    // Number of build runners.
    let runners = config.get_runners("build").expect("Should have build runners.");
    assert_eq!(runners.len(), 1, "Number of build runners.");

    // -- Check solo runner
    let runner = config.get_solo_runner("my_solo_runner").expect("Should have the solo runner.");
    assert_eq!(runner.name, "my_solo_runner");
}

#[test]
fn test_parse_refed_awesome_toml() {
    // -- Exec
    let config: Config = parse_awesome_toml(REFED_AWESOME_TMPL).unwrap();

    // -- Check - dev.tauri_icons
    let runner = config
        .get_grouped_runner("dev", "tauri_icons")
        .expect("Should have return a runner");
    assert_eq!(runner.name, "tauri_icons");
    assert_eq!(runner.cmd, "cargo");
    let args: Vec<&str> = runner.args.iter().map(|s| s.as_str()).collect();
    assert_eq!(args, &["tauri", "icon", "icons/app-icon.png"]);

    // -- Check - dev.pcss (for overrides, e.g., args)
    let runner = config.get_grouped_runner("dev", "pcss").expect("Should have return a runner");
    let args: Vec<&str> = runner.args.iter().map(|s| s.as_str()).collect();
    assert_eq!(args, &["run_special", "pcss", "--", "-w"]);

    // -- Check - dev2.pcss (for args_add)
    let runner = config.get_grouped_runner("dev2", "pcss").expect("Should have return a runner");
    let args: Vec<&str> = runner.args.iter().map(|s| s.as_str()).collect();
    assert_eq!(args, &["run", "pcss", "--", "-w"]);
}

#[test]
fn ref_fields_inherit_from_base() {
    // The resolved dev2.pcss keeps every base field it does not override.
    let config = parse_awesome_toml(REFED_AWESOME_TMPL).unwrap();
    let runner = config.get_grouped_runner("dev2", "pcss").unwrap();
    assert_eq!(runner.name, "pcss");
    assert_eq!(runner.cmd, "npm");
    assert_eq!(runner.working_dir.as_deref(), Some("frontend/"));
    assert!(runner.concurrent);
    assert!(runner.end_all_on_exit);
}

#[test]
fn args_add_appends_to_base_args() {
    let text = r#"
[[runners.build]]
name = "icons"
cmd = "cargo"
args = ["icon"]

[[runners.dev]]
ref = "build.icons"
args_add = ["-w"]
"#;
    let config = parse_awesome_toml(text).unwrap();
    let runner = config.get_grouped_runner("dev", "icons").unwrap();
    let args: Vec<&str> = runner.args.iter().map(|s| s.as_str()).collect();
    assert_eq!(args, &["icon", "-w"]);
}

#[test]
fn ref_to_ref_fails_with_reference_error() {
    // dev.pcss only exists as a ref; a ref aimed at it must fail, never
    // resolve transitively.
    let text = r#"
[[runners.build]]
name = "pcss"
cmd = "npm"

[[runners.dev]]
ref = "build.pcss"

[[runners.dev2]]
ref = "dev.pcss"
"#;
    let err = parse_awesome_toml(text).unwrap_err();
    assert!(matches!(err, Error::RefNotFound(ref t) if t == "dev.pcss"));
}

#[test]
fn ref_to_missing_key_fails_with_reference_error() {
    let text = r#"
[[runners.dev]]
ref = "build.nothing_here"
"#;
    let err = parse_awesome_toml(text).unwrap_err();
    assert!(matches!(err, Error::RefNotFound(ref t) if t == "build.nothing_here"));
}

#[test]
fn declaration_without_name_or_ref_fails() {
    let text = r#"
[[runner]]
cmd = "ls"
"#;
    let err = parse_awesome_toml(text).unwrap_err();
    assert!(matches!(err, Error::NoNameOrRef));
}

#[test]
fn missing_cmd_is_a_schema_error() {
    let text = r#"
[[runner]]
name = "x"
"#;
    let err = parse_awesome_toml(text).unwrap_err();
    assert!(matches!(err, Error::MissingField(ref k) if k == "cmd"));
}

#[test]
fn mistyped_args_is_a_schema_error() {
    let text = r#"
[[runner]]
name = "x"
cmd = "ls"
args = "not-an-array"
"#;
    let err = parse_awesome_toml(text).unwrap_err();
    assert!(matches!(err, Error::BadFieldType(ref k) if k == "args"));
}

#[test]
fn invalid_toml_is_a_parse_error() {
    let err = parse_awesome_toml("this is [not toml").unwrap_err();
    assert!(matches!(err, Error::ConfigParse(_)));
}

#[test]
fn solo_runner_last_declaration_wins() {
    let text = r#"
[[runner]]
name = "dup"
cmd = "first"

[[runner]]
name = "dup"
cmd = "second"
"#;
    let config = parse_awesome_toml(text).unwrap();
    let runner = config.get_solo_runner("dup").unwrap();
    assert_eq!(runner.cmd, "second");
}

#[test]
fn select_solo_runner_by_name() {
    let text = r#"
[[runner]]
name = "x"
cmd = "echo"
args = ["hi"]
"#;
    let config = parse_awesome_toml(text).unwrap();
    let selected = config.select("x");
    assert_eq!(selected.len(), 1);
    let inv = selected[0].build_invocation();
    let argv: Vec<&str> = inv.argv.iter().map(|s| s.as_str()).collect();
    assert_eq!(argv, &["echo", "hi"]);
    assert!(inv.cwd.is_none());
}

#[test]
fn select_whole_group_in_order() {
    let config = parse_awesome_toml(SIMPLE_AWESOME_TMPL).unwrap();
    let selected = config.select("dev");
    assert_eq!(selected.len(), 2);
    assert_eq!(selected[0].name, "tauri_icons");
    assert_eq!(selected[1].name, "cargo_build_tauri_app");
}

#[test]
fn select_group_dot_name() {
    let config = parse_awesome_toml(SIMPLE_AWESOME_TMPL).unwrap();
    let selected = config.select("dev.cargo_build_tauri_app");
    assert_eq!(selected.len(), 1);
    assert_eq!(selected[0].name, "cargo_build_tauri_app");
}

#[test]
fn select_nomatch_is_empty_and_no_error() {
    let config = parse_awesome_toml(SIMPLE_AWESOME_TMPL).unwrap();
    let selected = config.select("nomatch");
    assert!(selected.is_empty());
}

#[test]
fn empty_document_selects_nothing() {
    let config = parse_awesome_toml("").unwrap();
    assert!(config.select("anything").is_empty());
    assert!(config.get_runners("anything").is_none());
    assert!(config.get_solo_runner("anything").is_none());
}

#[test]
fn query_with_two_separators_is_a_whole_name() {
    // Only a query with exactly one separator is a group.name pair; this
    // one is tried as a group name, then as a solo name.
    let text = "[[runner]]\nname = \"a.b.c\"\ncmd = \"ls\"\n";
    let config = parse_awesome_toml(text).unwrap();
    let selected = config.select("a.b.c");
    assert_eq!(selected.len(), 1);
    assert_eq!(selected[0].name, "a.b.c");
}

#[test]
fn single_separator_query_never_matches_a_solo() {
    // "x.y" is read as group x, runner y; the solo runner named "x.y" is
    // not reachable through it.
    let text = "[[runner]]\nname = \"x.y\"\ncmd = \"ls\"\n";
    let config = parse_awesome_toml(text).unwrap();
    assert!(config.select("x.y").is_empty());
    assert!(config.get_solo_runner("x.y").is_some());
}

#[test]
fn mistyped_run_condition_is_a_schema_error() {
    let text = "[[runner]]\nname = \"x\"\ncmd = \"ls\"\nwhen.no_file_at = 3\n";
    let err = parse_awesome_toml(text).unwrap_err();
    assert!(matches!(err, Error::BadFieldType(ref k) if k == "when.no_file_at"));
}

#[test]
fn error_messages_render_one_line() {
    let err = parse_awesome_toml("[[runner]]\ncmd = \"ls\"\n").unwrap_err();
    let line = err.message();
    assert_eq!(line, "a runner declaration has no 'name' or 'ref' key");
}
