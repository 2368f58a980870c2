use awesome_runner::{parse_awesome_toml, ShouldRun};

#[test]
fn runner_without_condition_always_runs() {
    let config = parse_awesome_toml("[[runner]]\nname = \"x\"\ncmd = \"ls\"\n").unwrap();
    let runner = config.get_solo_runner("x").unwrap();
    assert!(matches!(runner.should_run(false), ShouldRun::Yes));
    assert!(matches!(runner.should_run(true), ShouldRun::Yes));
}

#[test]
fn runner_with_condition_skips_when_file_exists() {
    let text = r#"
[[runner]]
name = "icons"
cmd = "cargo"
when.no_file_at = "icons/32x32.png"
"#;
    let config = parse_awesome_toml(text).unwrap();
    let runner = config.get_solo_runner("icons").unwrap();
    assert!(matches!(runner.should_run(false), ShouldRun::Yes));
    match runner.should_run(true) {
        ShouldRun::No(reason) => {
            assert_eq!(reason, "file already exists at icons/32x32.png");
        }
        ShouldRun::Yes => panic!("the runner must be skipped while the file exists"),
    }
}

#[test]
fn invocation_uses_declared_working_dir() {
    let text = r#"
[[runner]]
name = "b"
cmd = "cargo"
args = ["build"]
working_dir = "crates/app"
"#;
    let config = parse_awesome_toml(text).unwrap();
    let runner = config.get_solo_runner("b").unwrap();
    let inv = runner.build_invocation();
    assert_eq!(inv.cwd.as_deref(), Some("crates/app"));
    let argv: Vec<&str> = inv.argv.iter().map(|s| s.as_str()).collect();
    assert_eq!(argv, &["cargo", "build"]);
}

#[test]
fn optional_fields_default_when_absent() {
    let config = parse_awesome_toml("[[runner]]\nname = \"x\"\ncmd = \"ls\"\n").unwrap();
    let runner = config.get_solo_runner("x").unwrap();
    assert!(runner.args.is_empty());
    assert!(runner.working_dir.is_none());
    assert!(!runner.concurrent);
    assert!(!runner.end_all_on_exit);
    assert!(runner.when_no_file_at.is_none());
}

#[test]
fn sequential_failure_aborts_the_batch() {
    assert!(awesome_runner::runner::batch_continues(true));
    assert!(!awesome_runner::runner::batch_continues(false));
}
