use envboot::{
    load_dotenv_files, load_env_file, load_order, record_load, EnvFile, EnvStore, LoadOutcome,
    DOTENV,
};

fn file(name: &str, text: &str) -> EnvFile {
    EnvFile { name: name.to_string(), contents: Ok(text.as_bytes().to_vec()) }
}

fn value(env: &EnvStore, key: &str) -> Option<String> {
    env.get(&key.to_string()).cloned()
}

#[test]
fn canonical_value_wins_over_suffixed() {
    let order = load_order(vec![".env".to_string(), ".env.local".to_string()], DOTENV);
    let files: Vec<EnvFile> = order
        .iter()
        .map(|n| if n == ".env" { file(n, "A=1\n") } else { file(n, "A=2\nB=3\n") })
        .collect();
    let mut env = EnvStore::new();
    let reports = load_dotenv_files(&mut env, &files);
    assert_eq!(reports.len(), 2);
    assert_eq!(reports[0].name, ".env.local");
    assert_eq!(reports[1].name, ".env");
    assert_eq!(value(&env, "A"), Some("1".to_string()));
    assert_eq!(value(&env, "B"), Some("3".to_string()));
}

#[test]
fn file_values_replace_existing_ones() {
    let mut env = EnvStore::new();
    env.set("A".to_string(), "old".to_string());
    env.set("KEEP".to_string(), "yes".to_string());
    let report = load_env_file(&mut env, &file(".env", "A=new\n"));
    assert!(matches!(report.outcome, LoadOutcome::Loaded(_)));
    assert_eq!(value(&env, "A"), Some("new".to_string()));
    assert_eq!(value(&env, "KEEP"), Some("yes".to_string()));
}

#[test]
fn later_line_of_a_file_wins() {
    let mut env = EnvStore::new();
    let report = load_env_file(&mut env, &file(".env", "A=1\n# note\nA=2\n"));
    match report.outcome {
        LoadOutcome::Loaded(pairs) => {
            assert_eq!(pairs, vec![("A".to_string(), "1".to_string()), ("A".to_string(), "2".to_string())]);
        }
        LoadOutcome::Failed(m) => panic!("unexpected failure: {m}"),
    }
    assert_eq!(value(&env, "A"), Some("2".to_string()));
}

#[test]
fn malformed_file_changes_nothing() {
    let mut env = EnvStore::new();
    env.set("A".to_string(), "0".to_string());
    let report = load_env_file(&mut env, &file(".env.bad", "A=1\n1BAD=x\n"));
    assert_eq!(report.name, ".env.bad");
    match report.outcome {
        LoadOutcome::Failed(m) => assert!(m.contains("1BAD=x")),
        LoadOutcome::Loaded(_) => panic!("expected a failure"),
    }
    assert_eq!(value(&env, "A"), Some("0".to_string()));
}

#[test]
fn unreadable_file_reports_its_error() {
    let mut env = EnvStore::new();
    let f = EnvFile { name: ".env.locked".to_string(), contents: Err("permission denied".to_string()) };
    let report = load_env_file(&mut env, &f);
    match report.outcome {
        LoadOutcome::Failed(m) => assert_eq!(m, "permission denied"),
        LoadOutcome::Loaded(_) => panic!("expected a failure"),
    }
    assert!(env.assignments().is_empty());
}

#[test]
fn failure_does_not_stop_later_files() {
    let files = vec![file(".env.a", "X=1\n"), file(".env.b", "=oops\n"), file(".env", "Y=2\n")];
    let mut env = EnvStore::new();
    let reports = load_dotenv_files(&mut env, &files);
    assert!(matches!(reports[0].outcome, LoadOutcome::Loaded(_)));
    assert!(matches!(reports[1].outcome, LoadOutcome::Failed(_)));
    assert!(matches!(reports[2].outcome, LoadOutcome::Loaded(_)));
    assert_eq!(value(&env, "X"), Some("1".to_string()));
    assert_eq!(value(&env, "Y"), Some("2".to_string()));
}

#[test]
fn no_files_no_change() {
    let mut env = EnvStore::new();
    env.set("A".to_string(), "1".to_string());
    let order = load_order(vec!["notes.txt".to_string()], DOTENV);
    let files: Vec<EnvFile> = order.iter().map(|n| file(n, "A=2\n")).collect();
    let reports = load_dotenv_files(&mut env, &files);
    assert!(reports.is_empty());
    assert_eq!(env.assignments().len(), 1);
    assert_eq!(value(&env, "A"), Some("1".to_string()));
}

#[test]
fn byte_order_mark_is_skipped() {
    let mut env = EnvStore::new();
    let mut bytes = vec![0xEF, 0xBB, 0xBF];
    bytes.extend_from_slice(b"KEY=v\n");
    let f = EnvFile { name: ".env".to_string(), contents: Ok(bytes) };
    let report = load_env_file(&mut env, &f);
    assert!(matches!(report.outcome, LoadOutcome::Loaded(_)));
    assert_eq!(value(&env, "KEY"), Some("v".to_string()));
}

#[test]
fn quoted_values_are_unquoted() {
    let mut env = EnvStore::new();
    load_env_file(&mut env, &file(".env", "Q=\"a b\"\nexport E=x\n"));
    assert_eq!(value(&env, "Q"), Some("a b".to_string()));
    assert_eq!(value(&env, "E"), Some("x".to_string()));
}

#[test]
fn recording_a_parse_result() {
    let mut env = EnvStore::new();
    env.set("A".to_string(), "0".to_string());
    let pairs = vec![("A".to_string(), "1".to_string()), ("B".to_string(), "2".to_string())];
    let r = record_load(&mut env, ".env.x".to_string(), Ok(pairs.clone()));
    assert_eq!(r.name, ".env.x");
    assert!(matches!(r.outcome, LoadOutcome::Loaded(ref p) if *p == pairs));
    assert_eq!(value(&env, "A"), Some("1".to_string()));
    assert_eq!(value(&env, "B"), Some("2".to_string()));
    let r = record_load(&mut env, ".env".to_string(), Err("bad line".to_string()));
    assert!(matches!(r.outcome, LoadOutcome::Failed(ref m) if m == "bad line"));
    assert_eq!(value(&env, "A"), Some("1".to_string()));
    assert_eq!(env.assignments().len(), 3);
}
