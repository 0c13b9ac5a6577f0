use envboot::{is_env_file, load_order, DOTENV, ROBLOX_DOTENV};

fn names(v: &[&str]) -> Vec<String> {
    v.iter().map(|s| s.to_string()).collect()
}

#[test]
fn matches_canonical_and_suffixed_names() {
    assert!(is_env_file(".env", DOTENV));
    assert!(is_env_file(".env.local", DOTENV));
    assert!(is_env_file(".env.", DOTENV));
    assert!(is_env_file(".env.roblox", DOTENV));
    assert!(!is_env_file(".envrc", DOTENV));
    assert!(!is_env_file("env", DOTENV));
    assert!(!is_env_file(".en", DOTENV));
    assert!(!is_env_file("x.env", DOTENV));
    assert!(!is_env_file("", DOTENV));
}

#[test]
fn roblox_family_names() {
    assert!(is_env_file(".env.roblox", ROBLOX_DOTENV));
    assert!(is_env_file(".env.roblox.dev", ROBLOX_DOTENV));
    assert!(!is_env_file(".env", ROBLOX_DOTENV));
    assert!(!is_env_file(".env.local", ROBLOX_DOTENV));
    assert!(!is_env_file(".env.robloxx", ROBLOX_DOTENV));
}

#[test]
fn canonical_loads_last_wherever_listed() {
    let first = load_order(names(&[".env", ".env.b", ".env.a"]), DOTENV);
    assert_eq!(first, names(&[".env.a", ".env.b", ".env"]));
    let middle = load_order(names(&[".env.z", ".env", ".env.a"]), DOTENV);
    assert_eq!(middle, names(&[".env.a", ".env.z", ".env"]));
    let last = load_order(names(&[".env.c", ".env.b", ".env"]), DOTENV);
    assert_eq!(last, names(&[".env.b", ".env.c", ".env"]));
}

#[test]
fn suffixed_files_sort_by_name() {
    let order = load_order(
        names(&[".env.production", ".env.local", ".env.Local", ".env.dev", ".env.local.1"]),
        DOTENV,
    );
    assert_eq!(
        order,
        names(&[".env.Local", ".env.dev", ".env.local", ".env.local.1", ".env.production"])
    );
}

#[test]
fn other_entries_are_left_out() {
    let order = load_order(
        names(&["Cargo.toml", ".env.test", ".envrc", "src", ".env", "README.md"]),
        DOTENV,
    );
    assert_eq!(order, names(&[".env.test", ".env"]));
}

#[test]
fn without_canonical_only_suffixed_files() {
    let order = load_order(names(&[".env.roblox.b", "main.rs", ".env.roblox.a"]), ROBLOX_DOTENV);
    assert_eq!(order, names(&[".env.roblox.a", ".env.roblox.b"]));
}

#[test]
fn no_matching_files_gives_empty_order() {
    assert!(load_order(names(&["a.txt", ".envrc", "env"]), DOTENV).is_empty());
    assert!(load_order(Vec::new(), DOTENV).is_empty());
}

#[test]
fn non_ascii_names_sort_by_bytes() {
    let order = load_order(names(&[".env.é", ".env.z", ".env.a"]), DOTENV);
    assert_eq!(order, names(&[".env.a", ".env.z", ".env.é"]));
}
