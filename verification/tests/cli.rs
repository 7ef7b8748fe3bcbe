use bfiles::cli::{release_target, run_mode, skipped_note, unreadable_warning, Command, Config, EngineType, RunMode};
use bfiles::remote::RemoteTarget;
use bfiles::text::{parse_u64, u64_to_string};

#[test]
fn release_targets_cover_the_published_builds() {
    assert_eq!(release_target("macos", "aarch64"), Some("macos-arm64"));
    assert_eq!(release_target("macos", "x86_64"), Some("macos-x86_64"));
    assert_eq!(release_target("linux", "x86_64"), Some("linux-x86_64"));
    assert_eq!(release_target("linux", "aarch64"), Some("linux-aarch64"));
    assert_eq!(release_target("windows", "x86_64"), Some("windows-x86_64"));
    assert_eq!(release_target("windows", "aarch64"), None);
    assert_eq!(release_target("freebsd", "x86_64"), None);
}

#[test]
fn unreadable_warning_uses_singular_and_plural() {
    assert_eq!(
        unreadable_warning(1),
        "warning: 1 directory could not be read; reported sizes are underestimated"
    );
    assert_eq!(
        unreadable_warning(3),
        "warning: 3 directories could not be read; reported sizes are underestimated"
    );
}

#[test]
fn skipped_notes_name_the_reason() {
    assert_eq!(
        skipped_note("/Users/a/Library/CloudStorage", true),
        "skipped /Users/a/Library/CloudStorage (cloud storage; pass --include-cloud to scan it)"
    );
    assert_eq!(skipped_note("/tmp/x", false), "skipped /tmp/x (--exclude)");
}

#[test]
fn numbers_print_and_parse_like_std() {
    for n in [0u64, 7, 10, 999, 1_000_000, u64::MAX] {
        assert_eq!(u64_to_string(n), n.to_string());
        let chars: Vec<char> = n.to_string().chars().collect();
        assert_eq!(parse_u64(&chars), Some(n));
    }
    for bad in ["", "+", "-1", "1 2", "18446744073709551616", "0x10"] {
        let chars: Vec<char> = bad.chars().collect();
        assert_eq!(parse_u64(&chars), bad.parse::<u64>().ok(), "input {bad:?}");
    }
    let plus: Vec<char> = "+12".chars().collect();
    assert_eq!(parse_u64(&plus), Some(12));
}

#[test]
fn enums_compare_by_variant() {
    assert_eq!(Command::Upgrade, Command::Upgrade);
    assert_ne!(EngineType::Rayon, EngineType::Crossbeam);
}

fn config(command: Option<Command>, path: Option<&str>, serve: bool) -> Config {
    Config {
        command,
        path: path.map(|p| p.to_string()),
        engine: EngineType::Crossbeam,
        max_depth: usize::MAX,
        top_n: 10,
        exclude: vec![],
        include_cloud: false,
        serve,
    }
}

#[test]
fn run_mode_follows_the_command_line() {
    assert_eq!(run_mode(&config(Some(Command::Upgrade), Some("."), false)), RunMode::Upgrade);
    assert_eq!(run_mode(&config(None, None, false)), RunMode::Help);
    assert_eq!(run_mode(&config(None, Some("."), false)), RunMode::Local);
    assert_eq!(
        run_mode(&config(None, Some("me@host:/srv"), false)),
        RunMode::Remote(RemoteTarget { destination: "me@host".to_string(), path: "/srv".to_string() })
    );
    assert_eq!(run_mode(&config(None, Some("me@host:/srv"), true)), RunMode::Local);
    assert_eq!(run_mode(&config(None, Some("C:\\data"), false)), RunMode::Local);
}
