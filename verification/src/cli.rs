//! Command-line configuration and the few decisions `run` makes from it
//! that do not touch the disk, the network or the terminal.

use vstd::prelude::*;

use crate::remote::{parse_remote_path, remote_target_spec, RemoteTarget};
use crate::text::{chars_of, decimal, extend_chars, push_decimal, string_of};

verus! {

/// Traversal engine.
#[derive(Debug, Clone, Copy, PartialEq, Eq)]
pub enum EngineType {
    Rayon,
    Crossbeam,
}

/// Subcommands.
#[derive(Debug, Clone, Copy, PartialEq, Eq)]
pub enum Command {
    /// Update bfiles in place to the latest GitHub release
    Upgrade,
}

/// Parsed command line. Paths are held as the text they display as.
#[derive(Debug, PartialEq, Eq)]
pub struct Config {
    pub command: Option<Command>,
    /// Path to analyze
    pub path: Option<String>,
    /// Traversal engine
    pub engine: EngineType,
    /// Limit traversal depth (`usize::MAX`: unlimited)
    pub max_depth: usize,
    /// Show top N root groups
    pub top_n: usize,
    /// Directories excluded from the scan
    pub exclude: Vec<String>,
    /// Also scan cloud-synced folders
    pub include_cloud: bool,
    /// Emit machine-readable results (the far end of a remote scan)
    pub serve: bool,
}

/// Asset infix of the release built for an OS and architecture (as
/// `std::env::consts` name them), if there is one.
pub open spec fn release_target_spec(os: Seq<char>, arch: Seq<char>) -> Option<Seq<char>> {
    if os == "macos"@ && arch == "aarch64"@ {
        Some("macos-arm64"@)
    } else if os == "macos"@ && arch == "x86_64"@ {
        Some("macos-x86_64"@)
    } else if os == "linux"@ && arch == "x86_64"@ {
        Some("linux-x86_64"@)
    } else if os == "linux"@ && arch == "aarch64"@ {
        Some("linux-aarch64"@)
    } else if os == "windows"@ && arch == "x86_64"@ {
        Some("windows-x86_64"@)
    } else {
        None
    }
}

/// The warning shown when `failed` directories could not be read.
pub open spec fn unreadable_warning_spec(failed: u64) -> Seq<char> {
    "warning: "@ + decimal(failed as nat) + (if failed == 1 {
        " directory"@
    } else {
        " directories"@
    }) + " could not be read; reported sizes are underestimated"@
}

/// The note shown for an excluded directory that lay inside the scan.
pub open spec fn skipped_note_spec(path: Seq<char>, cloud: bool) -> Seq<char> {
    "skipped "@ + path + (if cloud {
        " (cloud storage; pass --include-cloud to scan it)"@
    } else {
        " (--exclude)"@
    })
}

/// Do two strings hold the same characters?
pub fn str_equal(a: &str, b: &str) -> (eq: bool)
    ensures
        eq == (a@ == b@),
{
    let x = chars_of(a);
    let y = chars_of(b);
    chars_equal(x.as_slice(), y.as_slice())
}

/// Do two character sequences hold the same characters?
pub fn chars_equal(x: &[char], y: &[char]) -> (eq: bool)
    ensures
        eq == (x@ == y@),
{
    if x.len() != y.len() {
        return false;
    }
    let mut i: usize = 0;
    while i < x.len()
        invariant
            x@.len() == y@.len(),
            i <= x@.len(),
            forall|j: int| 0 <= j < i ==> x@[j] == y@[j],
        decreases x@.len() - i,
    {
        if x[i] != y[i] {
            return false;
        }
        i = i + 1;
    }
    assert(x@ =~= y@);
    true
}

/// Asset infix used in the release file names (e.g. `bfiles-macos-arm64.tar.gz`).
pub fn release_target(os: &str, arch: &str) -> (target: Option<&'static str>)
    ensures
        match release_target_spec(os@, arch@) {
            Some(t) => target matches Some(s) && s@ == t,
            None => target is None,
        },
{
    if str_equal(os, "macos") && str_equal(arch, "aarch64") {
        Some("macos-arm64")
    } else if str_equal(os, "macos") && str_equal(arch, "x86_64") {
        Some("macos-x86_64")
    } else if str_equal(os, "linux") && str_equal(arch, "x86_64") {
        Some("linux-x86_64")
    } else if str_equal(os, "linux") && str_equal(arch, "aarch64") {
        Some("linux-aarch64")
    } else if str_equal(os, "windows") && str_equal(arch, "x86_64") {
        Some("windows-x86_64")
    } else {
        None
    }
}

/// The warning shown when `failed` directories could not be read
/// (`run` and `run_remote` show it only when `failed > 0`).
pub fn unreadable_warning(failed: u64) -> (text: String)
    ensures
        text@ == unreadable_warning_spec(failed),
{
    let mut v = chars_of("warning: ");
    push_decimal(&mut v, failed);
    let noun = if failed == 1 {
        chars_of(" directory")
    } else {
        chars_of(" directories")
    };
    extend_chars(&mut v, noun.as_slice());
    let tail = chars_of(" could not be read; reported sizes are underestimated");
    extend_chars(&mut v, tail.as_slice());
    string_of(&v)
}

/// The note shown for an excluded directory that lay inside the scan;
/// `cloud` tells a cloud-storage folder from a `--exclude` one.
pub fn skipped_note(path: &str, cloud: bool) -> (note: String)
    ensures
        note@ == skipped_note_spec(path@, cloud),
{
    let mut v = chars_of("skipped ");
    let p = chars_of(path);
    extend_chars(&mut v, p.as_slice());
    let tail = if cloud {
        chars_of(" (cloud storage; pass --include-cloud to scan it)")
    } else {
        chars_of(" (--exclude)")
    };
    extend_chars(&mut v, tail.as_slice());
    string_of(&v)
}

/// What a command line asks for.
#[derive(Debug, PartialEq, Eq)]
pub enum RunMode {
    /// Update the program in place.
    Upgrade,
    /// No path was given: show the help, and exit with status 2.
    Help,
    /// Scan on a remote host over ssh.
    Remote(RemoteTarget),
    /// Scan the path on this machine.
    Local,
}

/// What a command line asks for: the `upgrade` subcommand first; then
/// the help when no path is given; then a remote scan for an scp-style
/// path (unless this is the serving side of one); else a local scan.
pub fn run_mode(config: &Config) -> (mode: RunMode)
    ensures
        config.command is Some ==> mode == RunMode::Upgrade,
        config.command is None && config.path is None ==> mode == RunMode::Help,
        config.command is None && config.path is Some ==> match remote_target_spec(
            config.path.unwrap()@,
        ) {
            Some((d, p)) => if config.serve {
                mode == RunMode::Local
            } else {
                mode matches RunMode::Remote(t) && t.destination@ == d && t.path@ == p
            },
            None => mode == RunMode::Local,
        },
{
    if let Some(Command::Upgrade) = config.command {
        return RunMode::Upgrade;
    }
    match &config.path {
        None => RunMode::Help,
        Some(path) => {
            if !config.serve {
                if let Some(target) = parse_remote_path(path.as_str()) {
                    return RunMode::Remote(target);
                }
            }
            RunMode::Local
        },
    }
}

} // verus!
