use bfiles::cli::{Config, EngineType};
use bfiles::protocol::{progress_text, read_serve_report, serve_report_text, ServeError, ServeLine, ServeReader, ServeReport};
use bfiles::remote::{
    escape, parse_remote_path, remote_command, remote_outcome, shell_quote, unescape, RemoteTarget, PROTOCOL_HEADER,
};
use bfiles::summary::{DirectoryGroup, DirectoryRow, TreeSummary};

#[test]
fn detects_remote_paths_and_leaves_local_ones_alone() {
    let remote = parse_remote_path("andreas@pi01.local:/srv/storage").unwrap();
    assert_eq!(remote.destination, "andreas@pi01.local");
    assert_eq!(remote.path, "/srv/storage");

    let bare_host = parse_remote_path("pi01:data").unwrap();
    assert_eq!(bare_host.destination, "pi01");
    assert_eq!(bare_host.path, "data");

    assert!(parse_remote_path("/usr/local/bin").is_none());
    assert!(parse_remote_path("./notes:today").is_none());
    assert!(parse_remote_path("C:\\Users\\a").is_none(), "drive letters are local");
    assert!(parse_remote_path("host:").is_none(), "empty remote path");
}

#[test]
fn escaping_round_trips() {
    for label in ["plain", "with space", "back\\slash", "new\nline", "both\\\nmix"] {
        assert_eq!(unescape(&escape(label)), label);
    }
}

#[test]
fn quotes_shell_arguments() {
    assert_eq!(shell_quote("/plain/path"), "'/plain/path'");
    assert_eq!(shell_quote("with'quote"), r"'with'\''quote'");
}

#[test]
fn serve_report_round_trips_through_protocol() {
    let input = format!(
        "{PROTOCOL_HEADER}\n\
             P 10\n\
             P 250\n\
             D 300 1500\n\
             W 2\n\
             S skipped /x (cloud storage; pass --include-cloud to scan it)\n\
             T 5000\n\
             G 3000 photos\n\
             R 2000 photos/raw\n\
             G 2000 (files)\n\
             OK\n"
    );

    let (report, seen_progress) = read_serve_report(&input).unwrap();

    assert_eq!(seen_progress, vec![10, 250]);
    assert_eq!(report.items, 300);
    assert_eq!(report.duration_ms, 1500);
    assert_eq!(report.unreadable, 2);
    assert_eq!(report.notes.len(), 1);
    assert_eq!(report.summary.total_size, 5000);
    assert_eq!(report.summary.groups.len(), 2);
    assert_eq!(report.summary.groups[0].root, b"photos".to_vec());
    assert_eq!(report.summary.groups[0].children[0].size, 2000);
    assert!(report.complete);
}

#[test]
fn missing_header_yields_install_hint() {
    let err = read_serve_report("bash: bfiles: command not found\n").unwrap_err();

    assert!(err.message().contains("install.sh"));
}

#[test]
fn escapes_only_backslashes_and_newlines() {
    assert_eq!(escape("a\\b\nc d"), "a\\\\b\\nc d");
    assert_eq!(unescape("trailing\\"), "trailing\\");
    assert_eq!(unescape("\\x\\\\"), "x\\");
}

#[test]
fn remote_paths_split_at_the_first_colon() {
    let t = parse_remote_path("hh:/a:b").unwrap();
    assert_eq!(t, RemoteTarget { destination: "hh".to_string(), path: "/a:b".to_string() });
    assert!(parse_remote_path(":path").is_none());
    assert!(parse_remote_path("no-colon").is_none());
    assert!(parse_remote_path("a\\b:c").is_none());
    assert!(parse_remote_path("é:/x").is_some(), "a one-character host of two bytes is remote");
}

fn config(max_depth: usize, engine: EngineType, include_cloud: bool, exclude: Vec<String>) -> Config {
    Config {
        command: None,
        path: Some("srv:/data".to_string()),
        engine,
        max_depth,
        top_n: 10,
        exclude,
        include_cloud,
        serve: false,
    }
}

#[test]
fn remote_command_passes_the_options_on() {
    let target = RemoteTarget { destination: "srv".to_string(), path: "/data/it's".to_string() };
    assert_eq!(
        remote_command(&target, &config(usize::MAX, EngineType::Crossbeam, false, vec![])),
        "bfiles --serve -p '/data/it'\\''s' -t 10"
    );
    assert_eq!(
        remote_command(
            &target,
            &config(3, EngineType::Rayon, true, vec!["/data/a b".to_string(), "/data/c".to_string()])
        ),
        "bfiles --serve -p '/data/it'\\''s' -t 10 -d 3 -e rayon --include-cloud --exclude '/data/a b' --exclude '/data/c'"
    );
}

fn sample_summary() -> TreeSummary {
    TreeSummary {
        total_size: 5000,
        groups: vec![
            DirectoryGroup {
                root: b"photos with\nnewline".to_vec(),
                total_size: 3000,
                children: vec![
                    DirectoryRow { relative_path: b"photos/raw".to_vec(), size: 2000 },
                    DirectoryRow { relative_path: b"photos/back\\slash dir".to_vec(), size: 500 },
                ],
            },
            DirectoryGroup { root: b"(files)".to_vec(), total_size: 2000, children: vec![] },
        ],
    }
}

#[test]
fn serve_report_text_lists_every_record() {
    let notes = vec!["skipped /x (--exclude)".to_string()];
    let text = serve_report_text(300, 1500, 2, &notes, &sample_summary());
    assert_eq!(
        text,
        "D 300 1500\nW 2\nS skipped /x (--exclude)\nT 5000\nG 3000 photos with\\nnewline\nR 2000 photos/raw\nR 500 photos/back\\\\slash dir\nG 2000 (files)\nOK\n"
    );
    let quiet = serve_report_text(1, 2, 0, &vec![], &TreeSummary { total_size: 0, groups: vec![] });
    assert_eq!(quiet, "D 1 2\nT 0\nOK\n");
}

#[test]
fn what_is_served_reads_back_unchanged() {
    let notes = vec!["note one".to_string(), "two\nlines".to_string()];
    let summary = sample_summary();
    let mut stream = format!("{PROTOCOL_HEADER}\n");
    stream.push_str(&progress_text(7));
    stream.push_str(&progress_text(99));
    stream.push_str(&serve_report_text(300, 1500, 2, &notes, &summary));

    let (report, progress) = read_serve_report(&stream).unwrap();
    assert_eq!(progress, vec![7, 99]);
    assert_eq!(report.items, 300);
    assert_eq!(report.duration_ms, 1500);
    assert_eq!(report.unreadable, 2);
    assert_eq!(report.notes, notes);
    assert_eq!(report.summary, summary);
    assert!(report.complete);
}

#[test]
fn names_that_are_not_utf8_are_served_as_their_shown_text() {
    let summary = TreeSummary {
        total_size: 3,
        groups: vec![DirectoryGroup {
            root: vec![b'a', 0xff],
            total_size: 3,
            children: vec![DirectoryRow { relative_path: vec![b'a', 0xff, b'/', b'b'], size: 2 }],
        }],
    };
    let text = serve_report_text(1, 2, 0, &vec![], &summary);
    assert_eq!(text, "D 1 2\nT 3\nG 3 a\u{fffd}\nR 2 a\u{fffd}/b\nOK\n");
    let (report, _) = read_serve_report(&format!("{PROTOCOL_HEADER}\n{text}")).unwrap();
    assert_eq!(report.summary.groups[0].root, "a\u{fffd}".as_bytes().to_vec());
    assert_eq!(report.summary.groups[0].children[0].relative_path, "a\u{fffd}/b".as_bytes().to_vec());
}

#[test]
fn progress_lines_are_p_records() {
    assert_eq!(progress_text(0), "P 0\n");
    assert_eq!(progress_text(18446744073709551615), "P 18446744073709551615\n");
}

#[test]
fn reading_stops_at_ok_and_notes_an_unfinished_scan() {
    let (report, progress) = read_serve_report("bfiles-serve 1\nP 5\nT 9\n").unwrap();
    assert!(!report.complete);
    assert_eq!(report.summary.total_size, 9);
    assert_eq!(progress, vec![5]);

    let (report, _) = read_serve_report("bfiles-serve 1\nOK\nT 9\n").unwrap();
    assert!(report.complete);
    assert_eq!(report.summary.total_size, 0);
}

#[test]
fn odd_records_are_read_leniently() {
    let text = "bfiles-serve 1\r\nD x\nW nope\nR 5 orphan\nG 12\nR big child\nZ future tag\nP +4\nP -1\nOK\n";
    let (report, progress) = read_serve_report(text).unwrap();
    assert_eq!(report.items, 0);
    assert_eq!(report.duration_ms, 0);
    assert_eq!(report.unreadable, 0);
    assert_eq!(report.summary.groups.len(), 1);
    assert_eq!(report.summary.groups[0].root, b"12".to_vec());
    assert_eq!(report.summary.groups[0].total_size, 0);
    assert_eq!(report.summary.groups[0].children[0].relative_path, b"child".to_vec());
    assert_eq!(report.summary.groups[0].children[0].size, 0);
    assert_eq!(progress, vec![4]);
    assert!(read_serve_report("").is_err());
}

#[test]
fn reader_takes_one_line_at_a_time() {
    let mut reader = ServeReader::new();
    assert_eq!(reader.feed("P 3"), ServeLine::NotServe);
    assert!(!reader.started);
    assert_eq!(reader.feed(PROTOCOL_HEADER), ServeLine::Recorded);
    assert!(reader.started);
    assert_eq!(reader.feed("P 3"), ServeLine::Progress(3));
    assert_eq!(reader.feed("T 42"), ServeLine::Recorded);
    assert_eq!(reader.feed("OK"), ServeLine::Finished);
    assert!(reader.report.complete);
    assert_eq!(reader.report.summary.total_size, 42);
}

#[test]
fn report_starts_empty() {
    let r = ServeReport::new();
    assert_eq!(r.items, 0);
    assert!(r.notes.is_empty());
    assert!(!r.complete);
    assert_eq!(ServeError::NotServe.message().lines().count(), 3);
}

#[test]
fn unfinished_remote_scans_say_how_the_command_ended() {
    assert_eq!(remote_outcome("pi01", true, Some(1)), Ok(()));
    assert_eq!(
        remote_outcome("me@pi01", false, Some(255)),
        Err("remote scan on 'me@pi01' ended before finishing (exit: 255)".to_string())
    );
    assert_eq!(
        remote_outcome("h", false, None),
        Err("remote scan on 'h' ended before finishing (exit: killed)".to_string())
    );
    assert_eq!(
        remote_outcome("h", false, Some(i32::MIN)),
        Err(format!("remote scan on 'h' ended before finishing (exit: {})", i32::MIN))
    );
}

/// Splits a command line the way a POSIX shell does for the characters
/// the remote command uses: spaces, single quotes, backslashes.
fn shell_words(line: &str) -> Vec<String> {
    let mut words = Vec::new();
    let mut cur: Option<String> = None;
    let mut chars = line.chars();
    while let Some(c) = chars.next() {
        match c {
            ' ' => {
                if let Some(w) = cur.take() {
                    words.push(w);
                }
            }
            '\'' => {
                let w = cur.get_or_insert_with(String::new);
                for q in chars.by_ref() {
                    if q == '\'' {
                        break;
                    }
                    w.push(q);
                }
            }
            '\\' => {
                let next = chars.next().unwrap();
                cur.get_or_insert_with(String::new).push(next);
            }
            other => cur.get_or_insert_with(String::new).push(other),
        }
    }
    if let Some(w) = cur {
        words.push(w);
    }
    words
}

#[test]
fn remote_command_splits_back_into_its_arguments() {
    let target = RemoteTarget { destination: "srv".to_string(), path: "/data/it's here".to_string() };
    let command =
        remote_command(&target, &config(4, EngineType::Rayon, true, vec!["/a b".to_string(), "it's".to_string()]));
    assert_eq!(
        shell_words(&command),
        vec![
            "bfiles", "--serve", "-p", "/data/it's here", "-t", "10", "-d", "4", "-e", "rayon", "--include-cloud",
            "--exclude", "/a b", "--exclude", "it's",
        ]
    );
}
