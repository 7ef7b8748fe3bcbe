use std::path::PathBuf;

use bfiles::layout::{
    calculate_column_width, format_row, format_summary_table, format_tree_output, summary_display, table_display,
};
use bfiles::size::{byte_format, format_size, format_unit, scale_of, ByteFormat, SizeUnits};
use bfiles::summary::{
    summarize_tree, DirectoryGroup, DirectoryRow, TreeSummary, DEFAULT_CHILDREN_PER_GROUP,
    ROOT_FILES_LABEL,
};
use bfiles::tree::{DirTree, ROOT};

fn names(values: &[&str]) -> Vec<Vec<u8>> {
    values.iter().map(|v| v.as_bytes().to_vec()).collect()
}

fn path_bytes(path: &PathBuf) -> Vec<u8> {
    path.as_os_str().as_encoded_bytes().to_vec()
}

fn shown(path: &[u8]) -> PathBuf {
    PathBuf::from(std::str::from_utf8(path).unwrap())
}

fn text(bytes: &[u8]) -> String {
    String::from_utf8(bytes.to_vec()).unwrap()
}

#[test]
fn groups_descendants_under_their_top_level_directory() {
    let root = PathBuf::from("root").join("projects");
    let mut tree = DirTree::new(&path_bytes(&root));

    let top = tree.add_children(ROOT, names(&["certbuddy", "andreasohlstrom.se", "my plugin"]));
    let (certbuddy, andreas, plugin) = (top.start, top.start + 1, top.start + 2);

    let certbuddy_next = tree.add_children(certbuddy, names(&[".next"])).start;
    let certbuddy_next_dev = tree.add_children(certbuddy_next, names(&["dev"])).start;
    let certbuddy_cache = tree.add_children(certbuddy_next_dev, names(&["cache"])).start;

    let trends = tree.add_children(andreas, names(&["trends"])).start;
    let trends_next = tree.add_children(trends, names(&[".next"])).start;
    let trends_next_dev = tree.add_children(trends_next, names(&["dev"])).start;

    let plugin_next = tree.add_children(plugin, names(&[".next"])).start;

    tree.set_size(certbuddy, 10);
    tree.set_size(certbuddy_next, 5);
    tree.set_size(certbuddy_next_dev, 105);
    tree.set_size(certbuddy_cache, 900);
    tree.set_size(andreas, 1_070);
    tree.set_size(trends, 18);
    tree.set_size(trends_next, 43);
    tree.set_size(trends_next_dev, 899);
    tree.set_size(plugin, 50);
    tree.set_size(plugin_next, 650);
    tree.aggregate();

    let summary = summarize_tree(&tree, 3, 2);
    let groups = summary.groups;

    assert_eq!(summary.total_size, 3_750);
    assert_eq!(groups.len(), 3);

    assert_eq!(shown(&groups[0].root), PathBuf::from("andreasohlstrom.se"));
    assert_eq!(groups[0].total_size, 2_030);
    assert_eq!(
        groups[0].children.iter().map(|child| shown(&child.relative_path)).collect::<Vec<_>>(),
        vec![
            PathBuf::from("andreasohlstrom.se").join("trends"),
            PathBuf::from("andreasohlstrom.se").join("trends").join(".next"),
        ]
    );

    assert_eq!(shown(&groups[1].root), PathBuf::from("certbuddy"));
    assert_eq!(groups[1].total_size, 1_020);
    assert_eq!(
        groups[1].children.iter().map(|child| shown(&child.relative_path)).collect::<Vec<_>>(),
        vec![
            PathBuf::from("certbuddy").join(".next"),
            PathBuf::from("certbuddy").join(".next").join("dev")
        ]
    );

    assert_eq!(shown(&groups[2].root), PathBuf::from("my plugin"));
    assert_eq!(groups[2].total_size, 700);
    assert_eq!(shown(&groups[2].children[0].relative_path), PathBuf::from("my plugin").join(".next"));
}

#[test]
fn summarizing_handles_empty_roots_and_direct_children_without_descendants() {
    let empty_tree = DirTree::new(&path_bytes(&PathBuf::from("root").join("empty")));
    assert!(summarize_tree(&empty_tree, 10, 5).groups.is_empty());

    let mut tree = DirTree::new(&path_bytes(&PathBuf::from("root").join("files")));
    let plugins = tree.add_children(ROOT, names(&["plugins"])).start;
    tree.set_size(plugins, 200);
    tree.aggregate();

    let summary = summarize_tree(&tree, 10, 5);

    assert_eq!(summary.total_size, 200);
    assert_eq!(summary.groups.len(), 1);
    assert_eq!(shown(&summary.groups[0].root), PathBuf::from("plugins"));
    assert_eq!(summary.groups[0].total_size, 200);
    assert!(summary.groups[0].children.is_empty());
}

#[test]
fn root_files_become_pseudo_group_and_total_covers_everything() {
    let mut tree = DirTree::new(b"root");
    let sub = tree.add_children(ROOT, names(&["sub"])).start;

    tree.set_size(ROOT, 50_000);
    tree.set_size(sub, 100);
    tree.aggregate();

    let summary = summarize_tree(&tree, 10, 5);

    assert_eq!(summary.total_size, 50_100);
    assert_eq!(summary.groups.len(), 2);
    assert_eq!(shown(&summary.groups[0].root), PathBuf::from(ROOT_FILES_LABEL));
    assert_eq!(summary.groups[0].total_size, 50_000);
    assert!(summary.groups[0].children.is_empty());
    assert_eq!(shown(&summary.groups[1].root), PathBuf::from("sub"));
}

#[test]
fn tree_output_uses_platform_paths() {
    let child_path = PathBuf::from("certbuddy").join(".next");
    let summary = TreeSummary {
        total_size: 1_020,
        groups: vec![DirectoryGroup {
            root: path_bytes(&PathBuf::from("certbuddy")),
            total_size: 1_020,
            children: vec![DirectoryRow { relative_path: path_bytes(&child_path), size: 1_010 }],
        }],
    };

    let output = format_tree_output(&summary, SizeUnits::Binary);

    assert!(output.contains(&PathBuf::from("certbuddy").display().to_string()));
    assert!(output.contains(&format!("- {}", child_path.display())));
    assert!(output.contains("Total"));
}

#[test]
fn tree_output_is_an_aligned_table() {
    let summary = TreeSummary {
        total_size: 3_072,
        groups: vec![
            DirectoryGroup {
                root: b"photos".to_vec(),
                total_size: 2_048,
                children: vec![DirectoryRow { relative_path: b"photos/raw".to_vec(), size: 1_536 }],
            },
            DirectoryGroup { root: b"(files)".to_vec(), total_size: 1_024, children: vec![] },
        ],
    };

    let output = format_tree_output(&summary, SizeUnits::Binary);
    let expected = [
        "photos       2.00 KB",
        "- photos/raw 1.50 KB",
        "",
        "(files)      1.00 KB",
        "",
        "Total        3.00 KB",
    ]
    .join("\n");
    assert_eq!(output, expected);
    assert_eq!(calculate_column_width(&summary.groups), 12);
}

#[test]
fn tree_output_of_no_groups_is_just_the_total() {
    let summary = TreeSummary { total_size: 0, groups: vec![] };
    assert_eq!(format_tree_output(&summary, SizeUnits::Binary), "\nTotal 0.00 B");
    assert_eq!(summary_display(&summary, SizeUnits::Binary), "No child directories found.");
}

#[test]
fn summary_display_shows_the_table_when_there_are_groups() {
    let summary = TreeSummary {
        total_size: 10,
        groups: vec![DirectoryGroup { root: b"a".to_vec(), total_size: 10, children: vec![] }],
    };
    assert_eq!(summary_display(&summary, SizeUnits::Binary), format_tree_output(&summary, SizeUnits::Binary));
}

#[test]
fn rows_pad_labels_and_right_align_sizes() {
    assert_eq!(format_row("ab", 5, 4, 8, SizeUnits::Binary), "ab     5.00 B");
    assert_eq!(format_row("long label", 5, 2, 2, SizeUnits::Binary), "long label 5.00 B");
}

#[test]
fn size_units_and_labels() {
    assert_eq!(format_unit(&ByteFormat::Bytes), "B");
    assert_eq!(format_unit(&ByteFormat::Kb), "KB");
    assert_eq!(format_unit(&ByteFormat::Mb), "MB");
    assert_eq!(format_unit(&ByteFormat::Gb), "GB");
    assert_eq!(format_unit(&ByteFormat::Tb), "TB");

    assert_eq!(byte_format(1023, SizeUnits::Binary), ByteFormat::Bytes);
    assert_eq!(byte_format(1024, SizeUnits::Binary), ByteFormat::Kb);
    assert_eq!(byte_format(999, SizeUnits::Decimal), ByteFormat::Bytes);
    assert_eq!(byte_format(1000, SizeUnits::Decimal), ByteFormat::Kb);
    assert_eq!(byte_format(1 << 30, SizeUnits::Binary), ByteFormat::Gb);
    assert_eq!(byte_format(u64::MAX, SizeUnits::Binary), ByteFormat::Tb);
    assert_eq!(scale_of(ByteFormat::Mb, SizeUnits::Decimal), 1_000_000);
    assert_eq!(scale_of(ByteFormat::Tb, SizeUnits::Binary), 1u64 << 40);
}

#[test]
fn sizes_show_two_decimals() {
    assert_eq!(format_size(0, SizeUnits::Binary), "0.00 B");
    assert_eq!(format_size(1_536, SizeUnits::Binary), "1.50 KB");
    assert_eq!(format_size(1_500, SizeUnits::Decimal), "1.50 KB");
    assert_eq!(format_size(2_500_000, SizeUnits::Decimal), "2.50 MB");
    assert_eq!(format_size(1_234_567, SizeUnits::Decimal), "1.23 MB");
    assert_eq!(format_size(1_152, SizeUnits::Binary), "1.12 KB");
    assert_eq!(format_size(1_160, SizeUnits::Binary), "1.13 KB");
}

fn float_text(size: u64, units: SizeUnits) -> String {
    let unit = byte_format(size, units);
    let value = size as f64 / scale_of(unit, units) as f64;
    format!("{value:.2} {}", format_unit(&unit))
}

fn sample_sizes() -> Vec<u64> {
    let mut sizes: Vec<u64> = (0..20_000).collect();
    for shift in 10..64 {
        let base = 1u64 << shift;
        for delta in [0u64, 1, 3, 5, 7, 11, 13, 255, 1023, 4095] {
            sizes.push(base.wrapping_add(delta));
            sizes.push(base.wrapping_sub(delta));
            sizes.push(base.wrapping_add(base / 8));
            sizes.push(base.wrapping_add(base / 8 * 3));
        }
    }
    let mut power = 1u64;
    for _ in 0..19 {
        power = power.saturating_mul(10);
        for k in [1u64, 5, 15, 25, 35, 1005, 1015, 1025, 123_456] {
            sizes.push(power.saturating_mul(k));
            sizes.push(power.saturating_mul(k).saturating_add(power / 200));
            sizes.push(power.saturating_mul(k).saturating_add(power / 2000));
        }
    }
    let mut x = 0x9E37_79B9_7F4A_7C15u64;
    for _ in 0..20_000 {
        x ^= x << 13;
        x ^= x >> 7;
        x ^= x << 17;
        sizes.push(x);
        sizes.push(x >> 20);
        sizes.push(x >> 40);
    }
    sizes.push(u64::MAX);
    sizes
}

#[test]
fn binary_sizes_match_float_formatting() {
    for size in sample_sizes() {
        assert_eq!(format_size(size, SizeUnits::Binary), float_text(size, SizeUnits::Binary), "size {size}");
    }
}

#[test]
fn decimal_sizes_match_float_formatting() {
    for size in sample_sizes() {
        assert_eq!(format_size(size, SizeUnits::Decimal), float_text(size, SizeUnits::Decimal), "size {size}");
    }
    assert_eq!(format_size(1_015, SizeUnits::Decimal), "1.01 KB");
    assert_eq!(format_size(1_035, SizeUnits::Decimal), "1.03 KB");
    assert_eq!(format_size(1_125, SizeUnits::Decimal), "1.12 KB");
}

#[test]
fn default_child_limit_is_five() {
    assert_eq!(DEFAULT_CHILDREN_PER_GROUP, 5);
    assert_eq!(ROOT_FILES_LABEL, "(files)");
}

#[test]
fn names_that_are_not_utf8_are_kept_and_shown_lossily() {
    let mut tree = DirTree::new(b"/r");
    let ids = tree.add_children(ROOT, vec![vec![b'a', 0xff, b'b']]);
    let inner = tree.add_children(ids.start, vec![vec![0xc3, b'x']]);
    tree.set_size(inner.start, 7);
    tree.aggregate();
    let summary = summarize_tree(&tree, 10, 5);
    assert_eq!(summary.groups[0].root, vec![b'a', 0xff, b'b']);
    assert_eq!(summary.groups[0].children[0].relative_path, vec![b'a', 0xff, b'b', b'/', 0xc3, b'x']);
    assert_eq!(summary.groups[0].total_size, 7);
    let output = format_tree_output(&summary, SizeUnits::Binary);
    assert!(output.starts_with("a\u{fffd}b "));
    assert!(output.contains("- a\u{fffd}b/\u{fffd}x "));
    let table = format_summary_table(&summary, SizeUnits::Binary);
    assert!(table.contains("a\u{fffd}b "));
}

fn group(root: &str, total_size: u64) -> DirectoryGroup {
    DirectoryGroup { root: root.as_bytes().to_vec(), total_size, children: vec![] }
}

#[test]
fn summary_table_has_a_header_one_row_per_folder_and_a_total() {
    let summary = TreeSummary {
        total_size: 228_090_000,
        groups: vec![group("target", 228_050_000), group("src", 21_860), group(".git", 13_690)],
    };
    let expected = [
        "Folder        Size",
        "target   228.05 MB",
        "src       21.86 KB",
        ".git      13.69 KB",
        "Total    228.09 MB",
    ]
    .join("\n");
    assert_eq!(format_summary_table(&summary, SizeUnits::Decimal), expected);
    assert_eq!(table_display(&summary, SizeUnits::Decimal), expected);
}

#[test]
fn summary_table_widens_for_long_names() {
    let summary = TreeSummary { total_size: 5, groups: vec![group("a much longer name", 5)] };
    let expected = ["Folder                 Size", "a much longer name   5.00 B", "Total                5.00 B"].join("\n");
    assert_eq!(format_summary_table(&summary, SizeUnits::Binary), expected);
    let empty = TreeSummary { total_size: 0, groups: vec![] };
    assert_eq!(table_display(&empty, SizeUnits::Binary), "No child directories found.");
}

#[test]
fn only_the_largest_groups_are_kept_and_the_total_stays() {
    let mut tree = DirTree::new(b"/data");
    let ids = tree.add_children(ROOT, names(&["small", "large", "medium", "tiny"]));
    tree.set_size(ROOT, 7);
    tree.set_size(ids.start, 10);
    tree.set_size(ids.start + 1, 300);
    tree.set_size(ids.start + 2, 200);
    tree.set_size(ids.start + 3, 1);
    tree.aggregate();

    let two = summarize_tree(&tree, 2, DEFAULT_CHILDREN_PER_GROUP);
    let roots: Vec<String> = two.groups.iter().map(|g| text(&g.root)).collect();
    assert_eq!(roots, vec!["large", "medium"]);
    let all = summarize_tree(&tree, 10, DEFAULT_CHILDREN_PER_GROUP);
    let roots: Vec<String> = all.groups.iter().map(|g| text(&g.root)).collect();
    assert_eq!(roots, vec!["large", "medium", "small", "(files)", "tiny"]);
    assert_eq!(two.total_size, 518);
    assert_eq!(all.total_size, 518);
    let none = summarize_tree(&tree, 0, 5);
    assert_eq!(none.total_size, 518);
    assert!(none.groups.is_empty());
}

#[test]
fn equal_groups_are_ordered_by_name() {
    let mut tree = DirTree::new(b"/data");
    let ids = tree.add_children(ROOT, names(&["b", "a", "c"]));
    for id in ids.clone() {
        tree.set_size(id, 5);
    }
    tree.aggregate();
    let summary = summarize_tree(&tree, 10, 5);
    let roots: Vec<String> = summary.groups.iter().map(|g| text(&g.root)).collect();
    assert_eq!(roots, vec!["a", "b", "c"]);
}

#[test]
fn a_larger_child_limit_keeps_the_children_already_listed() {
    let mut tree = DirTree::new(b"/r");
    let top = tree.add_children(ROOT, names(&["g"]));
    let kids = tree.add_children(top.start, names(&["a", "b", "c"]));
    tree.set_size(kids.start, 5);
    tree.set_size(kids.start + 1, 9);
    tree.set_size(kids.start + 2, 7);
    tree.aggregate();
    let one = summarize_tree(&tree, 10, 1);
    let two = summarize_tree(&tree, 10, 2);
    assert_eq!(one.groups[0].root, two.groups[0].root);
    assert_eq!(one.groups[0].total_size, two.groups[0].total_size);
    let paths = |s: &TreeSummary| s.groups[0].children.iter().map(|c| text(&c.relative_path)).collect::<Vec<_>>();
    assert_eq!(paths(&one), vec!["g/b"]);
    assert_eq!(paths(&two), vec!["g/b", "g/c"]);
}
