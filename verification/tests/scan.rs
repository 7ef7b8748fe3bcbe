use bfiles::scan::{
    record_listing, scan_due,
    cloud_storage_dirs, components_of_path, is_excluded, parse_entries, parse_entry, paths_equal, read_i32, read_u32, read_u64,
    starts_with_path, strictly_inside, tally_entries, Entry, ParseError, VDIR, VLNK, VREG,
};

fn entry(name: &str, is_dir: bool, is_symlink: bool, size: u64) -> Entry {
    Entry { name: name.as_bytes().to_vec(), is_dir, is_symlink, size }
}

fn parts(p: &str) -> Vec<Vec<u8>> {
    components_of_path(p.as_bytes())
}

fn std_parts(p: &str) -> Vec<Vec<u8>> {
    std::path::Path::new(p).components().map(|c| c.as_os_str().as_encoded_bytes().to_vec()).collect()
}

#[test]
fn components_match_std_paths() {
    for p in [
        "", "/", "//", "a", "a/b", "a//b", "a/./b", "a/b/", "a/b/.", "./a/b", ".", "./", "..",
        "../a", "/a/../b", "/.", "/./a", ".a/b", "a/.hidden", "///x///y///",
    ] {
        assert_eq!(parts(p), std_parts(p), "path {p:?}");
    }
}

#[test]
fn path_equality_and_prefixes_follow_components() {
    assert!(paths_equal(b"/a/b", b"/a//b/"));
    assert!(paths_equal(b"/a/./b", b"/a/b"));
    assert!(!paths_equal(b"./a", b"a"));
    assert!(!paths_equal(b"/a", b"a"));
    assert!(starts_with_path(b"/home/me/docs", b"/home/me"));
    assert!(starts_with_path(b"/home/me", b"/home/me/"));
    assert!(!starts_with_path(b"/home/meow", b"/home/me"));
    assert!(strictly_inside(b"/home/me/Library/CloudStorage", b"/home/me"));
    assert!(!strictly_inside(b"/home/me", b"/home/me"));
    assert!(!strictly_inside(b"/elsewhere", b"/home/me"));
}

#[test]
fn excluded_children_are_matched_by_path() {
    let excludes = vec![b"/scan/skip".to_vec(), b"/other".to_vec()];
    assert!(is_excluded(&excludes, b"/scan", b"skip"));
    assert!(is_excluded(&excludes, b"/scan/", b"skip"));
    assert!(!is_excluded(&excludes, b"/scan", b"keep"));
    assert!(!is_excluded(&vec![], b"/scan", b"skip"));
}

#[test]
fn tally_counts_files_and_lists_subdirectories() {
    let entries = vec![
        entry("a.txt", false, false, 100),
        entry("link", false, true, 5_000),
        entry("dirlink", true, true, 0),
        entry("keep", true, false, 0),
        entry("skip", true, false, 0),
        entry("b.bin", false, false, 23),
        entry("sub", true, false, 0),
    ];
    let excludes = vec![b"/scan/skip".to_vec()];
    let tally = tally_entries(&entries, b"/scan", &excludes);
    assert_eq!(tally.files_size, 123);
    assert_eq!(tally.subdirectories, vec![b"keep".to_vec(), b"sub".to_vec()]);

    let empty = tally_entries(&[], b"/scan", &excludes);
    assert_eq!(empty.files_size, 0);
    assert!(empty.subdirectories.is_empty());
}

fn put_u32(buf: &mut Vec<u8>, v: u32) {
    buf.extend_from_slice(&v.to_le_bytes());
}

/// One entry in the bulk layout: length, returned attributes, name
/// reference, object type, data length, then the name and padding.
fn bulk_entry(name: &[u8], objtype: u32, data_len: u64) -> Vec<u8> {
    let mut e = Vec::new();
    let name_field_end = 4 + 20 + 8 + 4 + 8;
    let stored = name.len() + 1;
    let length = (name_field_end + stored + 7) / 8 * 8;
    put_u32(&mut e, length as u32);
    for _ in 0..5 {
        put_u32(&mut e, 0);
    }
    put_u32(&mut e, (name_field_end - 24) as u32);
    put_u32(&mut e, stored as u32);
    put_u32(&mut e, objtype);
    e.extend_from_slice(&data_len.to_le_bytes());
    e.extend_from_slice(name);
    e.push(0);
    while e.len() < length {
        e.push(0);
    }
    e
}

#[test]
fn bulk_entries_decode_in_order() {
    let mut buf = bulk_entry(b"hello.txt", VREG, 11);
    buf.extend(bulk_entry(b"child", VDIR, 4096));
    buf.extend(bulk_entry(b"link", VLNK, 30));
    let mut out = Vec::new();
    let mut offset = 0;
    for _ in 0..3 {
        offset = parse_entry(&buf, offset, &mut out).unwrap();
    }
    assert_eq!(offset, buf.len());
    assert_eq!(out.len(), 3);
    assert_eq!(out[0].name, b"hello.txt".to_vec());
    assert!(!out[0].is_dir && !out[0].is_symlink);
    assert_eq!(out[0].size, 11);
    assert_eq!(out[1].name, b"child".to_vec());
    assert!(out[1].is_dir);
    assert_eq!(out[1].size, 0);
    assert!(out[2].is_symlink);
    assert_eq!(out[2].size, 0);
}

#[test]
fn malformed_bulk_entries_are_refused() {
    let good = bulk_entry(b"x", VREG, 1);
    let mut out = Vec::new();

    let mut zero = good.clone();
    zero[0..4].copy_from_slice(&0u32.to_le_bytes());
    assert_eq!(parse_entry(&zero, 0, &mut out), Err(ParseError::InvalidData));

    let truncated = &good[..30];
    assert_eq!(parse_entry(truncated, 0, &mut out), Err(ParseError::InvalidData));

    let mut far = good.clone();
    far[24..28].copy_from_slice(&1000i32.to_le_bytes());
    assert_eq!(parse_entry(&far, 0, &mut out), Err(ParseError::InvalidData));

    let mut before = good.clone();
    before[24..28].copy_from_slice(&(-100i32).to_le_bytes());
    assert_eq!(parse_entry(&before, 0, &mut out), Err(ParseError::InvalidData));

    assert_eq!(parse_entry(&good, good.len(), &mut out), Err(ParseError::InvalidData));
    assert!(out.is_empty());
}

#[test]
fn names_stop_at_the_first_nul() {
    let mut e = bulk_entry(b"ab", VREG, 0);
    e[45] = 0;
    let mut out = Vec::new();
    parse_entry(&e, 0, &mut out).unwrap();
    assert_eq!(out[0].name, b"a".to_vec());
}

#[test]
fn fields_read_little_endian() {
    let buf = [1u8, 2, 3, 4, 0xff, 0xff, 0xff, 0xff, 9];
    assert_eq!(read_u32(&buf, 0), Ok(0x0403_0201));
    assert_eq!(read_i32(&buf, 4), Ok(-1));
    assert_eq!(read_u64(&buf, 0), Ok(0xffff_ffff_0403_0201));
    assert_eq!(read_u32(&buf, 6), Err(ParseError::InvalidData));
    assert_eq!(read_u64(&buf, 2), Err(ParseError::InvalidData));
}

#[test]
fn cloud_folders_live_under_the_home_library() {
    assert_eq!(
        cloud_storage_dirs(b"/Users/me"),
        vec![b"/Users/me/Library/CloudStorage".to_vec(), b"/Users/me/Library/Mobile Documents".to_vec()]
    );
    assert_eq!(cloud_storage_dirs(b"/home/me/")[0], b"/home/me/Library/CloudStorage".to_vec());
}

#[test]
fn bulk_listings_decode_as_a_whole_or_not_at_all() {
    let mut buf = bulk_entry(b"one", VREG, 3);
    buf.extend(bulk_entry(b"two", VDIR, 0));
    let both = parse_entries(&buf, 2).unwrap();
    assert_eq!(both.len(), 2);
    assert_eq!(both[1].name, b"two".to_vec());
    assert!(both[1].is_dir);
    assert!(parse_entries(&buf, 0).unwrap().is_empty());
    assert_eq!(parse_entries(&buf, 3).err(), Some(ParseError::InvalidData));
}

#[test]
fn offsets_past_the_end_are_refused_without_overflow() {
    let buf = bulk_entry(b"x", VREG, 1);
    let mut out = Vec::new();
    assert_eq!(parse_entry(&buf, usize::MAX, &mut out), Err(ParseError::InvalidData));
    assert_eq!(parse_entry(&buf, usize::MAX - 2, &mut out), Err(ParseError::InvalidData));
    assert_eq!(read_u32(&buf, usize::MAX), Err(ParseError::InvalidData));
    assert_eq!(read_u64(&buf, usize::MAX - 3), Err(ParseError::InvalidData));
    assert!(out.is_empty());
    let mut huge = buf.clone();
    huge[0..4].copy_from_slice(&u32::MAX.to_le_bytes());
    assert_eq!(parse_entry(&huge, 0, &mut out), Ok(u32::MAX as usize));
}

#[test]
fn directories_are_listed_down_to_the_depth_limit() {
    assert!(scan_due(0, 0));
    assert!(scan_due(2, 2));
    assert!(!scan_due(3, 2));
    assert!(scan_due(1_000, usize::MAX));
}

#[test]
fn recording_a_listing_adds_its_subdirectories_and_counts() {
    let mut tree = bfiles::tree::DirTree::new(b"/scan");
    let entries = vec![entry("a.txt", false, false, 40), entry("sub", true, false, 0), entry("l", false, true, 9)];
    let tally = tally_entries(&entries, b"/scan", &vec![]);
    assert_eq!(tally.listed, 3);
    let visit = record_listing(&mut tree, 0, Some(tally));
    assert_eq!(visit.children, 1..2);
    assert_eq!((visit.items, visit.unreadable), (3, 0));
    assert_eq!(tree.size(0), 40);
    assert_eq!(tree.name(1), b"sub");
    assert_eq!(tree.parent(1), Some(0));

    let failed = record_listing(&mut tree, 1, None);
    assert_eq!(failed.children, 2..2);
    assert_eq!((failed.items, failed.unreadable), (0, 1));
    assert_eq!(tree.len(), 2);
    assert_eq!(tree.size(1), 0);
}
