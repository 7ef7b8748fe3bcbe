//! What a scan does with one directory listing: which entries are counted,
//! which are descended into, and which are left alone; and how a directory
//! listing in the `getattrlistbulk` layout is decoded.

use vstd::prelude::*;

use crate::tree::{push_path, DirTree};

verus! {

/// A single directory entry with just the fields the traversal needs.
pub struct Entry {
    /// Encoded bytes of the entry's file name.
    pub name: Vec<u8>,
    pub is_dir: bool,
    pub is_symlink: bool,
    /// Logical size of the file's data; 0 for non-files.
    pub size: u64,
}

/// Model of an `Entry`.
pub struct EntryView {
    pub name: Seq<u8>,
    pub is_dir: bool,
    pub is_symlink: bool,
    pub size: u64,
}

impl View for Entry {
    type V = EntryView;

    open spec fn view(&self) -> EntryView {
        EntryView {
            name: self.name@,
            is_dir: self.is_dir,
            is_symlink: self.is_symlink,
            size: self.size,
        }
    }
}

/// The work-queue engine: workers take directories off a shared queue and
/// record each one in a shared `DirTree` with `record_listing`.
pub struct CrossbeamTraversal;

/// The fork-join engine: each directory's subdirectories are scanned in
/// parallel, each one recorded with `record_listing`.
pub struct RayonTraversal;

// ---------------------------------------------------------------------------
// Path components (Unix), as `Path::components` yields them.

/// The byte `/`.
pub open spec fn is_sep(b: u8) -> bool {
    b == 47u8
}

/// The bytes after the last separator (all of `p` when there is none).
pub open spec fn last_piece(p: Seq<u8>) -> Seq<u8>
    decreases p.len(),
{
    if p.len() == 0 {
        Seq::empty()
    } else if is_sep(p.last()) {
        Seq::empty()
    } else {
        last_piece(p.drop_last()).push(p.last())
    }
}

/// A piece between separators is a normal component unless it is empty or `.`.
pub open spec fn kept(piece: Seq<u8>) -> Seq<Seq<u8>> {
    if piece.len() == 0 || piece == seq![46u8] {
        Seq::empty()
    } else {
        seq![piece]
    }
}

/// The normal components among the pieces closed by a separator.
pub open spec fn closed_pieces(p: Seq<u8>) -> Seq<Seq<u8>>
    decreases p.len(),
{
    if p.len() == 0 {
        Seq::empty()
    } else if is_sep(p.last()) {
        closed_pieces(p.drop_last()) + kept(last_piece(p.drop_last()))
    } else {
        closed_pieces(p.drop_last())
    }
}

/// The components of a path: the root (written `/`) when it is absolute,
/// a leading `.` when it starts with one, then the pieces between
/// separators, without empty pieces and `.`. Repeated and trailing
/// separators and inner `.` are thus normalized away; `..` is kept.
pub open spec fn path_components(p: Seq<u8>) -> Seq<Seq<u8>> {
    let absolute = p.len() > 0 && is_sep(p[0]);
    let cur_dir = p.len() > 0 && p[0] == 46u8 && (p.len() == 1 || is_sep(p[1]));
    (if absolute {
        seq![seq![47u8]]
    } else if cur_dir {
        seq![seq![46u8]]
    } else {
        Seq::empty()
    }) + closed_pieces(p) + kept(last_piece(p))
}

/// `Path` equality: the same components.
pub open spec fn same_path(a: Seq<u8>, b: Seq<u8>) -> bool {
    path_components(a) == path_components(b)
}

/// `Path::starts_with`: the components of `base` begin those of `p`.
pub open spec fn path_starts_with(p: Seq<u8>, base: Seq<u8>) -> bool {
    path_components(base).len() <= path_components(p).len() && path_components(p).take(
        path_components(base).len() as int,
    ) == path_components(base)
}

/// Is `child` (a path joined onto `dir`) one of the excluded paths?
pub open spec fn excluded(excludes: Seq<Seq<u8>>, dir: Seq<u8>, name: Seq<u8>) -> bool {
    exists|i: int| 0 <= i < excludes.len() && same_path(#[trigger] excludes[i], push_path(dir, name))
}

/// A directory is excluded exactly when its joined path has the same
/// components as one of the excluded paths: an exclude with more
/// components (a path further down) does not exclude it, so the ancestors
/// of an excluded directory are still scanned, and neither does one with
/// fewer (a path further up) or with different components.
pub proof fn lemma_excluded_only_at_the_path(excludes: Seq<Seq<u8>>, dir: Seq<u8>, name: Seq<u8>)
    ensures
        excluded(excludes, dir, name) <==> exists|i: int|
            0 <= i < excludes.len() && path_components(#[trigger] excludes[i]) == path_components(
                push_path(dir, name),
            ),
        forall|e: Seq<u8>|
            path_components(e) != path_components(push_path(dir, name)) ==> !#[trigger] excluded(
                seq![e],
                dir,
                name,
            ),
        forall|e: Seq<u8>|
            #[trigger] path_components(e).len() != path_components(push_path(dir, name)).len()
                ==> !excluded(seq![e], dir, name),
{
    assert forall|e: Seq<u8>|
        path_components(e) != path_components(push_path(dir, name)) implies !#[trigger] excluded(
        seq![e],
        dir,
        name,
    ) by {
        if excluded(seq![e], dir, name) {
            let i = choose|i: int| 0 <= i < 1 && same_path(#[trigger] seq![e][i], push_path(dir, name));
            assert(seq![e][i] == e);
        }
    }
    assert forall|e: Seq<u8>|
        #[trigger] path_components(e).len() != path_components(push_path(dir, name)).len()
            implies !excluded(seq![e], dir, name) by {
        if excluded(seq![e], dir, name) {
            let i = choose|i: int| 0 <= i < 1 && same_path(#[trigger] seq![e][i], push_path(dir, name));
            assert(seq![e][i] == e);
        }
    }
}

/// Is `p` the same piece as `.`?
fn is_dot(piece: &Vec<u8>) -> (r: bool)
    ensures
        r == (piece@ == seq![46u8]),
{
    if piece.len() == 1 && piece[0] == 46u8 {
        assert(piece@ =~= seq![46u8]);
        true
    } else {
        proof {
            if piece@ == seq![46u8] {
                assert(piece@[0] == 46u8);
            }
        }
        false
    }
}

/// The components of `p` (see `path_components`).
pub fn components_of_path(p: &[u8]) -> (comps: Vec<Vec<u8>>)
    ensures
        comps.deep_view() == path_components(p@),
{
    let mut out: Vec<Vec<u8>> = Vec::new();
    let ghost head: Seq<Seq<u8>> = if p@.len() > 0 && is_sep(p@[0]) {
        seq![seq![47u8]]
    } else if p@.len() > 0 && p@[0] == 46u8 && (p@.len() == 1 || is_sep(p@[1])) {
        seq![seq![46u8]]
    } else {
        Seq::empty()
    };
    if p.len() > 0 && p[0] == 47u8 {
        let root = vec![47u8];
        assert(root.deep_view() =~= seq![47u8]);
        out.push(root);
    } else if p.len() > 0 && p[0] == 46u8 && (p.len() == 1 || p[1] == 47u8) {
        let dot = vec![46u8];
        assert(dot.deep_view() =~= seq![46u8]);
        out.push(dot);
    }
    assert(out.deep_view() =~= head);
    let mut cur: Vec<u8> = Vec::new();
    let mut i: usize = 0;
    assert(p@.take(0) =~= Seq::<u8>::empty());
    while i < p.len()
        invariant
            i <= p@.len(),
            out.deep_view() == head + closed_pieces(p@.take(i as int)),
            cur@ == last_piece(p@.take(i as int)),
        decreases p@.len() - i,
    {
        let ghost before = p@.take(i as int);
        assert(p@.take(i + 1).drop_last() =~= before);
        assert(p@.take(i + 1).last() == p@[i as int]);
        if p[i] == 47u8 {
            if cur.len() > 0 && !is_dot(&cur) {
                let ghost o = out.deep_view();
                let ghost c = cur@;
                assert(cur.deep_view() =~= c);
                out.push(cur);
                assert(out.deep_view() =~= o.push(c));
                assert(kept(c) =~= seq![c]);
                assert(o + kept(c) =~= o.push(c));
            } else {
                assert(kept(cur@) =~= Seq::<Seq<u8>>::empty());
                assert(out.deep_view() + kept(cur@) =~= out.deep_view());
            }
            cur = Vec::new();
            assert(cur@ =~= last_piece(p@.take(i + 1)));
        } else {
            cur.push(p[i]);
        }
        i = i + 1;
    }
    assert(p@.take(i as int) =~= p@);
    if cur.len() > 0 && !is_dot(&cur) {
        let ghost o = out.deep_view();
        let ghost c = cur@;
        assert(cur.deep_view() =~= c);
        out.push(cur);
        assert(out.deep_view() =~= o.push(c));
        assert(kept(c) =~= seq![c]);
    } else {
        assert(kept(cur@) =~= Seq::<Seq<u8>>::empty());
    }
    out
}

/// Equality of two component lists.
fn components_equal(a: &Vec<Vec<u8>>, b: &Vec<Vec<u8>>, n: usize) -> (eq: bool)
    requires
        n <= a@.len(),
        n <= b@.len(),
    ensures
        eq == (a.deep_view().take(n as int) == b.deep_view().take(n as int)),
{
    let mut i: usize = 0;
    while i < n
        invariant
            i <= n,
            n <= a@.len(),
            n <= b@.len(),
            a.deep_view().take(i as int) == b.deep_view().take(i as int),
        decreases n - i,
    {
        assert(a@[i as int].deep_view() =~= a@[i as int]@);
        assert(b@[i as int].deep_view() =~= b@[i as int]@);
        if !crate::tree::bytes_equal(a[i].as_slice(), b[i].as_slice()) {
            assert(a.deep_view().take(n as int)[i as int] == a@[i as int]@);
            assert(b.deep_view().take(n as int)[i as int] == b@[i as int]@);
            return false;
        }
        assert(a.deep_view().take(i + 1) =~= a.deep_view().take(i as int).push(a@[i as int]@));
        assert(b.deep_view().take(i + 1) =~= b.deep_view().take(i as int).push(b@[i as int]@));
        i = i + 1;
    }
    true
}

/// `Path` equality of `a` and `b`.
pub fn paths_equal(a: &[u8], b: &[u8]) -> (eq: bool)
    ensures
        eq == same_path(a@, b@),
{
    let ca = components_of_path(a);
    let cb = components_of_path(b);
    if ca.len() != cb.len() {
        return false;
    }
    let eq = components_equal(&ca, &cb, ca.len());
    assert(ca.deep_view().take(ca@.len() as int) =~= ca.deep_view());
    assert(cb.deep_view().take(cb@.len() as int) =~= cb.deep_view());
    eq
}

/// `Path::starts_with`: does `p` lie at or below `base`?
pub fn starts_with_path(p: &[u8], base: &[u8]) -> (r: bool)
    ensures
        r == path_starts_with(p@, base@),
{
    let cp = components_of_path(p);
    let cb = components_of_path(base);
    if cb.len() > cp.len() {
        return false;
    }
    let r = components_equal(&cp, &cb, cb.len());
    assert(cb.deep_view().take(cb@.len() as int) =~= cb.deep_view());
    r
}

/// Is `p` strictly below `base` (at or below it, and not `base` itself)?
/// A skipped directory is reported only when it lies inside the scanned tree.
pub fn strictly_inside(p: &[u8], base: &[u8]) -> (r: bool)
    ensures
        r == (path_starts_with(p@, base@) && !same_path(p@, base@)),
{
    starts_with_path(p, base) && !paths_equal(p, base)
}

/// `home` joined with `Library` and then with `name`.
fn library_dir(home: &[u8], name: &[u8]) -> (p: Vec<u8>)
    ensures
        p@ == push_path(push_path(home@, "Library"@.map_values(|c: char| c as u8)), name@),
{
    let mut p: Vec<u8> = vstd::slice::slice_to_vec(home);
    let library: Vec<u8> = vec![76u8, 105u8, 98u8, 114u8, 97u8, 114u8, 121u8];
    proof {
        reveal_strlit("Library");
        assert(library@ =~= "Library"@.map_values(|c: char| c as u8));
    }
    DirTree::push_name(&mut p, library.as_slice());
    DirTree::push_name(&mut p, name);
    p
}

/// Cloud-synced folders that macOS backs with File Provider daemons, under
/// the home directory `home`: listing them goes through per-provider IPC
/// instead of the disk and can take minutes, so scans skip them by default.
pub fn cloud_storage_dirs(home: &[u8]) -> (dirs: Vec<Vec<u8>>)
    ensures
        dirs.deep_view() == seq![
            push_path(
                push_path(home@, "Library"@.map_values(|c: char| c as u8)),
                "CloudStorage"@.map_values(|c: char| c as u8),
            ),
            push_path(
                push_path(home@, "Library"@.map_values(|c: char| c as u8)),
                "Mobile Documents"@.map_values(|c: char| c as u8),
            ),
        ],
{
    let cloud: Vec<u8> = vec![67u8, 108u8, 111u8, 117u8, 100u8, 83u8, 116u8, 111u8, 114u8, 97u8, 103u8, 101u8];
    let mobile: Vec<u8> = vec![
        77u8, 111u8, 98u8, 105u8, 108u8, 101u8, 32u8, 68u8, 111u8, 99u8, 117u8, 109u8, 101u8,
        110u8, 116u8, 115u8,
    ];
    proof {
        reveal_strlit("CloudStorage");
        reveal_strlit("Mobile Documents");
        assert(cloud@ =~= "CloudStorage"@.map_values(|c: char| c as u8));
        assert(mobile@ =~= "Mobile Documents"@.map_values(|c: char| c as u8));
    }
    let first = library_dir(home, cloud.as_slice());
    let second = library_dir(home, mobile.as_slice());
    let ghost a = first@;
    let ghost b = second@;
    let mut dirs: Vec<Vec<u8>> = Vec::new();
    assert(first.deep_view() =~= a);
    dirs.push(first);
    assert(second.deep_view() =~= b);
    dirs.push(second);
    assert(dirs.deep_view() =~= seq![a, b]);
    dirs
}

// ---------------------------------------------------------------------------
// One directory listing.

/// Is `name` joined onto `dir` one of `excludes`?
pub fn is_excluded(excludes: &Vec<Vec<u8>>, dir: &[u8], name: &[u8]) -> (r: bool)
    ensures
        r == excluded(excludes.deep_view(), dir@, name@),
{
    let mut child: Vec<u8> = vstd::slice::slice_to_vec(dir);
    DirTree::push_name(&mut child, name);
    let mut i: usize = 0;
    while i < excludes.len()
        invariant
            i <= excludes@.len(),
            child@ == push_path(dir@, name@),
            forall|j: int| 0 <= j < i ==> !same_path(#[trigger] excludes.deep_view()[j], child@),
        decreases excludes@.len() - i,
    {
        assert(excludes.deep_view()[i as int] =~= excludes@[i as int]@);
        if paths_equal(excludes[i].as_slice(), child.as_slice()) {
            return true;
        }
        i = i + 1;
    }
    false
}

/// An entry whose size counts toward its directory: neither a symbolic
/// link nor a directory.
pub open spec fn counted(e: EntryView) -> bool {
    !e.is_symlink && !e.is_dir
}

/// An entry that is scanned as a subdirectory: a directory (not a symbolic
/// link) that is not excluded.
pub open spec fn descended(e: EntryView, excludes: Seq<Seq<u8>>, dir: Seq<u8>) -> bool {
    !e.is_symlink && e.is_dir && !excluded(excludes, dir, e.name)
}

/// Sum of the sizes of the counted entries.
pub open spec fn files_total(es: Seq<EntryView>) -> int
    decreases es.len(),
{
    if es.len() == 0 {
        0
    } else {
        files_total(es.drop_last()) + if counted(es.last()) {
            es.last().size as int
        } else {
            0
        }
    }
}

/// Names of the descended entries, in listing order.
pub open spec fn subdirectory_names(es: Seq<EntryView>, excludes: Seq<Seq<u8>>, dir: Seq<u8>) -> Seq<
    Seq<u8>,
>
    decreases es.len(),
{
    if es.len() == 0 {
        Seq::empty()
    } else {
        subdirectory_names(es.drop_last(), excludes, dir) + if descended(
            es.last(),
            excludes,
            dir,
        ) {
            seq![es.last().name]
        } else {
            Seq::empty()
        }
    }
}

/// The models of a listing.
pub open spec fn entries_view(entries: Seq<Entry>) -> Seq<EntryView> {
    entries.map_values(|e: Entry| e@)
}

/// What one directory contributes: the size of its own files, and the
/// subdirectories to scan next.
pub struct DirectoryTally {
    /// How many entries the listing held.
    pub listed: u64,
    pub files_size: u64,
    pub subdirectories: Vec<Vec<u8>>,
}

proof fn lemma_files_total_prefix(es: Seq<EntryView>, i: int)
    requires
        0 <= i <= es.len(),
    ensures
        0 <= files_total(es.take(i)) <= files_total(es),
    decreases es.len() - i,
{
    if i < es.len() {
        lemma_files_total_prefix(es, i + 1);
        assert(es.take(i + 1).drop_last() =~= es.take(i));
    } else {
        assert(es.take(i) =~= es);
    }
    lemma_files_total_nonneg(es.take(i));
}

proof fn lemma_files_total_nonneg(es: Seq<EntryView>)
    ensures
        files_total(es) >= 0,
    decreases es.len(),
{
    if es.len() > 0 {
        lemma_files_total_nonneg(es.drop_last());
    }
}

/// Sorts one directory listing: symbolic links are skipped, directories
/// are scanned next unless excluded, and every other entry's size counts
/// toward the directory.
pub fn tally_entries(entries: &[Entry], dir: &[u8], excludes: &Vec<Vec<u8>>) -> (tally:
    DirectoryTally)
    requires
        files_total(entries_view(entries@)) <= u64::MAX,
    ensures
        tally.listed == entries@.len(),
        tally.files_size == files_total(entries_view(entries@)),
        tally.subdirectories.deep_view() == subdirectory_names(
            entries_view(entries@),
            excludes.deep_view(),
            dir@,
        ),
{
    let ghost es = entries_view(entries@);
    let ghost ex = excludes.deep_view();
    let mut files_size: u64 = 0;
    let mut subdirectories: Vec<Vec<u8>> = Vec::new();
    let mut i: usize = 0;
    while i < entries.len()
        invariant
            i <= entries@.len(),
            es == entries_view(entries@),
            ex == excludes.deep_view(),
            files_total(es) <= u64::MAX,
            files_size == files_total(es.take(i as int)),
            subdirectories.deep_view() == subdirectory_names(es.take(i as int), ex, dir@),
        decreases entries@.len() - i,
    {
        let entry = &entries[i];
        let ghost e = es[i as int];
        assert(e == entry@);
        assert(es.take(i + 1).drop_last() =~= es.take(i as int));
        assert(es.take(i + 1).last() == e);
        proof {
            lemma_files_total_prefix(es, i + 1);
        }
        if entry.is_symlink {
        } else if entry.is_dir {
            if !is_excluded(excludes, dir, entry.name.as_slice()) {
                let name = vstd::slice::slice_to_vec(entry.name.as_slice());
                let ghost before = subdirectories.deep_view();
                assert(name.deep_view() =~= e.name);
                subdirectories.push(name);
                assert(subdirectories.deep_view() =~= before.push(e.name));
                assert(before + seq![e.name] =~= before.push(e.name));
            } else {
                assert(subdirectories.deep_view() + Seq::<Seq<u8>>::empty()
                    =~= subdirectories.deep_view());
            }
        } else {
            files_size = files_size + entry.size;
        }
        proof {
            if !descended(e, ex, dir@) {
                assert(subdirectories.deep_view() + Seq::<Seq<u8>>::empty()
                    =~= subdirectories.deep_view());
            }
        }
        i = i + 1;
    }
    assert(es.take(i as int) =~= es);
    DirectoryTally { listed: entries.len() as u64, files_size, subdirectories }
}

/// Is a directory found at `depth` (the root is at 0) listed? Only down to
/// `max_depth`; deeper ones stay in the tree, unmeasured.
pub fn scan_due(depth: usize, max_depth: usize) -> (due: bool)
    ensures
        due == (depth <= max_depth),
{
    depth <= max_depth
}

/// What recording one directory gives the scan: the new nodes to scan one
/// level deeper, the entries to add to the item count, and the directories
/// to add to the count of unreadable ones.
pub struct Visit {
    pub children: std::ops::Range<u32>,
    pub items: u64,
    pub unreadable: u64,
}

/// Records what became of directory `id`: with its tally (`Some`), its own
/// files' size and one new node per subdirectory to scan; when it could not
/// be read (`None`), nothing but one more unreadable directory.
pub fn record_listing(tree: &mut DirTree, id: u32, listing: Option<DirectoryTally>) -> (v: Visit)
    requires
        old(tree).wf(),
        id < old(tree).node_count(),
        listing matches Some(t) ==> old(tree).node_count() + t.subdirectories@.len() <= u32::MAX
            && crate::tree::lens_total(old(tree).names_view()) + crate::tree::lens_total(
            t.subdirectories.deep_view(),
        ) <= u32::MAX,
    ensures
        final(tree).wf(),
        match listing {
            None => {
                &&& final(tree).parents_view() == old(tree).parents_view()
                &&& final(tree).names_view() == old(tree).names_view()
                &&& final(tree).sizes_view() == old(tree).sizes_view()
                &&& v.children.start == old(tree).node_count()
                &&& v.children.end == old(tree).node_count()
                &&& v.items == 0
                &&& v.unreadable == 1
            },
            Some(t) => {
                &&& final(tree).parents_view() == old(tree).parents_view() + Seq::new(
                    t.subdirectories@.len(),
                    |k: int| id,
                )
                &&& final(tree).names_view() == old(tree).names_view()
                    + t.subdirectories.deep_view()
                &&& final(tree).sizes_view() == old(tree).sizes_view().update(
                    id as int,
                    t.files_size,
                ) + Seq::new(t.subdirectories@.len(), |k: int| 0u64)
                &&& v.children.start == old(tree).node_count()
                &&& v.children.end == final(tree).node_count()
                &&& v.items == t.listed
                &&& v.unreadable == 0
            },
        },
{
    match listing {
        None => {
            let n = tree.len() as u32;
            Visit { children: n..n, items: 0, unreadable: 1 }
        },
        Some(t) => {
            tree.set_size(id, t.files_size);
            let children = tree.add_children(id, t.subdirectories);
            Visit { children, items: t.listed, unreadable: 0 }
        },
    }
}

// ---------------------------------------------------------------------------
// Directory listings in the `getattrlistbulk` layout (macOS).
//
// Each entry, in canonical order (fixed because invalid attributes are
// packed as zeroed slots):
//   u32              length of the whole entry, including this field
//   attribute_set_t  returned attributes (5 x u32 = 20 bytes)
//   attrreference_t  name (i32 offset from this field, u32 length)
//   u32              object type
//   u64              data length
// Numbers are little-endian, the byte order of every macOS target.

/// Object type of a regular file.
pub const VREG: u32 = 1;

/// Object type of a directory.
pub const VDIR: u32 = 2;

/// Object type of a symbolic link.
pub const VLNK: u32 = 5;

/// Why a listing could not be decoded.
#[derive(Debug, Clone, Copy, PartialEq, Eq)]
pub enum ParseError {
    /// The layout does not hold together: a field lies outside the buffer,
    /// an entry has length 0, or an offset is out of range.
    InvalidData,
}

/// Value of four little-endian bytes.
pub open spec fn le_u32(b: Seq<u8>) -> int {
    b[0] + 256 * b[1] + 65536 * b[2] + 16777216 * b[3]
}

/// Value of eight little-endian bytes.
pub open spec fn le_u64(b: Seq<u8>) -> int {
    le_u32(b) + 4294967296 * le_u32(b.skip(4))
}

/// The `u32` at `off`, if it lies inside `buf`.
pub open spec fn field_u32(buf: Seq<u8>, off: int) -> Option<u32> {
    if 0 <= off && off + 4 <= buf.len() {
        Some(le_u32(buf.subrange(off, off + 4)) as u32)
    } else {
        None
    }
}

/// The `i32` at `off` (two's complement), if it lies inside `buf`.
pub open spec fn field_i32(buf: Seq<u8>, off: int) -> Option<i32> {
    match field_u32(buf, off) {
        Some(v) => Some(
            if v < 0x8000_0000 {
                v as i32
            } else {
                (v - 0x1_0000_0000) as i32
            },
        ),
        None => None,
    }
}

/// The `u64` at `off`, if it lies inside `buf`.
pub open spec fn field_u64(buf: Seq<u8>, off: int) -> Option<u64> {
    if 0 <= off && off + 8 <= buf.len() {
        Some(le_u64(buf.subrange(off, off + 8)) as u64)
    } else {
        None
    }
}

/// Position of the first NUL at or after `i` (the length when there is none).
pub open spec fn nul_from(raw: Seq<u8>, i: int) -> int
    decreases raw.len() - i,
{
    if i < 0 || i >= raw.len() {
        raw.len() as int
    } else if raw[i] == 0 {
        i
    } else {
        nul_from(raw, i + 1)
    }
}

/// A name's bytes: the stored bytes up to the first NUL.
pub open spec fn cut_at_nul(raw: Seq<u8>) -> Seq<u8> {
    raw.take(nul_from(raw, 0))
}

/// The entry that starts at `start`, and where the next one starts.
pub open spec fn parse_entry_spec(buf: Seq<u8>, start: int) -> Option<(EntryView, int)> {
    let name_field = start + 24;
    match (
        field_u32(buf, start),
        field_i32(buf, name_field),
        field_u32(buf, name_field + 4),
        field_u32(buf, name_field + 8),
        field_u64(buf, name_field + 12),
    ) {
        (Some(length), Some(offset), Some(name_len), Some(objtype), Some(data_len)) => {
            let name_start = name_field + offset;
            if length == 0 || start + length > usize::MAX || name_start < 0 || name_start
                + name_len > buf.len() {
                None
            } else {
                Some(
                    (
                        EntryView {
                            name: cut_at_nul(buf.subrange(name_start, name_start + name_len)),
                            is_dir: objtype == VDIR,
                            is_symlink: objtype == VLNK,
                            size: if objtype == VREG {
                                data_len
                            } else {
                                0
                            },
                        },
                        start + length,
                    ),
                )
            }
        },
        _ => None,
    }
}

/// Reads the `u32` at `off`.
pub fn read_u32(buf: &[u8], off: usize) -> (r: Result<u32, ParseError>)
    ensures
        match field_u32(buf@, off as int) {
            Some(v) => r == Ok::<u32, ParseError>(v),
            None => r == Err::<u32, ParseError>(ParseError::InvalidData),
        },
{
    if off > buf.len() || buf.len() - off < 4 {
        return Err(ParseError::InvalidData);
    }
    let v: u32 = buf[off] as u32 + (buf[off + 1] as u32) * 256 + (buf[off + 2] as u32) * 65536 + (
    buf[off + 3] as u32) * 16777216;
    assert(buf@.subrange(off as int, off + 4)[1] == buf@[off + 1]);
    assert(buf@.subrange(off as int, off + 4)[2] == buf@[off + 2]);
    assert(buf@.subrange(off as int, off + 4)[3] == buf@[off + 3]);
    Ok(v)
}

/// Reads the `i32` at `off`.
pub fn read_i32(buf: &[u8], off: usize) -> (r: Result<i32, ParseError>)
    ensures
        match field_i32(buf@, off as int) {
            Some(v) => r == Ok::<i32, ParseError>(v),
            None => r == Err::<i32, ParseError>(ParseError::InvalidData),
        },
{
    let u = read_u32(buf, off)?;
    if u < 0x8000_0000u32 {
        Ok(u as i32)
    } else {
        let low = (u - 0x8000_0000u32) as i32;
        Ok(low - 0x7FFF_FFFFi32 - 1)
    }
}

/// Reads the `u64` at `off`.
pub fn read_u64(buf: &[u8], off: usize) -> (r: Result<u64, ParseError>)
    ensures
        match field_u64(buf@, off as int) {
            Some(v) => r == Ok::<u64, ParseError>(v),
            None => r == Err::<u64, ParseError>(ParseError::InvalidData),
        },
{
    if off > buf.len() || buf.len() - off < 8 {
        return Err(ParseError::InvalidData);
    }
    let low = read_u32(buf, off)?;
    let high = read_u32(buf, off + 4)?;
    let v: u64 = low as u64 + (high as u64) * 4294967296u64;
    let ghost b = buf@.subrange(off as int, off + 8);
    assert(b.skip(4) =~= buf@.subrange(off + 4, off + 8));
    assert(b.subrange(0, 4) =~= buf@.subrange(off as int, off + 4));
    assert(le_u32(b) == le_u32(buf@.subrange(off as int, off + 4))) by {
        assert(b[0] == buf@.subrange(off as int, off + 4)[0]);
        assert(b[1] == buf@.subrange(off as int, off + 4)[1]);
        assert(b[2] == buf@.subrange(off as int, off + 4)[2]);
        assert(b[3] == buf@.subrange(off as int, off + 4)[3]);
    }
    Ok(v)
}

/// Position of the first NUL in `raw` (its length when there is none).
fn first_nul(raw: &[u8]) -> (p: usize)
    ensures
        p == nul_from(raw@, 0),
        p <= raw@.len(),
{
    let mut i: usize = 0;
    while i < raw.len() && raw[i] != 0
        invariant
            i <= raw@.len(),
            nul_from(raw@, 0) == nul_from(raw@, i as int),
        decreases raw@.len() - i,
    {
        i = i + 1;
    }
    i
}

/// Decodes the entry that starts at `start`, appends it to `out` and gives
/// where the next entry starts; an error, and `out` unchanged, when the
/// layout does not hold together.
pub fn parse_entry(buf: &[u8], start: usize, out: &mut Vec<Entry>) -> (r: Result<usize, ParseError>)
    requires
        buf@.len() <= isize::MAX,
    ensures
        match parse_entry_spec(buf@, start as int) {
            Some((e, next)) => r == Ok::<usize, ParseError>(next as usize) && entries_view(
                final(out)@,
            ) == entries_view(old(out)@).push(e),
            None => r == Err::<usize, ParseError>(ParseError::InvalidData) && final(out)@ == old(
                out,
            )@,
        },
{
    let length = read_u32(buf, start)?;
    let next = match start.checked_add(length as usize) {
        Some(n) => n,
        None => {
            return Err(ParseError::InvalidData);
        },
    };
    let name_field = start + 24;
    let name_offset = read_i32(buf, name_field)?;
    let name_len = read_u32(buf, name_field + 4)?;
    let objtype = read_u32(buf, name_field + 8)?;
    let data_len = read_u64(buf, name_field + 12)?;
    if length == 0 {
        return Err(ParseError::InvalidData);
    }
    let name_start: usize = if name_offset >= 0 {
        name_field + name_offset as usize
    } else {
        let back = (-(name_offset as i64)) as usize;
        if back > name_field {
            return Err(ParseError::InvalidData);
        }
        name_field - back
    };
    if name_len as usize > buf.len() || name_start > buf.len() - name_len as usize {
        return Err(ParseError::InvalidData);
    }
    let raw = vstd::slice::slice_subrange(buf, name_start, name_start + name_len as usize);
    let cut = first_nul(raw);
    let name = vstd::slice::slice_to_vec(vstd::slice::slice_subrange(raw, 0, cut));
    let entry = Entry {
        name,
        is_dir: objtype == VDIR,
        is_symlink: objtype == VLNK,
        size: if objtype == VREG {
            data_len
        } else {
            0
        },
    };
    let ghost e = entry@;
    out.push(entry);
    proof {
        assert(e.name =~= cut_at_nul(buf@.subrange(name_start as int, name_start + name_len)));
        assert(entries_view(final(out)@) =~= entries_view(old(out)@).push(e));
    }
    Ok(next)
}

/// The `count` entries that follow one another from `start`, if each of
/// them decodes.
pub open spec fn parse_entries_spec(buf: Seq<u8>, start: int, count: nat) -> Option<
    Seq<EntryView>,
>
    decreases count,
{
    if count == 0 {
        Some(Seq::empty())
    } else {
        match parse_entry_spec(buf, start) {
            Some((e, next)) => match parse_entries_spec(buf, next, (count - 1) as nat) {
                Some(rest) => Some(seq![e] + rest),
                None => None,
            },
            None => None,
        }
    }
}

/// `done` followed by what `rest` decodes to, if it decodes.
pub open spec fn after(done: Seq<EntryView>, rest: Option<Seq<EntryView>>) -> Option<Seq<EntryView>> {
    match rest {
        Some(r) => Some(done + r),
        None => None,
    }
}

/// Decodes the `count` entries that one bulk listing call returned, from
/// the start of `buf`; an error when any of them does not hold together.
pub fn parse_entries(buf: &[u8], count: usize) -> (r: Result<Vec<Entry>, ParseError>)
    requires
        buf@.len() <= isize::MAX,
    ensures
        match parse_entries_spec(buf@, 0, count as nat) {
            Some(es) => r matches Ok(v) && entries_view(v@) == es,
            None => r == Err::<Vec<Entry>, ParseError>(ParseError::InvalidData),
        },
{
    let mut out: Vec<Entry> = Vec::new();
    let mut offset: usize = 0;
    let mut i: usize = 0;
    assert(entries_view(out@) =~= Seq::<EntryView>::empty());
    assert(after(Seq::empty(), parse_entries_spec(buf@, 0, count as nat)) =~~= parse_entries_spec(
        buf@,
        0,
        count as nat,
    )) by {
        match parse_entries_spec(buf@, 0, count as nat) {
            Some(es) => {
                assert(Seq::<EntryView>::empty() + es =~= es);
            },
            None => {},
        }
    }
    while i < count
        invariant
            buf@.len() <= isize::MAX,
            i <= count,
            parse_entries_spec(buf@, 0, count as nat) == after(
                entries_view(out@),
                parse_entries_spec(buf@, offset as int, (count - i) as nat),
            ),
        decreases count - i,
    {
        let ghost done = entries_view(out@);
        let ghost rest_count = (count - i - 1) as nat;
        match parse_entry(buf, offset, &mut out) {
            Ok(next) => {
                proof {
                    let (e, n) = parse_entry_spec(buf@, offset as int).unwrap();
                    assert(entries_view(out@) == done.push(e));
                    assert(n == next);
                    match parse_entries_spec(buf@, next as int, rest_count) {
                        Some(rest) => {
                            assert(done + (seq![e] + rest) =~= done.push(e) + rest);
                        },
                        None => {},
                    }
                }
                offset = next;
            },
            Err(e) => {
                return Err(e);
            },
        }
        i = i + 1;
    }
    proof {
        assert(entries_view(out@) + Seq::<EntryView>::empty() =~= entries_view(out@));
    }
    Ok(out)
}

} // verus!
