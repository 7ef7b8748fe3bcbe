//! Column-oriented directory tree. Each discovered directory stores only its
//! parent's index and its own name, and all names live in one shared byte
//! arena, so memory stays proportional to the sum of name lengths instead of
//! the sum of full-path lengths. Children are always appended after their
//! parent, so a reverse index scan is a valid bottom-up traversal order.

use vstd::prelude::*;

verus! {

/// Node 0 is the scanned root.
pub const ROOT: u32 = 0;

/// Parent marker of the root.
pub const NO_PARENT: u32 = 0xFFFF_FFFFu32;

/// `PathBuf::push` on encoded bytes (Unix): an absolute `name` replaces the
/// path; otherwise a separator is added when the path is non-empty and does
/// not already end in one.
pub open spec fn push_path(path: Seq<u8>, name: Seq<u8>) -> Seq<u8> {
    if name.len() > 0 && name[0] == 47u8 {
        name
    } else if path.len() > 0 && path.last() != 47u8 {
        path.push(47u8) + name
    } else {
        path + name
    }
}

/// Is `parents` shaped like a tree whose node 0 is the root and whose
/// every other node comes after its parent?
pub open spec fn parents_wf(parents: Seq<u32>) -> bool {
    &&& 1 <= parents.len() <= u32::MAX
    &&& parents[0] == NO_PARENT
    &&& forall|i: int| 1 <= i < parents.len() ==> (#[trigger] parents[i]) < i
}

/// Absolute path of node `i`: the root's name, then each name on the way down.
pub open spec fn full_path(parents: Seq<u32>, names: Seq<Seq<u8>>, i: int) -> Seq<u8>
    decreases i,
{
    if i <= 0 {
        push_path(Seq::empty(), names[0])
    } else if parents[i] < i {
        push_path(full_path(parents, names, parents[i] as int), names[i])
    } else {
        Seq::empty()
    }
}

/// Path of node `i` relative to the root (the root's own name excluded).
pub open spec fn relative_path(parents: Seq<u32>, names: Seq<Seq<u8>>, i: int) -> Seq<u8>
    decreases i,
{
    if i <= 0 {
        Seq::empty()
    } else if parents[i] < i {
        push_path(relative_path(parents, names, parents[i] as int), names[i])
    } else {
        Seq::empty()
    }
}

/// Names of the nodes on the way from the root (excluded) down to `i`.
pub open spec fn components(parents: Seq<u32>, names: Seq<Seq<u8>>, i: int) -> Seq<Seq<u8>>
    decreases i,
{
    if i <= 0 {
        Seq::empty()
    } else if parents[i] < i {
        components(parents, names, parents[i] as int).push(names[i])
    } else {
        Seq::empty()
    }
}

/// Node ids from `i` up to the root, `i` first.
pub open spec fn ancestors(parents: Seq<u32>, i: int) -> Seq<u32>
    decreases i,
{
    if i <= 0 {
        seq![0u32]
    } else if parents[i] < i {
        seq![i as u32] + ancestors(parents, parents[i] as int)
    } else {
        Seq::empty()
    }
}

/// Depth-one ancestor of `i > 0` (the child of the root that `i` lies under).
pub open spec fn anchor(parents: Seq<u32>, i: int) -> int
    decreases i,
{
    if i <= 0 {
        0
    } else if parents[i] == 0 {
        i
    } else if parents[i] < i {
        anchor(parents, parents[i] as int)
    } else {
        i
    }
}

/// Sum of `s[c]` over the children `c` of `p` with `from <= c < to`.
pub open spec fn children_total(parents: Seq<u32>, s: Seq<u64>, p: int, from: int, to: int) -> int
    decreases to - from,
{
    if from >= to {
        0
    } else {
        (if parents[from] == p { s[from] as int } else { 0 }) + children_total(
            parents,
            s,
            p,
            from + 1,
            to,
        )
    }
}

/// Sum of the lengths of the byte strings in `s`.
pub open spec fn lens_total(s: Seq<Seq<u8>>) -> int
    decreases s.len(),
{
    if s.len() == 0 {
        0
    } else {
        lens_total(s.drop_last()) + s.last().len()
    }
}

/// Sum of all entries of `s`.
pub open spec fn total(s: Seq<u64>) -> int
    decreases s.len(),
{
    if s.len() == 0 {
        0
    } else {
        total(s.drop_last()) + s.last()
    }
}

/// Smallest id in `from..parents.len()` whose parent is `p` and whose name is `name`.
pub open spec fn first_child_named(
    parents: Seq<u32>,
    names: Seq<Seq<u8>>,
    p: int,
    name: Seq<u8>,
    from: int,
) -> Option<int>
    decreases parents.len() - from,
{
    if from < 0 || from >= parents.len() {
        None
    } else if parents[from] == p && names[from] == name {
        Some(from)
    } else {
        first_child_named(parents, names, p, name, from + 1)
    }
}

/// Walks `comps` down from node `current`, taking at each step the first
/// child with the wanted name.
pub open spec fn find_from(
    parents: Seq<u32>,
    names: Seq<Seq<u8>>,
    current: int,
    comps: Seq<Seq<u8>>,
) -> Option<int>
    decreases comps.len(),
{
    if comps.len() == 0 {
        Some(current)
    } else {
        match first_child_named(parents, names, current, comps[0], 0) {
            Some(c) => find_from(parents, names, c, comps.drop_first()),
            None => None,
        }
    }
}

/// Column-oriented directory tree.
pub struct DirTree {
    parents: Vec<u32>,
    /// All names back to back; node `i` owns `name_bytes[name_ends[i-1]..name_ends[i]]`.
    name_bytes: Vec<u8>,
    name_ends: Vec<u32>,
    sizes: Vec<u64>,
}

impl DirTree {
    /// Parent id of each node (`NO_PARENT` for the root).
    pub closed spec fn parents_view(&self) -> Seq<u32> {
        self.parents@
    }

    /// Size recorded for each node.
    pub closed spec fn sizes_view(&self) -> Seq<u64> {
        self.sizes@
    }

    closed spec fn name_start(&self, i: int) -> int {
        if i <= 0 {
            0
        } else {
            self.name_ends@[i - 1] as int
        }
    }

    /// Name (encoded bytes) of each node; the root's name is the scanned path.
    pub closed spec fn names_view(&self) -> Seq<Seq<u8>> {
        Seq::new(
            self.parents@.len(),
            |i: int| self.name_bytes@.subrange(self.name_start(i), self.name_ends@[i] as int),
        )
    }

    /// The name arena and the per-node columns agree.
    pub closed spec fn storage_wf(&self) -> bool {
        &&& self.name_ends@.len() == self.parents@.len()
        &&& self.sizes@.len() == self.parents@.len()
        &&& self.name_bytes@.len() <= u32::MAX
        &&& forall|i: int, j: int|
            0 <= i <= j < self.name_ends@.len() ==> self.name_ends@[i] <= self.name_ends@[j]
        &&& self.name_ends@.len() > 0 ==> self.name_ends@.last() == self.name_bytes@.len()
        &&& self.name_bytes@.len() == lens_total(self.names_view())
    }

    /// The tree is well formed.
    pub open spec fn wf(&self) -> bool {
        &&& self.storage_wf()
        &&& parents_wf(self.parents_view())
        &&& self.sizes_view().len() == self.parents_view().len()
        &&& self.names_view().len() == self.parents_view().len()
    }

    /// Number of nodes.
    pub open spec fn node_count(&self) -> int {
        self.parents_view().len() as int
    }

    /// Node 0 is the scanned root; its name holds the full root path.
    pub fn new(root: &[u8]) -> (tree: Self)
        requires
            root@.len() <= u32::MAX,
        ensures
            tree.wf(),
            tree.node_count() == 1,
            tree.names_view()[0] == root@,
            tree.sizes_view()[0] == 0,
    {
        let tree = DirTree {
            parents: vec![NO_PARENT],
            name_bytes: vstd::slice::slice_to_vec(root),
            name_ends: vec![root.len() as u32],
            sizes: vec![0],
        };
        assert(tree.names_view()[0] =~= root@);
        assert(tree.names_view().drop_last() =~= Seq::<Seq<u8>>::empty());
        assert(lens_total(tree.names_view()) == lens_total(Seq::<Seq<u8>>::empty())
            + root@.len());
        tree
    }

    /// Number of nodes.
    pub fn len(&self) -> (n: usize)
        requires
            self.wf(),
        ensures
            n == self.node_count(),
    {
        self.parents.len()
    }

    /// Parent of `id`, `None` for the root.
    pub fn parent(&self, id: u32) -> (p: Option<u32>)
        requires
            self.wf(),
            id < self.node_count(),
        ensures
            p == (if id == 0 { None } else { Some(self.parents_view()[id as int]) }),
    {
        let parent = self.parents[id as usize];
        if parent != NO_PARENT {
            Some(parent)
        } else {
            None
        }
    }

    /// Name of `id` (encoded bytes).
    pub fn name(&self, id: u32) -> (name: &[u8])
        requires
            self.wf(),
            id < self.node_count(),
        ensures
            name@ == self.names_view()[id as int],
    {
        let i = id as usize;
        let start: usize = if i == 0 { 0 } else { self.name_ends[i - 1] as usize };
        let end: usize = self.name_ends[i] as usize;
        proof {
            if i > 0 {
                assert(self.name_ends@[i - 1] <= self.name_ends@[i as int]);
            }
            assert(self.name_ends@[i as int] <= self.name_ends@[self.name_ends@.len() - 1]);
        }
        vstd::slice::slice_subrange(self.name_bytes.as_slice(), start, end)
    }

    /// Size recorded for `id`.
    pub fn size(&self, id: u32) -> (size: u64)
        requires
            self.wf(),
            id < self.node_count(),
        ensures
            size == self.sizes_view()[id as int],
    {
        self.sizes[id as usize]
    }

    /// Records the size of `id`.
    pub fn set_size(&mut self, id: u32, size: u64)
        requires
            old(self).wf(),
            id < old(self).node_count(),
        ensures
            final(self).wf(),
            final(self).parents_view() == old(self).parents_view(),
            final(self).names_view() == old(self).names_view(),
            final(self).sizes_view() == old(self).sizes_view().update(id as int, size),
    {
        self.sizes.set(id as usize, size);
        assert(self.names_view() =~= old(self).names_view());
    }

    /// Can `names` be added as children: do the node count and the name
    /// arena stay within the `u32` range?
    pub fn can_add_children(&self, names: &Vec<Vec<u8>>) -> (ok: bool)
        requires
            self.wf(),
        ensures
            ok == (self.node_count() + names@.len() <= u32::MAX && lens_total(self.names_view())
                + lens_total(names.deep_view()) <= u32::MAX),
    {
        let ghost nv = names.deep_view();
        if self.parents.len() > 0xFFFF_FFFFusize || names.len() > 0xFFFF_FFFFusize - self.parents.len() {
            return false;
        }
        let limit: u64 = 0xFFFF_FFFFu64;
        let mut used: u64 = self.name_bytes.len() as u64;
        let mut k: usize = 0;
        while k < names.len()
            invariant
                k <= names@.len(),
                nv == names.deep_view(),
                used == lens_total(self.names_view()) + lens_total(nv.take(k as int)),
                used <= limit,
                limit == u32::MAX,
                self.wf(),
            decreases names@.len() - k,
        {
            proof {
                assert(nv.take(k + 1).drop_last() =~= nv.take(k as int));
                assert(nv[k as int] =~= names@[k as int]@);
                assert(nv.take(k + 1).last() == nv[k as int]);
                assert(lens_total(nv.take(k + 1)) == lens_total(nv.take(k as int)) + nv[k as int].len());
            }
            let len = names[k].len();
            if len as u64 > limit - used {
                proof {
                    lemma_lens_total_take(nv, k + 1);
                }
                return false;
            }
            used = used + len as u64;
            k = k + 1;
        }
        assert(nv.take(k as int) =~= nv);
        true
    }

    /// Appends `byte` strings to the arena, one copy per byte.
    fn append_bytes(arena: &mut Vec<u8>, bytes: &Vec<u8>)
        ensures
            final(arena)@ == old(arena)@ + bytes@,
    {
        let mut k: usize = 0;
        while k < bytes.len()
            invariant
                k <= bytes.len(),
                arena@ == old(arena)@ + bytes@.take(k as int),
            decreases bytes.len() - k,
        {
            arena.push(bytes[k]);
            k = k + 1;
            assert(old(arena)@ + bytes@.take(k as int) =~= old(arena)@ + bytes@.take(
                (k - 1) as int,
            ) + seq![bytes@[k - 1]]);
        }
        assert(bytes@.take(k as int) =~= bytes@);
    }

    /// Appends one child of `parent` per name; returns the new ids.
    pub fn add_children(&mut self, parent: u32, names: Vec<Vec<u8>>) -> (ids: std::ops::Range<u32>)
        requires
            old(self).wf(),
            parent < old(self).node_count(),
            old(self).node_count() + names@.len() <= u32::MAX,
            lens_total(old(self).names_view()) + lens_total(names.deep_view()) <= u32::MAX,
        ensures
            final(self).wf(),
            ids.start == old(self).node_count(),
            ids.end == final(self).node_count(),
            final(self).node_count() == old(self).node_count() + names@.len(),
            final(self).parents_view() == old(self).parents_view() + Seq::new(
                names@.len(),
                |k: int| parent,
            ),
            final(self).names_view() == old(self).names_view() + names.deep_view(),
            final(self).sizes_view() == old(self).sizes_view() + Seq::new(
                names@.len(),
                |k: int| 0u64,
            ),
    {
        let first = self.parents.len();
        let ghost old_names = self.names_view();
        let ghost new_names = names.deep_view();
        let mut k: usize = 0;
        while k < names.len()
            invariant
                k <= names@.len(),
                new_names == names.deep_view(),
                first == old(self).node_count(),
                old_names == old(self).names_view(),
                old(self).wf(),
                parent < first,
                first + names@.len() <= u32::MAX,
                lens_total(old_names) + lens_total(new_names) <= u32::MAX,
                self.storage_wf(),
                parents_wf(self.parents_view()),
                self.parents_view() == old(self).parents_view() + Seq::new(
                    k as nat,
                    |j: int| parent,
                ),
                self.names_view() == old_names + new_names.take(k as int),
                self.sizes_view() == old(self).sizes_view() + Seq::new(k as nat, |j: int| 0u64),
            decreases names@.len() - k,
        {
            let ghost before = *self;
            proof {
                assert(new_names.take(k as int + 1).drop_last() =~= new_names.take(k as int));
                assert(new_names[k as int] =~= names@[k as int]@);
                lemma_lens_total_take(new_names, k as int + 1);
                lemma_lens_total_append(old_names, new_names.take(k as int));
                lemma_lens_total_append(old_names, new_names.take(k as int + 1));
            }
            Self::append_bytes(&mut self.name_bytes, &names[k]);
            self.name_ends.push(self.name_bytes.len() as u32);
            self.parents.push(parent);
            self.sizes.push(0);
            k = k + 1;
            proof {
                let n = before.parents@.len() as int;
                assert(self.parents_view() =~= old(self).parents_view() + Seq::new(
                    k as nat,
                    |j: int| parent,
                ));
                assert(self.sizes_view() =~= old(self).sizes_view() + Seq::new(
                    k as nat,
                    |j: int| 0u64,
                ));
                assert(new_names.take(k as int) =~= new_names.take(k - 1).push(new_names[k - 1]));
                assert(new_names[k - 1] =~= names@[k - 1]@);
                assert(self.name_start(n) == before.name_bytes@.len());
                assert(self.names_view()[n] =~= new_names[k - 1]);
                assert forall|i: int| 0 <= i < n implies #[trigger] self.names_view()[i]
                    == before.names_view()[i] by {
                    assert(before.name_ends@[i] <= before.name_ends@[n - 1]);
                    if i > 0 {
                        assert(before.name_ends@[i - 1] <= before.name_ends@[i]);
                    }
                    assert(self.names_view()[i] =~= before.names_view()[i]);
                }
                assert(self.names_view() =~= old_names + new_names.take(k as int));
                assert(self.names_view().drop_last() =~= before.names_view());
                assert forall|i: int, j: int|
                    0 <= i <= j < self.name_ends@.len() implies self.name_ends@[i]
                    <= self.name_ends@[j] by {
                    if j == n {
                        if i < n {
                            assert(before.name_ends@[i] <= before.name_ends@[n - 1]);
                        }
                    }
                }
            }
        }
        assert(new_names.take(k as int) =~= new_names);
        assert(self.parents_view() =~= old(self).parents_view() + Seq::new(
            names@.len(),
            |j: int| parent,
        ));
        assert(self.sizes_view() =~= old(self).sizes_view() + Seq::new(
            names@.len(),
            |j: int| 0u64,
        ));
        first as u32..self.parents.len() as u32
    }

    /// Appends `name` to `out` as `PathBuf::push` does.
    pub(crate) fn push_name(out: &mut Vec<u8>, name: &[u8])
        ensures
            final(out)@ == push_path(old(out)@, name@),
    {
        if name.len() > 0 && name[0] == 47u8 {
            out.clear();
        } else if out.len() > 0 && out[out.len() - 1] != 47u8 {
            out.push(47u8);
        }
        let ghost mid = out@;
        let mut k: usize = 0;
        while k < name.len()
            invariant
                k <= name@.len(),
                out@ == mid + name@.take(k as int),
            decreases name@.len() - k,
        {
            out.push(name[k]);
            k = k + 1;
            assert(mid + name@.take(k as int) =~= (mid + name@.take((k - 1) as int)).push(
                name@[k - 1],
            ));
        }
        assert(name@.take(k as int) =~= name@);
        proof {
            if name@.len() > 0 && name@[0] == 47u8 {
                assert(mid + name@ =~= name@);
            } else if old(out)@.len() > 0 && old(out)@.last() != 47u8 {
                assert(mid =~= old(out)@.push(47u8));
            } else {
                assert(mid =~= old(out)@);
            }
        }
    }

    /// Rebuilds the absolute path of `id` into `out`, reusing `chain` as
    /// scratch (it ends up holding the ids from `id` up to the root).
    pub fn path_of(&self, id: u32, chain: &mut Vec<u32>, out: &mut Vec<u8>)
        requires
            self.wf(),
            id < self.node_count(),
        ensures
            final(chain)@ == ancestors(self.parents_view(), id as int),
            final(out)@ == full_path(self.parents_view(), self.names_view(), id as int),
    {
        let ghost pv = self.parents_view();
        let ghost nv = self.names_view();
        chain.clear();
        let mut current = id;
        loop
            invariant_except_break
                self.wf(),
                pv == self.parents_view(),
                current < self.node_count(),
                chain@ + ancestors(pv, current as int) == ancestors(pv, id as int),
            ensures
                chain@ == ancestors(pv, id as int),
            decreases current,
        {
            chain.push(current);
            match self.parent(current) {
                Some(parent) => {
                    assert(seq![current] + ancestors(pv, parent as int) =~= ancestors(
                        pv,
                        current as int,
                    ));
                    assert(chain@ + ancestors(pv, parent as int) =~= chain@.drop_last() + (seq![
                        current,
                    ] + ancestors(pv, parent as int)));
                    current = parent;
                },
                None => {
                    assert(ancestors(pv, 0) == seq![0u32]);
                    break ;
                },
            }
        }
        proof {
            lemma_ancestors(pv, id as int);
        }
        out.clear();
        let ghost anc = ancestors(pv, id as int);
        let mut k = chain.len();
        while k > 0
            invariant
                self.wf(),
                pv == self.parents_view(),
                nv == self.names_view(),
                anc == ancestors(pv, id as int),
                chain@ == anc,
                anc.len() >= 1,
                anc[0] == id,
                anc.last() == 0,
                forall|j: int| 0 <= j < anc.len() ==> #[trigger] anc[j] < pv.len(),
                forall|j: int|
                    0 <= j < anc.len() - 1 ==> #[trigger] anc[j] > 0 && anc[j + 1] == pv[anc[j]
                        as int],
                k <= chain@.len(),
                k < chain@.len() ==> out@ == full_path(pv, nv, chain@[k as int] as int),
                k == chain@.len() ==> out@ == Seq::<u8>::empty(),
            decreases k,
        {
            k = k - 1;
            let node = chain[k];
            Self::push_name(out, self.name(node));
        }
    }

    /// Path of `id` relative to the root node (root's own name excluded).
    pub fn relative_path_of(&self, id: u32) -> (path: Vec<u8>)
        requires
            self.wf(),
            id < self.node_count(),
        ensures
            path@ == relative_path(self.parents_view(), self.names_view(), id as int),
    {
        let ghost pv = self.parents_view();
        let ghost nv = self.names_view();
        let mut chain: Vec<u32> = Vec::new();
        let mut current = id;
        while current != ROOT
            invariant
                self.wf(),
                pv == self.parents_view(),
                current < self.node_count(),
                chain@ + ancestors(pv, current as int) == ancestors(pv, id as int),
            decreases current,
        {
            chain.push(current);
            let parent = self.parents[current as usize];
            assert(seq![current] + ancestors(pv, parent as int) =~= ancestors(pv, current as int));
            assert(chain@ + ancestors(pv, parent as int) =~= chain@.drop_last() + (seq![current]
                + ancestors(pv, parent as int)));
            current = parent;
        }
        assert(ancestors(pv, 0) == seq![0u32]);
        let ghost anc = ancestors(pv, id as int);
        proof {
            lemma_ancestors(pv, id as int);
        }
        let mut out: Vec<u8> = Vec::new();
        let mut k = chain.len();
        while k > 0
            invariant
                self.wf(),
                pv == self.parents_view(),
                nv == self.names_view(),
                anc == ancestors(pv, id as int),
                chain@ + seq![0u32] == anc,
                anc.len() >= 1,
                anc[0] == id,
                anc.last() == 0,
                forall|j: int| 0 <= j < anc.len() ==> #[trigger] anc[j] < pv.len(),
                forall|j: int|
                    0 <= j < anc.len() - 1 ==> #[trigger] anc[j] > 0 && anc[j + 1] == pv[anc[j]
                        as int],
                k <= chain@.len(),
                out@ == relative_path(pv, nv, anc[k as int] as int),
            decreases k,
        {
            k = k - 1;
            assert(chain@[k as int] == anc[k as int]);
            let node = chain[k];
            Self::push_name(&mut out, self.name(node));
        }
        out
    }
}

impl DirTree {
    /// Folds every directory's size into its parent, bottom-up: afterwards
    /// each node holds its own size plus the folded sizes of its children,
    /// and the root holds the grand total. Meant to run once, after the scan.
    pub fn aggregate(&mut self)
        requires
            old(self).wf(),
            total(old(self).sizes_view()) <= u64::MAX,
        ensures
            final(self).wf(),
            final(self).parents_view() == old(self).parents_view(),
            final(self).names_view() == old(self).names_view(),
            final(self).sizes_view().len() == old(self).sizes_view().len(),
            forall|i: int|
                0 <= i < final(self).node_count() ==> #[trigger] final(self).sizes_view()[i]
                    == old(self).sizes_view()[i] + children_total(
                    final(self).parents_view(),
                    final(self).sizes_view(),
                    i,
                    i + 1,
                    final(self).node_count(),
                ),
            final(self).sizes_view()[0] == total(old(self).sizes_view()),
    {
        let ghost pv = self.parents_view();
        let ghost orig = self.sizes_view();
        let n = self.parents.len();
        let mut k = n;
        proof {
            assert(orig.take(n as int) =~= orig);
        }
        while k > 1
            invariant
                self.wf(),
                n == self.node_count(),
                pv == self.parents_view(),
                old(self).names_view() == self.names_view(),
                orig == old(self).sizes_view(),
                total(orig) <= u64::MAX,
                1 <= k <= n,
                forall|j: int|
                    k <= j < n ==> #[trigger] self.sizes_view()[j] == orig[j] + children_total(
                        pv,
                        self.sizes_view(),
                        j,
                        j + 1,
                        n as int,
                    ),
                forall|j: int|
                    0 <= j < k ==> #[trigger] self.sizes_view()[j] == orig[j] + children_total(
                        pv,
                        self.sizes_view(),
                        j,
                        k as int,
                        n as int,
                    ),
                total(self.sizes_view().take(k as int)) == total(orig),
            decreases k,
        {
            k = k - 1;
            let ghost cur = self.sizes_view();
            let size = self.sizes[k];
            let parent = self.parents[k] as usize;
            proof {
                lemma_total_take_step(cur, k as int);
                lemma_total_two(cur.take(k as int + 1), parent as int, k as int);
            }
            let folded = self.sizes[parent] + size;
            self.sizes.set(parent, folded);
            proof {
                let new = self.sizes_view();
                assert(new == cur.update(parent as int, folded));
                assert(self.names_view() =~= old(self).names_view());
                assert forall|j: int| k <= j < n implies #[trigger] self.sizes_view()[j] == orig[j]
                    + children_total(pv, self.sizes_view(), j, j + 1, n as int) by {
                    lemma_children_total_frame(pv, cur, new, j, j + 1, n as int, parent as int);
                    if j == k {
                        lemma_children_total_frame(
                            pv,
                            cur,
                            new,
                            j,
                            k + 1,
                            n as int,
                            parent as int,
                        );
                    }
                }
                assert forall|j: int| 0 <= j < k implies #[trigger] self.sizes_view()[j] == orig[j]
                    + children_total(pv, self.sizes_view(), j, k as int, n as int) by {
                    lemma_children_total_frame(pv, cur, new, j, k + 1, n as int, parent as int);
                }
                lemma_total_take_step(cur, k as int);
                lemma_total_take_step(new, k as int);
                assert(new.take(k as int) == cur.take(k as int).update(parent as int, folded));
                lemma_total_update(cur.take(k as int), parent as int, folded);
            }
        }
        proof {
            let fin = self.sizes_view();
            assert(fin.take(1).drop_last() =~= Seq::<u64>::empty());
            assert(total(Seq::<u64>::empty()) == 0);
            assert(fin.take(1).last() == fin[0]);
            assert(total(fin.take(1)) == fin[0]);
        }
    }
}

impl DirTree {
    /// The names from the root (excluded) down to `id`.
    pub(crate) fn components_of(&self, id: u32) -> (comps: Vec<Vec<u8>>)
        requires
            self.wf(),
            id < self.node_count(),
        ensures
            comps.deep_view() == components(self.parents_view(), self.names_view(), id as int),
    {
        let ghost pv = self.parents_view();
        let ghost nv = self.names_view();
        let mut chain: Vec<u32> = Vec::new();
        let mut current = id;
        while current != ROOT
            invariant
                self.wf(),
                pv == self.parents_view(),
                current < self.node_count(),
                chain@ + ancestors(pv, current as int) == ancestors(pv, id as int),
            decreases current,
        {
            chain.push(current);
            let parent = self.parents[current as usize];
            assert(seq![current] + ancestors(pv, parent as int) =~= ancestors(pv, current as int));
            assert(chain@ + ancestors(pv, parent as int) =~= chain@.drop_last() + (seq![current]
                + ancestors(pv, parent as int)));
            current = parent;
        }
        assert(ancestors(pv, 0) == seq![0u32]);
        let ghost anc = ancestors(pv, id as int);
        proof {
            lemma_ancestors(pv, id as int);
        }
        let mut out: Vec<Vec<u8>> = Vec::new();
        let mut k = chain.len();
        while k > 0
            invariant
                self.wf(),
                pv == self.parents_view(),
                nv == self.names_view(),
                anc == ancestors(pv, id as int),
                chain@ + seq![0u32] == anc,
                anc.len() >= 1,
                anc[0] == id,
                anc.last() == 0,
                forall|j: int| 0 <= j < anc.len() ==> #[trigger] anc[j] < pv.len(),
                forall|j: int|
                    0 <= j < anc.len() - 1 ==> #[trigger] anc[j] > 0 && anc[j + 1] == pv[anc[j]
                        as int],
                k <= chain@.len(),
                out.deep_view() == components(pv, nv, anc[k as int] as int),
            decreases k,
        {
            k = k - 1;
            assert(chain@[k as int] == anc[k as int]);
            let node = chain[k];
            let ghost before = out.deep_view();
            let v = vstd::slice::slice_to_vec(self.name(node));
            assert(v.deep_view() =~= v@);
            out.push(v);
            assert(out.deep_view() =~= before.push(nv[node as int]));
        }
        out
    }
}

/// Do two byte strings hold the same bytes?
pub fn bytes_equal(a: &[u8], b: &[u8]) -> (eq: bool)
    ensures
        eq == (a@ == b@),
{
    if a.len() != b.len() {
        return false;
    }
    let mut i: usize = 0;
    while i < a.len()
        invariant
            i <= a@.len(),
            a@.len() == b@.len(),
            forall|j: int| 0 <= j < i ==> a@[j] == b@[j],
        decreases a@.len() - i,
    {
        if a[i] != b[i] {
            return false;
        }
        i = i + 1;
    }
    assert(a@ =~= b@);
    true
}

impl DirTree {
    /// Looks up a node by its path components relative to the root: at each
    /// step the first child (lowest id) with the wanted name is taken.
    pub fn find(&self, components: &Vec<Vec<u8>>) -> (found: Option<u32>)
        requires
            self.wf(),
        ensures
            match find_from(self.parents_view(), self.names_view(), 0, components.deep_view()) {
                Some(i) => found == Some(i as u32),
                None => found is None,
            },
    {
        let ghost pv = self.parents_view();
        let ghost nv = self.names_view();
        let ghost comps = components.deep_view();
        let n = self.parents.len();
        let mut current: u32 = ROOT;
        let mut c: usize = 0;
        proof {
            assert(comps.skip(0) =~= comps);
        }
        while c < components.len()
            invariant
                self.wf(),
                pv == self.parents_view(),
                nv == self.names_view(),
                comps == components.deep_view(),
                n == pv.len(),
                c <= components@.len(),
                current < n,
                find_from(pv, nv, 0, comps) == find_from(pv, nv, current as int, comps.skip(
                    c as int,
                )),
            decreases components@.len() - c,
        {
            let wanted = components[c].as_slice();
            assert(wanted@ == comps[c as int]);
            assert(comps.skip(c as int)[0] == comps[c as int]);
            assert(comps.skip(c as int).drop_first() =~= comps.skip(c + 1));
            let mut id: usize = 0;
            let mut next: Option<u32> = None;
            while id < n
                invariant_except_break
                    next is None,
                invariant
                    self.wf(),
                    pv == self.parents_view(),
                    nv == self.names_view(),
                    n == pv.len(),
                    id <= n,
                    wanted@ == comps[c as int],
                    first_child_named(pv, nv, current as int, wanted@, 0) == first_child_named(
                        pv,
                        nv,
                        current as int,
                        wanted@,
                        id as int,
                    ),
                    c < comps.len(),
                ensures
                    match next {
                        Some(ch) => ch < n && first_child_named(pv, nv, current as int, wanted@, 0)
                            == Some(ch as int),
                        None => first_child_named(pv, nv, current as int, wanted@, 0) is None,
                    },
                decreases n - id,
            {
                if self.parents[id] == current && bytes_equal(self.name(id as u32), wanted) {
                    next = Some(id as u32);
                    break;
                }
                id = id + 1;
            }
            match next {
                Some(child) => {
                    current = child;
                },
                None => {
                    return None;
                },
            }
            c = c + 1;
        }
        assert(comps.skip(c as int).len() == 0);
        Some(current)
    }
}

/// `children_total` only reads `s` on `from..to`; a change at `q < from` is invisible.
proof fn lemma_children_total_frame(
    parents: Seq<u32>,
    s1: Seq<u64>,
    s2: Seq<u64>,
    p: int,
    from: int,
    to: int,
    q: int,
)
    requires
        0 <= from,
        q < from,
        s1.len() == s2.len(),
        to <= s1.len(),
        forall|i: int| 0 <= i < s1.len() && i != q ==> s1[i] == s2[i],
    ensures
        children_total(parents, s1, p, from, to) == children_total(parents, s2, p, from, to),
    decreases to - from,
{
    if from < to {
        lemma_children_total_frame(parents, s1, s2, p, from + 1, to, q);
    }
}

/// Taking one more element adds it to the total.
proof fn lemma_total_take_step(s: Seq<u64>, k: int)
    requires
        0 <= k < s.len(),
    ensures
        total(s.take(k + 1)) == total(s.take(k)) + s[k],
{
    assert(s.take(k + 1).drop_last() =~= s.take(k));
}

/// Raising one entry raises the total by as much.
proof fn lemma_total_update(s: Seq<u64>, i: int, v: u64)
    requires
        0 <= i < s.len(),
    ensures
        total(s.update(i, v)) == total(s) - s[i] + v,
    decreases s.len(),
{
    if i < s.len() - 1 {
        lemma_total_update(s.drop_last(), i, v);
        assert(s.update(i, v).drop_last() =~= s.drop_last().update(i, v));
    } else {
        assert(s.update(i, v).drop_last() =~= s.drop_last());
    }
}

/// Two distinct entries add up to at most the total.
proof fn lemma_total_two(s: Seq<u64>, a: int, b: int)
    requires
        0 <= a < s.len(),
        0 <= b < s.len(),
        a != b,
    ensures
        s[a] + s[b] <= total(s),
    decreases s.len(),
{
    let l = s.len() - 1;
    lemma_total_ge_entry(s.drop_last(), if a == l { b } else { a });
    if a != l && b != l {
        lemma_total_two(s.drop_last(), a, b);
    }
}

/// One entry is at most the total.
proof fn lemma_total_ge_entry(s: Seq<u64>, a: int)
    requires
        0 <= a < s.len(),
    ensures
        s[a] <= total(s),
    decreases s.len(),
{
    if a < s.len() - 1 {
        lemma_total_ge_entry(s.drop_last(), a);
    }
    lemma_total_nonneg(s.drop_last());
}

/// Totals are never negative.
proof fn lemma_total_nonneg(s: Seq<u64>)
    ensures
        total(s) >= 0,
    decreases s.len(),
{
    if s.len() > 0 {
        lemma_total_nonneg(s.drop_last());
    }
}

/// Facts about depth-one ancestors.
pub proof fn lemma_anchor(parents: Seq<u32>, j: int)
    requires
        parents_wf(parents),
        1 <= j < parents.len(),
    ensures
        1 <= anchor(parents, j) <= j,
        parents[anchor(parents, j)] == 0,
        parents[j] == 0 ==> anchor(parents, j) == j,
        parents[j] != 0 ==> anchor(parents, j) == anchor(parents, parents[j] as int)
            && anchor(parents, j) < j,
    decreases j,
{
    if parents[j] != 0 {
        lemma_anchor(parents, parents[j] as int);
    }
}

/// Extending the range of `children_total` by one id.
pub proof fn lemma_children_total_extend(
    parents: Seq<u32>,
    s: Seq<u64>,
    p: int,
    from: int,
    to: int,
)
    requires
        from <= to,
    ensures
        children_total(parents, s, p, from, to + 1) == children_total(parents, s, p, from, to) + (
        if parents[to] == p {
            s[to] as int
        } else {
            0
        }),
    decreases to - from,
{
    if from < to {
        lemma_children_total_extend(parents, s, p, from + 1, to);
    } else {
        assert(children_total(parents, s, p, to + 1, to + 1) == 0);
    }
}

/// `children_total` grows with its range.
pub proof fn lemma_children_total_mono(
    parents: Seq<u32>,
    s: Seq<u64>,
    p: int,
    from: int,
    to: int,
    to2: int,
)
    requires
        from <= to <= to2,
    ensures
        0 <= children_total(parents, s, p, from, to) <= children_total(parents, s, p, from, to2),
    decreases to2 - to,
{
    if to < to2 {
        lemma_children_total_mono(parents, s, p, from, to, to2 - 1);
        lemma_children_total_extend(parents, s, p, from, to2 - 1);
    } else {
        lemma_children_total_nonneg(parents, s, p, from, to);
    }
}

proof fn lemma_children_total_nonneg(parents: Seq<u32>, s: Seq<u64>, p: int, from: int, to: int)
    ensures
        children_total(parents, s, p, from, to) >= 0,
    decreases to - from,
{
    if from < to {
        lemma_children_total_nonneg(parents, s, p, from + 1, to);
    }
}

/// Facts about the chain of ancestors of a node.
pub proof fn lemma_ancestors(parents: Seq<u32>, i: int)
    requires
        parents_wf(parents),
        0 <= i < parents.len(),
    ensures
        ancestors(parents, i).len() >= 1,
        ancestors(parents, i)[0] == i,
        ancestors(parents, i).last() == 0,
        forall|j: int|
            0 <= j < ancestors(parents, i).len() ==> #[trigger] ancestors(parents, i)[j]
                < parents.len(),
        forall|j: int|
            0 <= j < ancestors(parents, i).len() - 1 ==> #[trigger] ancestors(parents, i)[j] > 0
                && ancestors(parents, i)[j + 1] == parents[ancestors(parents, i)[j] as int],
    decreases i,
{
    if i > 0 {
        let p = parents[i] as int;
        lemma_ancestors(parents, p);
        let a = ancestors(parents, i);
        let b = ancestors(parents, p);
        assert(a == seq![i as u32] + b);
        assert forall|j: int| 0 <= j < a.len() - 1 implies #[trigger] a[j] > 0 && a[j + 1]
            == parents[a[j] as int] by {
            if j > 0 {
                assert(a[j] == b[j - 1]);
                assert(a[j + 1] == b[j]);
            }
        }
    }
}

/// The lengths of a prefix add up to at most those of the whole.
proof fn lemma_lens_total_take(s: Seq<Seq<u8>>, k: int)
    requires
        0 <= k <= s.len(),
    ensures
        lens_total(s.take(k)) <= lens_total(s),
    decreases s.len() - k,
{
    if k < s.len() {
        lemma_lens_total_take(s, k + 1);
        assert(s.take(k + 1).drop_last() =~= s.take(k));
    } else {
        assert(s.take(k) =~= s);
    }
}

/// Lengths add up over concatenation.
proof fn lemma_lens_total_append(a: Seq<Seq<u8>>, b: Seq<Seq<u8>>)
    ensures
        lens_total(a + b) == lens_total(a) + lens_total(b),
    decreases b.len(),
{
    if b.len() == 0 {
        assert(a + b =~= a);
    } else {
        lemma_lens_total_append(a, b.drop_last());
        assert((a + b).drop_last() =~= a + b.drop_last());
    }
}

/// Walking one more component: from where the first ones lead, the first
/// child with that name.
proof fn lemma_find_from_push(
    parents: Seq<u32>,
    names: Seq<Seq<u8>>,
    current: int,
    comps: Seq<Seq<u8>>,
    x: Seq<u8>,
)
    ensures
        find_from(parents, names, current, comps.push(x)) == match find_from(
            parents,
            names,
            current,
            comps,
        ) {
            Some(c) => first_child_named(parents, names, c, x, 0),
            None => None,
        },
    decreases comps.len(),
{
    if comps.len() == 0 {
        assert(comps.push(x).drop_first() =~= Seq::<Seq<u8>>::empty());
        assert(comps.push(x)[0] == x);
        match first_child_named(parents, names, current, x, 0) {
            Some(c) => {
                assert(find_from(parents, names, c, Seq::<Seq<u8>>::empty()) == Some(c));
            },
            None => {},
        }
    } else {
        assert(comps.push(x)[0] == comps[0]);
        assert(comps.push(x).drop_first() =~= comps.drop_first().push(x));
        match first_child_named(parents, names, current, comps[0], 0) {
            Some(c) => {
                lemma_find_from_push(parents, names, c, comps.drop_first(), x);
            },
            None => {},
        }
    }
}

/// When no directory has two children of the same name, looking a node up
/// by its components (as `relative_path_of` spells them) finds that node.
pub proof fn lemma_find_components(parents: Seq<u32>, names: Seq<Seq<u8>>, i: int)
    requires
        parents_wf(parents),
        names.len() == parents.len(),
        0 <= i < parents.len(),
        forall|k: int|
            1 <= k < parents.len() ==> first_child_named(
                parents,
                names,
                #[trigger] parents[k] as int,
                names[k],
                0,
            ) == Some(k),
    ensures
        find_from(parents, names, 0, components(parents, names, i)) == Some(i),
    decreases i,
{
    if i > 0 {
        let p = parents[i] as int;
        assert(p < i);
        lemma_find_components(parents, names, p);
        lemma_find_from_push(parents, names, 0, components(parents, names, p), names[i]);
    } else {
        assert(components(parents, names, 0) =~= Seq::<Seq<u8>>::empty());
    }
}

/// Every name below the root is a plain file name: not empty, and free of
/// separators.
pub open spec fn plain_names(names: Seq<Seq<u8>>) -> bool {
    forall|k: int|
        1 <= k < names.len() ==> (#[trigger] names[k]).len() > 0 && !names[k].contains(47u8)
}

/// With plain names, the path below the root neither starts nor ends with
/// a separator, and is not empty.
proof fn lemma_relative_path_shape(parents: Seq<u32>, names: Seq<Seq<u8>>, i: int)
    requires
        parents_wf(parents),
        names.len() == parents.len(),
        plain_names(names),
        1 <= i < parents.len(),
    ensures
        relative_path(parents, names, i).len() > 0,
        relative_path(parents, names, i)[0] != 47u8,
        relative_path(parents, names, i).last() != 47u8,
    decreases i,
{
    let p = parents[i] as int;
    let n = names[i];
    assert(n.len() > 0 && !n.contains(47u8));
    assert(n[0] != 47u8 && n.last() != 47u8) by {
        if n[0] == 47u8 {
            assert(n.contains(n[0]));
        }
        if n.last() == 47u8 {
            assert(n.contains(n[n.len() - 1]));
        }
    }
    if p == 0 {
        assert(relative_path(parents, names, 0) == Seq::<u8>::empty());
        assert(relative_path(parents, names, i) == n);
    } else {
        lemma_relative_path_shape(parents, names, p);
        let r = relative_path(parents, names, p);
        assert(relative_path(parents, names, i) == r.push(47u8) + n);
        assert((r.push(47u8) + n)[0] == r[0]);
        assert((r.push(47u8) + n).last() == n.last());
    }
}

/// Joining onto a path a relative path and then a name is joining the
/// relative path joined with the name.
proof fn lemma_push_path_assoc(base: Seq<u8>, x: Seq<u8>, n: Seq<u8>)
    requires
        x.len() > 0,
        x[0] != 47u8,
        x.last() != 47u8,
        n.len() > 0,
        n[0] != 47u8,
    ensures
        push_path(push_path(base, x), n) == push_path(base, push_path(x, n)),
{
    let bx = push_path(base, x);
    assert(bx.len() > 0 && bx.last() == x.last());
    assert(push_path(x, n) == x.push(47u8) + n);
    assert((x.push(47u8) + n)[0] == x[0]);
    if base.len() > 0 && base.last() != 47u8 {
        assert(push_path(base, x.push(47u8) + n) =~= base.push(47u8) + (x.push(47u8) + n));
        assert(bx.push(47u8) + n =~= base.push(47u8) + (x.push(47u8) + n));
    } else {
        assert(push_path(base, x.push(47u8) + n) =~= base + (x.push(47u8) + n));
        assert(bx.push(47u8) + n =~= base + (x.push(47u8) + n));
    }
}

/// With plain names, the absolute path of a node below the root (what
/// `path_of` writes) is the root's path joined with its path relative to
/// the root (what `relative_path_of` gives).
pub proof fn lemma_path_is_root_joined_with_relative(parents: Seq<u32>, names: Seq<Seq<u8>>, i: int)
    requires
        parents_wf(parents),
        names.len() == parents.len(),
        plain_names(names),
        1 <= i < parents.len(),
    ensures
        full_path(parents, names, i) == push_path(
            full_path(parents, names, 0),
            relative_path(parents, names, i),
        ),
    decreases i,
{
    let p = parents[i] as int;
    let n = names[i];
    assert(n.len() > 0 && !n.contains(47u8));
    assert(n[0] != 47u8) by {
        if n[0] == 47u8 {
            assert(n.contains(n[0]));
        }
    }
    if p == 0 {
        assert(relative_path(parents, names, 0) == Seq::<u8>::empty());
        assert(relative_path(parents, names, i) == n);
    } else {
        lemma_path_is_root_joined_with_relative(parents, names, p);
        lemma_relative_path_shape(parents, names, p);
        lemma_push_path_assoc(full_path(parents, names, 0), relative_path(parents, names, p), n);
    }
}

} // verus!
