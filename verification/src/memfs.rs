//! The in-memory filesystem backend: a flat table of entries keyed by
//! their normalized component path, implementing the node capability
//! interface (lookup, create, remove, rename, symlink, readlink,
//! attributes).
//!
//! The root directory of a filesystem is implicit (the empty component
//! path); every entry's parent must exist and be a directory.

use vstd::prelude::*;
use vstd::slice::slice_to_vec;

use crate::path::{all_valid, cv, norm_from, split_comps, lemma_split_no_sep, lemma_norm_from_valid};
use crate::types::{FsError, NodeAttr, NodeType, DEFAULT_DIR_PERM, DEFAULT_FILE_PERM};

verus! {

/// Permission a symbolic link carries.
pub const DEFAULT_SYMLINK_PERM: u16 = 0o777;

/// One entry of the filesystem: its component path from the filesystem
/// root, its kind, its permission bits, and (for a symbolic link) the
/// stored target.
pub struct FsEntry {
    pub path: Vec<Vec<u8>>,
    pub ty: NodeType,
    pub perm: u16,
    pub link: Vec<u8>,
}

/// The mathematical image of one entry.
#[verifier::ext_equal]
pub struct EntryView {
    pub path: Seq<Seq<u8>>,
    pub ty: NodeType,
    pub perm: u16,
    pub link: Seq<u8>,
}

impl View for FsEntry {
    type V = EntryView;

    open spec fn view(&self) -> EntryView {
        EntryView {
            path: cv(self.path@),
            ty: self.ty,
            perm: self.perm,
            link: self.link@,
        }
    }
}

/// An in-memory filesystem: a table of entries.
pub struct MemFs {
    pub entries: Vec<FsEntry>,
}

impl View for MemFs {
    type V = Seq<EntryView>;

    open spec fn view(&self) -> Seq<EntryView> {
        Seq::new(self.entries@.len(), |i: int| self.entries@[i]@)
    }
}

/// Some entry carries exactly this path.
pub open spec fn has_path(fs: Seq<EntryView>, p: Seq<Seq<u8>>) -> bool {
    exists|i: int| 0 <= i < fs.len() && fs[i].path == p
}

/// The index of the entry carrying `p`.
pub open spec fn idx_of(fs: Seq<EntryView>, p: Seq<Seq<u8>>) -> int {
    choose|i: int| 0 <= i < fs.len() && fs[i].path == p
}

/// The entry carrying `p`.
pub open spec fn entry_at(fs: Seq<EntryView>, p: Seq<Seq<u8>>) -> EntryView {
    fs[idx_of(fs, p)]
}

/// `p` names a directory: the implicit root, or a directory entry.
pub open spec fn is_dir_at(fs: Seq<EntryView>, p: Seq<Seq<u8>>) -> bool {
    if p.len() == 0 {
        true
    } else {
        has_path(fs, p) && entry_at(fs, p).ty == NodeType::Dir
    }
}

/// Some entry is a direct child of `p`.
pub open spec fn has_child(fs: Seq<EntryView>, p: Seq<Seq<u8>>) -> bool {
    exists|i: int|
        0 <= i < fs.len() && fs[i].path.len() == p.len() + 1 && fs[i].path.take(p.len() as int)
            == p
}

/// Well-formedness of a filesystem table: paths are distinct, nonempty
/// and made of valid components, and every entry's parent exists and is
/// a directory (entries of one component hang off the implicit root).
pub open spec fn fs_wf(fs: Seq<EntryView>) -> bool {
    &&& forall|i: int, j: int|
        0 <= i < j < fs.len() ==> #[trigger] fs[i].path != #[trigger] fs[j].path
    &&& forall|i: int|
        0 <= i < fs.len() ==> (#[trigger] fs[i].path).len() >= 1 && all_valid(fs[i].path)
    &&& forall|i: int|
        0 <= i < fs.len() ==> #[trigger] is_dir_at(fs, fs[i].path.drop_last())
}

/// The component path a node-relative byte path resolves to, from a
/// starting directory `base`.
pub open spec fn node_path(base: Seq<Seq<u8>>, rel: Seq<u8>) -> Seq<Seq<u8>> {
    norm_from(base, split_comps(rel))
}

/// Resolving from a valid base keeps all components valid.
pub proof fn lemma_node_path_valid(base: Seq<Seq<u8>>, rel: Seq<u8>)
    requires
        all_valid(base),
    ensures
        all_valid(node_path(base, rel)),
{
    lemma_split_no_sep(rel);
    lemma_norm_from_valid(base, split_comps(rel));
}

/// At a matching index the `choose` underlying `entry_at` is pinned.
pub proof fn lemma_entry_here(fs: Seq<EntryView>, i: int)
    requires
        forall|x: int, y: int|
            0 <= x < y < fs.len() ==> #[trigger] fs[x].path != #[trigger] fs[y].path,
        0 <= i < fs.len(),
    ensures
        has_path(fs, fs[i].path),
        idx_of(fs, fs[i].path) == i,
        entry_at(fs, fs[i].path) == fs[i],
{
    assert(has_path(fs, fs[i].path));
    let j = idx_of(fs, fs[i].path);
    if j != i {
        if j < i {
            assert(fs[j].path != fs[i].path);
        } else {
            assert(fs[i].path != fs[j].path);
        }
        assert(false);
    }
}

/// Every prefix of an entry's path is itself an entry (a directory,
/// when proper).
pub proof fn lemma_ancestor(fs: Seq<EntryView>, i: int, l: int)
    requires
        fs_wf(fs),
        0 <= i < fs.len(),
        1 <= l <= fs[i].path.len(),
    ensures
        has_path(fs, fs[i].path.take(l)),
        l < fs[i].path.len() ==> entry_at(fs, fs[i].path.take(l)).ty == NodeType::Dir,
    decreases fs[i].path.len() - l,
{
    let p = fs[i].path;
    if l == p.len() {
        assert(p.take(l) =~= p);
        lemma_entry_here(fs, i);
    } else {
        lemma_ancestor(fs, i, l + 1);
        let q = p.take(l + 1);
        let j = idx_of(fs, q);
        assert(fs[j].path == q);
        assert(is_dir_at(fs, fs[j].path.drop_last()));
        assert(fs[j].path.drop_last() =~= p.take(l));
        assert(fs[j].path.len() >= 1);
        if l >= 1 {
            assert(has_path(fs, p.take(l)));
            assert(entry_at(fs, p.take(l)).ty == NodeType::Dir);
        }
    }
}

impl MemFs {
    /// An empty filesystem: only the implicit root directory.
    pub fn new() -> (r: MemFs)
        ensures
            r@ =~= Seq::<EntryView>::empty(),
            fs_wf(r@),
    {
        MemFs { entries: Vec::new() }
    }

    /// Finds the entry carrying exactly these components.
    fn find(&self, comps: &Vec<Vec<u8>>) -> (r: Option<usize>)
        requires
            forall|x: int, y: int|
                0 <= x < y < self@.len()
                    ==> #[trigger] self@[x].path != #[trigger] self@[y].path,
        ensures
            match r {
                Some(i) => i < self@.len() && self@[i as int].path == cv(comps@)
                    && has_path(self@, cv(comps@)) && idx_of(self@, cv(comps@)) == i,
                None => !has_path(self@, cv(comps@)),
            },
    {
        let mut i: usize = 0;
        while i < self.entries.len()
            invariant
                i <= self@.len(),
                self@.len() == self.entries@.len(),
                forall|x: int, y: int|
                    0 <= x < y < self@.len()
                        ==> #[trigger] self@[x].path != #[trigger] self@[y].path,
                forall|j: int| 0 <= j < i ==> self@[j].path != cv(comps@),
            decreases self@.len() - i,
        {
            if comps_eq(&self.entries[i].path, comps) {
                proof {
                    lemma_entry_here(self@, i as int);
                }
                return Some(i);
            }
            i = i + 1;
        }
        None
    }

    /// Resolves a node-relative path to its component list from the
    /// starting directory `base`.
    fn resolve(&self, base: &Vec<Vec<u8>>, rel: &[u8]) -> (r: Vec<Vec<u8>>)
        ensures
            cv(r@) == node_path(cv(base@), rel@),
    {
        crate::path::normalize_onto(comps_clone(base), rel)
    }

    /// Looks a node-relative path up; returns the component path of the
    /// node found (empty: the filesystem root itself).
    pub fn lookup(&self, base: &Vec<Vec<u8>>, rel: &[u8]) -> (r: Result<Vec<Vec<u8>>, FsError>)
        requires
            fs_wf(self@),
        ensures
            match r {
                Ok(c) => cv(c@) == node_path(cv(base@), rel@) && (cv(c@).len() == 0 || has_path(
                    self@,
                    cv(c@),
                )),
                Err(e) => {
                    &&& e == FsError::NotFound
                    &&& node_path(cv(base@), rel@).len() > 0
                    &&& !has_path(self@, node_path(cv(base@), rel@))
                },
            },
    {
        let comps = self.resolve(base, rel);
        if comps.len() == 0 {
            return Ok(comps);
        }
        match self.find(&comps) {
            Some(_i) => Ok(comps),
            None => Err(FsError::NotFound),
        }
    }

    /// Reports the attributes of the node at `comps` (empty: the root).
    pub fn attr_of(&self, comps: &Vec<Vec<u8>>) -> (r: Result<NodeAttr, FsError>)
        requires
            fs_wf(self@),
        ensures
            r == spec_get_attr(self@, cv(comps@)),
    {
        if comps.len() == 0 {
            return Ok(NodeAttr { perm: DEFAULT_DIR_PERM, ty: NodeType::Dir, size: 0 });
        }
        match self.find(comps) {
            Some(i) => Ok(
                NodeAttr { perm: self.entries[i].perm, ty: self.entries[i].ty, size: 0 },
            ),
            None => Err(FsError::NotFound),
        }
    }

    /// Creates a file or directory at a node-relative path.
    pub fn create(&mut self, base: &Vec<Vec<u8>>, rel: &[u8], ty: NodeType) -> (r: Result<
        (),
        FsError,
    >)
        requires
            fs_wf(old(self)@),
            all_valid(cv(base@)),
        ensures
            r == spec_create(old(self)@, node_path(cv(base@), rel@), ty),
            final(self)@ == spec_create_state(old(self)@, node_path(cv(base@), rel@), ty),
            fs_wf(final(self)@),
    {
        let comps = self.resolve(base, rel);
        let ghost p = cv(comps@);
        proof {
            lemma_node_path_valid(cv(base@), rel@);
        }
        if comps.len() == 0 {
            return Ok(());
        }
        if self.find(&comps).is_some() {
            return Err(FsError::AlreadyExists);
        }
        if !(ty == NodeType::File || ty == NodeType::Dir) {
            return Err(FsError::Unsupported);
        }
        if comps.len() > 1 {
            let mut par = comps_clone(&comps);
            let _dropped = par.pop();
            proof {
                assert(cv(par@) =~= p.drop_last());
            }
            match self.find(&par) {
                None => {
                    return Err(FsError::NotFound);
                },
                Some(pi) => {
                    if self.entries[pi].ty != NodeType::Dir {
                        proof {
                            lemma_entry_here(self@, pi as int);
                        }
                        return Err(FsError::NotADirectory);
                    }
                    proof {
                        lemma_entry_here(self@, pi as int);
                    }
                },
            }
        }
        let perm = perm_for(ty);
        let entry = FsEntry { path: comps, ty: ty, perm: perm, link: Vec::new() };
        proof {
            assert(entry@ == new_entry(p, ty, Seq::empty())) by {
                assert(entry@.link =~= Seq::<u8>::empty());
            }
            assert(is_dir_at(self@, p.drop_last()));
            lemma_push_entry(self@, entry@);
        }
        let ghost before = self@;
        self.entries.push(entry);
        proof {
            assert(self@ =~= before.push(new_entry(p, ty, Seq::empty())));
        }
        Ok(())
    }

    /// Stores a symbolic link with the given target at a node-relative
    /// path.
    pub fn symlink(&mut self, base: &Vec<Vec<u8>>, target: &[u8], rel: &[u8]) -> (r: Result<
        (),
        FsError,
    >)
        requires
            fs_wf(old(self)@),
            all_valid(cv(base@)),
        ensures
            r == spec_symlink(old(self)@, node_path(cv(base@), rel@)),
            final(self)@ == spec_symlink_state(old(self)@, node_path(cv(base@), rel@), target@),
            fs_wf(final(self)@),
    {
        let comps = self.resolve(base, rel);
        let ghost p = cv(comps@);
        proof {
            lemma_node_path_valid(cv(base@), rel@);
        }
        if comps.len() == 0 {
            return Err(FsError::InvalidInput);
        }
        if self.find(&comps).is_some() {
            return Err(FsError::AlreadyExists);
        }
        if comps.len() > 1 {
            let mut par = comps_clone(&comps);
            let _dropped = par.pop();
            proof {
                assert(cv(par@) =~= p.drop_last());
            }
            match self.find(&par) {
                None => {
                    return Err(FsError::NotFound);
                },
                Some(pi) => {
                    proof {
                        lemma_entry_here(self@, pi as int);
                    }
                    if self.entries[pi].ty != NodeType::Dir {
                        return Err(FsError::NotADirectory);
                    }
                },
            }
        }
        let entry = FsEntry {
            path: comps,
            ty: NodeType::SymLink,
            perm: DEFAULT_SYMLINK_PERM,
            link: slice_to_vec(target),
        };
        proof {
            assert(entry@ == new_entry(p, NodeType::SymLink, target@));
            assert(is_dir_at(self@, p.drop_last()));
            lemma_push_entry(self@, entry@);
        }
        let ghost before = self@;
        self.entries.push(entry);
        proof {
            assert(self@ =~= before.push(new_entry(p, NodeType::SymLink, target@)));
        }
        Ok(())
    }

    /// Reads the stored target of the symbolic link at a node-relative
    /// path.
    pub fn readlink(&self, base: &Vec<Vec<u8>>, rel: &[u8]) -> (r: Result<Vec<u8>, FsError>)
        requires
            fs_wf(self@),
        ensures
            match r {
                Ok(v) => spec_readlink(self@, node_path(cv(base@), rel@)) == Ok::<Seq<u8>, FsError>(
                    v@,
                ),
                Err(e) => spec_readlink(self@, node_path(cv(base@), rel@)) == Err::<
                    Seq<u8>,
                    FsError,
                >(e),
            },
    {
        let comps = self.resolve(base, rel);
        if comps.len() == 0 {
            return Err(FsError::InvalidInput);
        }
        match self.find(&comps) {
            None => Err(FsError::NotFound),
            Some(i) => {
                if self.entries[i].ty != NodeType::SymLink {
                    Err(FsError::InvalidInput)
                } else {
                    Ok(slice_to_vec(self.entries[i].link.as_slice()))
                }
            },
        }
    }

    /// Reads the stored target of the symbolic link at a resolved
    /// component path.
    pub fn readlink_at(&self, comps: &Vec<Vec<u8>>) -> (r: Result<Vec<u8>, FsError>)
        requires
            fs_wf(self@),
        ensures
            match r {
                Ok(v) => spec_readlink(self@, cv(comps@)) == Ok::<Seq<u8>, FsError>(v@),
                Err(e) => spec_readlink(self@, cv(comps@)) == Err::<Seq<u8>, FsError>(e),
            },
    {
        if comps.len() == 0 {
            return Err(FsError::InvalidInput);
        }
        match self.find(comps) {
            None => Err(FsError::NotFound),
            Some(i) => {
                if self.entries[i].ty != NodeType::SymLink {
                    Err(FsError::InvalidInput)
                } else {
                    Ok(slice_to_vec(self.entries[i].link.as_slice()))
                }
            },
        }
    }

    /// Overwrites the permission bits of the node at a resolved
    /// component path (the implicit root keeps its fixed permission).
    pub fn set_perm_at(&mut self, comps: &Vec<Vec<u8>>, mode: u16) -> (r: Result<(), FsError>)
        requires
            fs_wf(old(self)@),
        ensures
            fs_wf(final(self)@),
            r == spec_set_perm(old(self)@, cv(comps@)),
            final(self)@ == spec_set_perm_state(old(self)@, cv(comps@), mode),
    {
        let ghost p = cv(comps@);
        if comps.len() == 0 {
            return Ok(());
        }
        match self.find(comps) {
            None => Err(FsError::NotFound),
            Some(i) => {
                let ghost pre = self@;
                let mut e = self.entries.remove(i);
                e.perm = mode;
                let ghost ev = e@;
                self.entries.insert(i, e);
                proof {
                    assert(self@.len() == pre.len());
                    assert(forall|j: int| 0 <= j < i ==> self@[j] == pre[j]);
                    assert(self@[i as int] == ev);
                    assert(forall|j: int|
                        i < j < self@.len() ==> self@[j] == pre[j]);
                    assert(self@ =~= pre.update(
                        i as int,
                        EntryView {
                            path: pre[i as int].path,
                            ty: pre[i as int].ty,
                            perm: mode,
                            link: pre[i as int].link,
                        },
                    ));
                    lemma_entry_here(pre, i as int);
                    assert(fs_wf(self@)) by {
                        assert(forall|x: int|
                            0 <= x < self@.len() ==> (#[trigger] self@[x]).path == pre[x].path);
                        assert forall|x: int| 0 <= x < self@.len() implies #[trigger] is_dir_at(
                            self@,
                            self@[x].path.drop_last(),
                        ) by {
                            let par = pre[x].path.drop_last();
                            assert(is_dir_at(pre, par));
                            if par.len() > 0 {
                                let k = idx_of(pre, par);
                                lemma_entry_here(pre, k);
                                lemma_entry_here(self@, k);
                                assert(self@[k].path == par);
                                assert(self@[k].ty == pre[k].ty);
                            }
                        }
                    }
                }
                Ok(())
            },
        }
    }

    /// Inserts a node of the given kind and permission at a
    /// node-relative path, as backends do for their fixed device and
    /// synthetic nodes.
    pub fn add_node(&mut self, base: &Vec<Vec<u8>>, rel: &[u8], ty: NodeType, perm: u16) -> (r:
        Result<(), FsError>)
        requires
            fs_wf(old(self)@),
            all_valid(cv(base@)),
        ensures
            fs_wf(final(self)@),
            r == spec_add(old(self)@, node_path(cv(base@), rel@)),
            final(self)@ == spec_add_state(old(self)@, node_path(cv(base@), rel@), ty, perm),
    {
        let comps = self.resolve(base, rel);
        let ghost p = cv(comps@);
        proof {
            lemma_node_path_valid(cv(base@), rel@);
        }
        if comps.len() == 0 {
            return Err(FsError::InvalidInput);
        }
        if self.find(&comps).is_some() {
            return Err(FsError::AlreadyExists);
        }
        if comps.len() > 1 {
            let mut par = comps_clone(&comps);
            let _dropped = par.pop();
            proof {
                assert(cv(par@) =~= p.drop_last());
            }
            match self.find(&par) {
                None => {
                    return Err(FsError::NotFound);
                },
                Some(pi) => {
                    proof {
                        lemma_entry_here(self@, pi as int);
                    }
                    if self.entries[pi].ty != NodeType::Dir {
                        return Err(FsError::NotADirectory);
                    }
                },
            }
        }
        let entry = FsEntry { path: comps, ty: ty, perm: perm, link: Vec::new() };
        proof {
            assert(entry@ == (EntryView { path: p, ty: ty, perm: perm, link: Seq::empty() }))
                by {
                assert(entry@.link =~= Seq::<u8>::empty());
            }
            assert(is_dir_at(self@, p.drop_last()));
            lemma_push_entry(self@, entry@);
        }
        let ghost before = self@;
        self.entries.push(entry);
        proof {
            assert(self@ =~= before.push(
                EntryView { path: p, ty: ty, perm: perm, link: Seq::empty() },
            ));
        }
        Ok(())
    }

    /// Removes the node at a node-relative path; a directory must be
    /// empty.
    pub fn remove(&mut self, base: &Vec<Vec<u8>>, rel: &[u8]) -> (r: Result<(), FsError>)
        requires
            fs_wf(old(self)@),
            all_valid(cv(base@)),
        ensures
            r == spec_remove(old(self)@, node_path(cv(base@), rel@)),
            final(self)@ == spec_remove_state(old(self)@, node_path(cv(base@), rel@)),
            fs_wf(final(self)@),
    {
        let comps = self.resolve(base, rel);
        let ghost p = cv(comps@);
        if comps.len() == 0 {
            return Err(FsError::InvalidInput);
        }
        let i = match self.find(&comps) {
            None => {
                return Err(FsError::NotFound);
            },
            Some(i) => i,
        };
        proof {
            lemma_entry_here(self@, i as int);
        }
        if self.entries[i].ty == NodeType::Dir {
            let mut j: usize = 0;
            while j < self.entries.len()
                invariant
                    j <= self@.len(),
                    self@.len() == self.entries@.len(),
                    self@ == old(self)@,
                    fs_wf(self@),
                    p == cv(comps@),
                    p.len() == comps@.len(),
                    p == node_path(cv(base@), rel@),
                    p.len() > 0,
                    has_path(self@, p),
                    entry_at(self@, p).ty == NodeType::Dir,
                    forall|k: int|
                        0 <= k < j ==> !((#[trigger] self@[k].path).len() == p.len() + 1
                            && self@[k].path.take(p.len() as int) == p),
                decreases self@.len() - j,
            {
                if self.entries[j].path.len() > comps.len() && self.entries[j].path.len()
                    - comps.len() == 1 && comps_starts_with(&self.entries[j].path, &comps) {
                    proof {
                        assert(self@[j as int] == self.entries@[j as int]@);
                        assert(self@[j as int].path == cv(self.entries@[j as int].path@));
                        assert(self@[j as int].path.len() == p.len() + 1);
                        assert(self@[j as int].path.take(p.len() as int) == p);
                        assert(has_child(self@, p));
                    }
                    return Err(FsError::DirectoryNotEmpty);
                }
                j = j + 1;
            }
            assert(!has_child(self@, p));
        } else {
            assert(!has_child(self@, p)) by {
                if has_child(self@, p) {
                    let k = choose|k: int|
                        0 <= k < self@.len() && self@[k].path.len() == p.len() + 1
                            && self@[k].path.take(p.len() as int) == p;
                    assert(self@[k].path.drop_last() =~= p);
                    assert(is_dir_at(self@, p));
                    lemma_entry_here(self@, i as int);
                }
            }
        }
        let ghost before = self@;
        proof {
            lemma_entry_here(before, i as int);
            lemma_remove_entry(before, i as int);
        }
        let _removed = self.entries.remove(i);
        proof {
            assert(self@ =~= before.remove(i as int));
        }
        Ok(())
    }

    /// Moves the node (and its subtree) at `src_rel` to `dst_rel`, both
    /// node-relative to `base`. The destination must not exist.
    pub fn rename(&mut self, base: &Vec<Vec<u8>>, src_rel: &[u8], dst_rel: &[u8]) -> (r: Result<
        (),
        FsError,
    >)
        requires
            fs_wf(old(self)@),
            all_valid(cv(base@)),
        ensures
            r == spec_rename(
                old(self)@,
                node_path(cv(base@), src_rel@),
                node_path(cv(base@), dst_rel@),
            ),
            final(self)@ == spec_rename_state(
                old(self)@,
                node_path(cv(base@), src_rel@),
                node_path(cv(base@), dst_rel@),
            ),
            fs_wf(final(self)@),
    {
        let sc = self.resolve(base, src_rel);
        let dc = self.resolve(base, dst_rel);
        let ghost sp = cv(sc@);
        let ghost dp = cv(dc@);
        proof {
            lemma_node_path_valid(cv(base@), dst_rel@);
        }
        if sc.len() == 0 || dc.len() == 0 {
            return Err(FsError::InvalidInput);
        }
        if self.find(&sc).is_none() {
            return Err(FsError::NotFound);
        }
        if comps_eq(&sc, &dc) {
            return Ok(());
        }
        if comps_starts_with(&dc, &sc) {
            return Err(FsError::InvalidInput);
        }
        if self.find(&dc).is_some() {
            return Err(FsError::AlreadyExists);
        }
        if dc.len() > 1 {
            let mut par = comps_clone(&dc);
            let _dropped = par.pop();
            proof {
                assert(cv(par@) =~= dp.drop_last());
            }
            match self.find(&par) {
                None => {
                    return Err(FsError::NotFound);
                },
                Some(pi) => {
                    proof {
                        lemma_entry_here(self@, pi as int);
                    }
                    if self.entries[pi].ty != NodeType::Dir {
                        return Err(FsError::NotADirectory);
                    }
                },
            }
        }
        let ghost orig = self@;
        proof {
            lemma_rename_entries(orig, sp, dp);
        }
        let mut out: Vec<FsEntry> = Vec::new();
        let mut j: usize = 0;
        while j < self.entries.len()
            invariant
                j <= self.entries@.len(),
                self@.len() == self.entries@.len(),
                orig == self@,
                sp.len() > 0,
                dp.len() > 0,
                sp == cv(sc@),
                dp == cv(dc@),
                sc@.len() == sp.len(),
                out@.len() == j,
                forall|k: int|
                    0 <= k < j ==> (#[trigger] out@[k])@ == map_entry(orig[k], sp, dp),
            decreases self.entries@.len() - j,
        {
            proof {
                assert(self@[j as int] == self.entries@[j as int]@);
                assert(orig[j as int].path == cv(self.entries@[j as int].path@));
            }
            if comps_starts_with(&self.entries[j].path, &sc) {
                let ghost target = map_path(orig[j as int].path, sp, dp);
                let mut np = comps_clone(&dc);
                let mut k: usize = sc.len();
                proof {
                    assert(orig[j as int].path.take(sp.len() as int) == sp);
                    assert(under(orig[j as int].path, sp));
                    assert(cv(np@) =~= dp + orig[j as int].path.subrange(
                        sp.len() as int,
                        sp.len() as int,
                    ));
                }
                while k < self.entries[j].path.len()
                    invariant
                        j < self.entries@.len(),
                        self@.len() == self.entries@.len(),
                        orig == self@,
                        self@[j as int] == self.entries@[j as int]@,
                        sc@.len() == sp.len(),
                        sp.len() <= k <= self.entries@[j as int].path@.len(),
                        orig[j as int].path == cv(self.entries@[j as int].path@),
                        cv(np@) == dp + orig[j as int].path.subrange(sp.len() as int, k as int),
                    decreases self.entries@[j as int].path@.len() - k,
                {
                    let ghost np_before = cv(np@);
                    let ghost opath = orig[j as int].path;
                    np.push(slice_to_vec(self.entries[j].path[k].as_slice()));
                    proof {
                        assert(opath[k as int] == cv(self.entries@[j as int].path@)[k as int]);
                        assert(cv(np@) =~= np_before.push(opath[k as int]));
                        assert(opath.subrange(sp.len() as int, k + 1) =~= opath.subrange(
                            sp.len() as int,
                            k as int,
                        ).push(opath[k as int]));
                        assert((dp + opath.subrange(sp.len() as int, k as int)).push(
                            opath[k as int],
                        ) =~= dp + opath.subrange(sp.len() as int, k + 1));
                        assert(cv(np@) =~= dp + opath.subrange(sp.len() as int, k + 1));
                    }
                    k = k + 1;
                }
                proof {
                    assert(orig[j as int].path.subrange(
                        sp.len() as int,
                        orig[j as int].path.len() as int,
                    ) =~= orig[j as int].path.skip(sp.len() as int));
                    assert(cv(np@) =~= target);
                }
                let e_new = FsEntry {
                    path: np,
                    ty: self.entries[j].ty,
                    perm: self.entries[j].perm,
                    link: slice_to_vec(self.entries[j].link.as_slice()),
                };
                proof {
                    assert(e_new@ =~= map_entry(orig[j as int], sp, dp));
                }
                out.push(e_new);
            } else {
                proof {
                    assert(!under(orig[j as int].path, sp));
                }
                let e_copy = FsEntry {
                    path: comps_clone(&self.entries[j].path),
                    ty: self.entries[j].ty,
                    perm: self.entries[j].perm,
                    link: slice_to_vec(self.entries[j].link.as_slice()),
                };
                proof {
                    assert(e_copy@ =~= map_entry(orig[j as int], sp, dp));
                }
                out.push(e_copy);
            }
            j = j + 1;
        }
        self.entries = out;
        proof {
            assert(self@ =~= Seq::new(orig.len(), |i: int| map_entry(orig[i], sp, dp)));
        }
        Ok(())
    }
}

/// The permission bits a newly created node of this kind carries.
pub open spec fn default_perm(ty: NodeType) -> u16 {
    match ty {
        NodeType::Dir => DEFAULT_DIR_PERM,
        NodeType::SymLink => DEFAULT_SYMLINK_PERM,
        _ => DEFAULT_FILE_PERM,
    }
}

/// Executable twin of [`default_perm`].
pub fn perm_for(ty: NodeType) -> (r: u16)
    ensures
        r == default_perm(ty),
{
    match ty {
        NodeType::Dir => DEFAULT_DIR_PERM,
        NodeType::SymLink => DEFAULT_SYMLINK_PERM,
        _ => DEFAULT_FILE_PERM,
    }
}

/// The entry a creation pushes.
pub open spec fn new_entry(p: Seq<Seq<u8>>, ty: NodeType, link: Seq<u8>) -> EntryView {
    EntryView { path: p, ty: ty, perm: default_perm(ty), link: link }
}

/// What `create` returns for path `p` of kind `ty`: the root already
/// exists; an existing path is refused; only files and directories can
/// be created this way; the parent must exist and be a directory.
pub open spec fn spec_create(fs: Seq<EntryView>, p: Seq<Seq<u8>>, ty: NodeType) -> Result<
    (),
    FsError,
> {
    if p.len() == 0 {
        Ok(())
    } else if has_path(fs, p) {
        Err(FsError::AlreadyExists)
    } else if !(ty == NodeType::File || ty == NodeType::Dir) {
        Err(FsError::Unsupported)
    } else if p.len() > 1 && !has_path(fs, p.drop_last()) {
        Err(FsError::NotFound)
    } else if p.len() > 1 && entry_at(fs, p.drop_last()).ty != NodeType::Dir {
        Err(FsError::NotADirectory)
    } else {
        Ok(())
    }
}

/// The state after `create`: unchanged unless a new entry was pushed.
pub open spec fn spec_create_state(
    fs: Seq<EntryView>,
    p: Seq<Seq<u8>>,
    ty: NodeType,
) -> Seq<EntryView> {
    if p.len() > 0 && spec_create(fs, p, ty) == Ok::<(), FsError>(()) {
        fs.push(new_entry(p, ty, Seq::empty()))
    } else {
        fs
    }
}

/// What `symlink` returns for link path `p`: as for creation, but the
/// path must not be the root, and any kind of existing entry is refused.
pub open spec fn spec_symlink(fs: Seq<EntryView>, p: Seq<Seq<u8>>) -> Result<(), FsError> {
    if p.len() == 0 {
        Err(FsError::InvalidInput)
    } else if has_path(fs, p) {
        Err(FsError::AlreadyExists)
    } else if p.len() > 1 && !has_path(fs, p.drop_last()) {
        Err(FsError::NotFound)
    } else if p.len() > 1 && entry_at(fs, p.drop_last()).ty != NodeType::Dir {
        Err(FsError::NotADirectory)
    } else {
        Ok(())
    }
}

/// The state after `symlink`.
pub open spec fn spec_symlink_state(
    fs: Seq<EntryView>,
    p: Seq<Seq<u8>>,
    target: Seq<u8>,
) -> Seq<EntryView> {
    if spec_symlink(fs, p) == Ok::<(), FsError>(()) {
        fs.push(new_entry(p, NodeType::SymLink, target))
    } else {
        fs
    }
}

/// The attributes `get_attr` reports for path `p`.
pub open spec fn spec_get_attr(fs: Seq<EntryView>, p: Seq<Seq<u8>>) -> Result<
    NodeAttr,
    FsError,
> {
    if p.len() == 0 {
        Ok(NodeAttr { perm: DEFAULT_DIR_PERM, ty: NodeType::Dir, size: 0 })
    } else if has_path(fs, p) {
        Ok(NodeAttr { perm: entry_at(fs, p).perm, ty: entry_at(fs, p).ty, size: 0 })
    } else {
        Err(FsError::NotFound)
    }
}

/// What `readlink` returns for path `p`: the stored target of a
/// symbolic link, and an error for anything else.
pub open spec fn spec_readlink(fs: Seq<EntryView>, p: Seq<Seq<u8>>) -> Result<Seq<u8>, FsError> {
    if p.len() == 0 {
        Err(FsError::InvalidInput)
    } else if !has_path(fs, p) {
        Err(FsError::NotFound)
    } else if entry_at(fs, p).ty != NodeType::SymLink {
        Err(FsError::InvalidInput)
    } else {
        Ok(entry_at(fs, p).link)
    }
}

/// What `remove` returns for path `p`: the root cannot be removed, the
/// entry must exist, and a directory must have no children.
pub open spec fn spec_remove(fs: Seq<EntryView>, p: Seq<Seq<u8>>) -> Result<(), FsError> {
    if p.len() == 0 {
        Err(FsError::InvalidInput)
    } else if !has_path(fs, p) {
        Err(FsError::NotFound)
    } else if entry_at(fs, p).ty == NodeType::Dir && has_child(fs, p) {
        Err(FsError::DirectoryNotEmpty)
    } else {
        Ok(())
    }
}

/// The state after `remove`.
pub open spec fn spec_remove_state(fs: Seq<EntryView>, p: Seq<Seq<u8>>) -> Seq<EntryView> {
    if spec_remove(fs, p) == Ok::<(), FsError>(()) {
        fs.remove(idx_of(fs, p))
    } else {
        fs
    }
}

/// Removing a childless entry keeps the table well-formed and changes
/// no other entry.
pub proof fn lemma_remove_entry(fs: Seq<EntryView>, i: int)
    requires
        fs_wf(fs),
        0 <= i < fs.len(),
        !has_child(fs, fs[i].path),
    ensures
        fs_wf(fs.remove(i)),
        !has_path(fs.remove(i), fs[i].path),
        forall|q: Seq<Seq<u8>>|
            q != fs[i].path ==> (#[trigger] has_path(fs.remove(i), q) <==> has_path(fs, q)),
        forall|q: Seq<Seq<u8>>|
            q != fs[i].path && has_path(fs, q) ==> #[trigger] entry_at(fs.remove(i), q)
                == entry_at(fs, q),
{
    let g = fs.remove(i);
    assert(g.len() == fs.len() - 1);
    assert(forall|j: int| 0 <= j < i ==> g[j] == fs[j]);
    assert(forall|j: int| i <= j < g.len() ==> g[j] == fs[j + 1]);
    assert forall|x: int, y: int| 0 <= x < y < g.len() implies #[trigger] g[x].path
        != #[trigger] g[y].path by {
        let x2: int = if x < i { x } else { x + 1 };
        let y2: int = if y < i { y } else { y + 1 };
        assert(g[x] == fs[x2] && g[y] == fs[y2]);
    }
    assert(!has_path(g, fs[i].path)) by {
        if has_path(g, fs[i].path) {
            let j = choose|j: int| 0 <= j < g.len() && g[j].path == fs[i].path;
            let j2: int = if j < i { j } else { j + 1 };
            assert(fs[j2].path == fs[i].path && j2 != i);
            assert(false);
        }
    }
    assert forall|q: Seq<Seq<u8>>| q != fs[i].path implies (#[trigger] has_path(g, q)
        <==> has_path(fs, q)) by {
        if has_path(g, q) {
            let j = choose|j: int| 0 <= j < g.len() && g[j].path == q;
            let j2: int = if j < i { j } else { j + 1 };
            assert(fs[j2].path == q);
        }
        if has_path(fs, q) {
            let j = choose|j: int| 0 <= j < fs.len() && fs[j].path == q;
            assert(j != i);
            let j2: int = if j < i { j } else { j - 1 };
            assert(g[j2].path == q);
        }
    }
    assert forall|q: Seq<Seq<u8>>| q != fs[i].path && has_path(fs, q) implies #[trigger] entry_at(
        g,
        q,
    ) == entry_at(fs, q) by {
        let j = idx_of(fs, q);
        assert(0 <= j < fs.len() && fs[j].path == q);
        assert(j != i);
        let j2: int = if j < i { j } else { j - 1 };
        assert(g[j2].path == q && g[j2] == fs[j]);
        lemma_entry_here(g, j2);
        lemma_entry_here(fs, j);
    }
    assert forall|j: int| 0 <= j < g.len() implies #[trigger] is_dir_at(
        g,
        g[j].path.drop_last(),
    ) by {
        let j2: int = if j < i { j } else { j + 1 };
        assert(g[j] == fs[j2]);
        let par = fs[j2].path.drop_last();
        assert(is_dir_at(fs, par));
        if par.len() > 0 {
            if par == fs[i].path {
                assert(fs[j2].path.len() == par.len() + 1);
                assert(fs[j2].path.take(par.len() as int) =~= par);
                assert(has_child(fs, fs[i].path));
                assert(false);
            }
        }
    }
}

/// `p` lies in the subtree rooted at `sp` (including `sp` itself).
pub open spec fn under(p: Seq<Seq<u8>>, sp: Seq<Seq<u8>>) -> bool {
    sp.len() <= p.len() && p.take(sp.len() as int) == sp
}

/// Where a path moves when the subtree at `sp` moves to `dp`.
pub open spec fn map_path(p: Seq<Seq<u8>>, sp: Seq<Seq<u8>>, dp: Seq<Seq<u8>>) -> Seq<Seq<u8>> {
    if under(p, sp) {
        dp + p.skip(sp.len() as int)
    } else {
        p
    }
}

/// The entry after the move.
pub open spec fn map_entry(e: EntryView, sp: Seq<Seq<u8>>, dp: Seq<Seq<u8>>) -> EntryView {
    EntryView { path: map_path(e.path, sp, dp), ty: e.ty, perm: e.perm, link: e.link }
}

/// What `rename` returns when moving `sp` to `dp`: both must name
/// nodes below the filesystem root, the source must exist, the
/// destination must not (moving a node onto itself is a no-op), a
/// subtree cannot move under itself, and the destination's parent must
/// exist and be a directory.
pub open spec fn spec_rename(fs: Seq<EntryView>, sp: Seq<Seq<u8>>, dp: Seq<Seq<u8>>) -> Result<
    (),
    FsError,
> {
    if sp.len() == 0 || dp.len() == 0 {
        Err(FsError::InvalidInput)
    } else if !has_path(fs, sp) {
        Err(FsError::NotFound)
    } else if sp == dp {
        Ok(())
    } else if under(dp, sp) {
        Err(FsError::InvalidInput)
    } else if has_path(fs, dp) {
        Err(FsError::AlreadyExists)
    } else if dp.len() > 1 && !has_path(fs, dp.drop_last()) {
        Err(FsError::NotFound)
    } else if dp.len() > 1 && entry_at(fs, dp.drop_last()).ty != NodeType::Dir {
        Err(FsError::NotADirectory)
    } else {
        Ok(())
    }
}

/// The state after `rename`: every entry in the subtree at `sp` keeps
/// its place in the table but carries its moved path.
pub open spec fn spec_rename_state(
    fs: Seq<EntryView>,
    sp: Seq<Seq<u8>>,
    dp: Seq<Seq<u8>>,
) -> Seq<EntryView> {
    if sp != dp && spec_rename(fs, sp, dp) == Ok::<(), FsError>(()) {
        Seq::new(fs.len(), |i: int| map_entry(fs[i], sp, dp))
    } else {
        fs
    }
}

/// Moving the subtree at `sp` to an absent, valid destination `dp`
/// keeps the table well-formed.
pub proof fn lemma_rename_entries(fs: Seq<EntryView>, sp: Seq<Seq<u8>>, dp: Seq<Seq<u8>>)
    requires
        fs_wf(fs),
        sp.len() > 0,
        dp.len() > 0,
        all_valid(dp),
        sp != dp,
        !under(dp, sp),
        has_path(fs, sp),
        !has_path(fs, dp),
        is_dir_at(fs, dp.drop_last()),
    ensures
        fs_wf(Seq::new(fs.len(), |i: int| map_entry(fs[i], sp, dp))),
{
    let g = Seq::new(fs.len(), |i: int| map_entry(fs[i], sp, dp));
    // distinctness: the path map is injective
    assert forall|x: int, y: int| 0 <= x < y < g.len() implies #[trigger] g[x].path
        != #[trigger] g[y].path by {
        let px = fs[x].path;
        let py = fs[y].path;
        assert(px != py);
        if under(px, sp) && under(py, sp) {
            if g[x].path == g[y].path {
                assert((dp + px.skip(sp.len() as int)).skip(dp.len() as int)
                    =~= px.skip(sp.len() as int));
                assert((dp + py.skip(sp.len() as int)).skip(dp.len() as int)
                    =~= py.skip(sp.len() as int));
                assert(px =~= sp + px.skip(sp.len() as int));
                assert(py =~= sp + py.skip(sp.len() as int));
                assert(false);
            }
        } else if under(px, sp) && !under(py, sp) {
            if g[x].path == g[y].path {
                lemma_collision(fs, y, sp, dp, px);
            }
        } else if !under(px, sp) && under(py, sp) {
            if g[x].path == g[y].path {
                lemma_collision(fs, x, sp, dp, py);
            }
        }
    }
    // paths stay nonempty and valid
    assert forall|i: int| 0 <= i < g.len() implies (#[trigger] g[i].path).len() >= 1 && all_valid(
        g[i].path,
    ) by {
        if under(fs[i].path, sp) {
            let s = fs[i].path.skip(sp.len() as int);
            assert(all_valid(fs[i].path));
            assert(forall|k: int| 0 <= k < s.len() ==> s[k] == fs[i].path[k + sp.len()]);
            assert forall|k: int| 0 <= k < g[i].path.len() implies crate::path::valid_comp(
                #[trigger] g[i].path[k],
            ) by {
                if k < dp.len() {
                    assert(g[i].path[k] == dp[k]);
                } else {
                    assert(g[i].path[k] == fs[i].path[k - dp.len() + sp.len()]);
                }
            }
        }
    }
    // parents survive
    assert forall|i: int| 0 <= i < g.len() implies #[trigger] is_dir_at(
        g,
        g[i].path.drop_last(),
    ) by {
        let p = fs[i].path;
        if !under(p, sp) {
            let par = p.drop_last();
            assert(is_dir_at(fs, par));
            if par.len() > 0 {
                let k = idx_of(fs, par);
                assert(fs[k].path == par);
                assert(!under(par, sp)) by {
                    if under(par, sp) {
                        assert(p.take(sp.len() as int) =~= par.take(sp.len() as int));
                    }
                }
                assert(g[k].path == par);
                assert(has_path(g, par));
                lemma_entry_here(g, k);
                assert(g[i].path.drop_last() =~= par);
            }
        } else if p.len() == sp.len() {
            // the subtree root itself: its new parent is dp's parent
            assert(p =~= sp);
            assert(p.skip(sp.len() as int) =~= Seq::<Seq<u8>>::empty());
            assert(g[i].path =~= dp);
            let par = dp.drop_last();
            assert(g[i].path.drop_last() =~= par);
            if par.len() > 0 {
                let k = idx_of(fs, par);
                assert(fs[k].path == par);
                assert(!under(par, sp)) by {
                    if under(par, sp) {
                        assert(under(dp, sp)) by {
                            assert(dp.take(sp.len() as int) =~= par.take(sp.len() as int));
                        }
                    }
                }
                assert(g[k].path == par);
                lemma_entry_here(g, k);
            }
        } else {
            // a strict descendant: its parent moves along
            let par = p.drop_last();
            assert(p.len() > sp.len());
            assert(under(par, sp)) by {
                assert(par.take(sp.len() as int) =~= p.take(sp.len() as int));
            }
            assert(is_dir_at(fs, par));
            let k = idx_of(fs, par);
            assert(fs[k].path == par);
            assert(g[k].path == dp + par.skip(sp.len() as int));
            assert(g[i].path.drop_last() =~= g[k].path) by {
                assert(par.skip(sp.len() as int) =~= p.skip(sp.len() as int).drop_last());
            }
            assert(has_path(g, g[i].path.drop_last()));
            lemma_entry_here(g, k);
        }
    }
}

/// An unmoved entry whose path coincides with a moved path proves the
/// destination already present.
proof fn lemma_collision(
    fs: Seq<EntryView>,
    j: int,
    sp: Seq<Seq<u8>>,
    dp: Seq<Seq<u8>>,
    px: Seq<Seq<u8>>,
)
    requires
        fs_wf(fs),
        0 <= j < fs.len(),
        sp.len() > 0,
        dp.len() > 0,
        under(px, sp),
        !under(fs[j].path, sp),
        fs[j].path == dp + px.skip(sp.len() as int),
    ensures
        has_path(fs, dp),
{
    let q = fs[j].path;
    assert(q.len() >= dp.len());
    if q.len() == dp.len() {
        assert(q =~= dp);
        lemma_entry_here(fs, j);
        assert(has_path(fs, dp));
    } else {
        lemma_ancestor(fs, j, dp.len() as int);
        assert(q.take(dp.len() as int) =~= dp);
        assert(has_path(fs, dp));
    }
}

/// What `set_perm_at` returns: the implicit root keeps its fixed
/// permission; any other path must exist.
pub open spec fn spec_set_perm(fs: Seq<EntryView>, p: Seq<Seq<u8>>) -> Result<(), FsError> {
    if p.len() == 0 {
        Ok(())
    } else if !has_path(fs, p) {
        Err(FsError::NotFound)
    } else {
        Ok(())
    }
}

/// The state after `set_perm_at`.
pub open spec fn spec_set_perm_state(
    fs: Seq<EntryView>,
    p: Seq<Seq<u8>>,
    mode: u16,
) -> Seq<EntryView> {
    if p.len() > 0 && has_path(fs, p) {
        fs.update(
            idx_of(fs, p),
            EntryView {
                path: entry_at(fs, p).path,
                ty: entry_at(fs, p).ty,
                perm: mode,
                link: entry_at(fs, p).link,
            },
        )
    } else {
        fs
    }
}

/// What `add_node` returns: like a creation, but never of the root.
pub open spec fn spec_add(fs: Seq<EntryView>, p: Seq<Seq<u8>>) -> Result<(), FsError> {
    if p.len() == 0 {
        Err(FsError::InvalidInput)
    } else if has_path(fs, p) {
        Err(FsError::AlreadyExists)
    } else if p.len() > 1 && !has_path(fs, p.drop_last()) {
        Err(FsError::NotFound)
    } else if p.len() > 1 && entry_at(fs, p.drop_last()).ty != NodeType::Dir {
        Err(FsError::NotADirectory)
    } else {
        Ok(())
    }
}

/// The state after `add_node`.
pub open spec fn spec_add_state(
    fs: Seq<EntryView>,
    p: Seq<Seq<u8>>,
    ty: NodeType,
    perm: u16,
) -> Seq<EntryView> {
    if spec_add(fs, p) == Ok::<(), FsError>(()) {
        fs.push(EntryView { path: p, ty: ty, perm: perm, link: Seq::empty() })
    } else {
        fs
    }
}

/// Pushing a fresh, well-placed entry keeps the table well-formed and
/// changes no other entry.
pub proof fn lemma_push_entry(fs: Seq<EntryView>, e: EntryView)
    requires
        fs_wf(fs),
        !has_path(fs, e.path),
        e.path.len() >= 1,
        all_valid(e.path),
        is_dir_at(fs, e.path.drop_last()),
    ensures
        fs_wf(fs.push(e)),
        forall|q: Seq<Seq<u8>>|
            #[trigger] has_path(fs.push(e), q) <==> (has_path(fs, q) || q == e.path),
        forall|q: Seq<Seq<u8>>|
            q != e.path && has_path(fs, q) ==> #[trigger] entry_at(fs.push(e), q) == entry_at(
                fs,
                q,
            ),
        entry_at(fs.push(e), e.path) == e,
{
    let g = fs.push(e);
    let n = fs.len() as int;
    assert(forall|i: int| 0 <= i < n ==> g[i] == fs[i]);
    assert(g[n] == e);
    assert(forall|x: int, y: int|
        0 <= x < y < g.len() ==> #[trigger] g[x].path != #[trigger] g[y].path) by {
        assert(forall|x: int| 0 <= x < n ==> #[trigger] fs[x].path != e.path);
    }
    assert forall|q: Seq<Seq<u8>>| #[trigger] has_path(g, q) implies (has_path(fs, q) || q
        == e.path) by {
        let i = choose|i: int| 0 <= i < g.len() && g[i].path == q;
        if i < n {
            assert(fs[i].path == q);
        }
    }
    assert forall|q: Seq<Seq<u8>>| has_path(fs, q) || q == e.path implies #[trigger] has_path(
        g,
        q,
    ) by {
        if has_path(fs, q) {
            let i = choose|i: int| 0 <= i < fs.len() && fs[i].path == q;
            assert(g[i].path == q);
        } else {
            assert(g[n].path == q);
        }
    }
    assert forall|q: Seq<Seq<u8>>| q != e.path && has_path(fs, q) implies #[trigger] entry_at(
        g,
        q,
    ) == entry_at(fs, q) by {
        let i = idx_of(fs, q);
        assert(0 <= i < fs.len() && fs[i].path == q);
        lemma_entry_here(g, i);
        lemma_entry_here(fs, i);
    }
    assert(entry_at(g, e.path) == e) by {
        lemma_entry_here(g, n);
    }
    assert forall|i: int| 0 <= i < g.len() implies #[trigger] is_dir_at(
        g,
        g[i].path.drop_last(),
    ) by {
        let par = g[i].path.drop_last();
        if i < n {
            assert(is_dir_at(fs, par));
            if par.len() > 0 {
                assert(has_path(fs, par));
                assert(par != e.path);
            }
        } else {
            assert(g[i] == e);
            assert(is_dir_at(fs, par));
            if par.len() > 0 {
                assert(par != e.path);
            }
        }
    }
}

/// Equality of two component lists.
pub fn comps_eq(a: &Vec<Vec<u8>>, b: &Vec<Vec<u8>>) -> (r: bool)
    ensures
        r <==> cv(a@) == cv(b@),
{
    if a.len() != b.len() {
        assert(cv(a@).len() != cv(b@).len());
        return false;
    }
    let mut k: usize = 0;
    while k < a.len()
        invariant
            k <= a@.len(),
            a@.len() == b@.len(),
            forall|j: int| 0 <= j < k ==> cv(a@)[j] == cv(b@)[j],
        decreases a@.len() - k,
    {
        if !crate::path::bytes_eq(a[k].as_slice(), b[k].as_slice()) {
            assert(cv(a@)[k as int] != cv(b@)[k as int]);
            return false;
        }
        k = k + 1;
    }
    proof {
        assert(cv(a@) =~= cv(b@));
    }
    true
}

/// Whether `a` starts with the components of `b`.
pub fn comps_starts_with(a: &Vec<Vec<u8>>, b: &Vec<Vec<u8>>) -> (r: bool)
    ensures
        r <==> (b@.len() <= a@.len() && cv(a@).take(b@.len() as int) == cv(b@)),
{
    if b.len() > a.len() {
        return false;
    }
    let mut k: usize = 0;
    while k < b.len()
        invariant
            k <= b@.len() <= a@.len(),
            forall|j: int| 0 <= j < k ==> cv(a@)[j] == cv(b@)[j],
        decreases b@.len() - k,
    {
        if !crate::path::bytes_eq(a[k].as_slice(), b[k].as_slice()) {
            assert(cv(a@).take(b@.len() as int)[k as int] != cv(b@)[k as int]);
            return false;
        }
        k = k + 1;
    }
    proof {
        assert(cv(a@).take(b@.len() as int) =~= cv(b@));
    }
    true
}

/// A copy of a component list.
pub fn comps_clone(v: &Vec<Vec<u8>>) -> (r: Vec<Vec<u8>>)
    ensures
        cv(r@) == cv(v@),
{
    let mut r: Vec<Vec<u8>> = Vec::new();
    let mut k: usize = 0;
    while k < v.len()
        invariant
            k <= v@.len(),
            r@.len() == k,
            forall|j: int| 0 <= j < k ==> cv(r@)[j] == cv(v@)[j],
        decreases v@.len() - k,
    {
        r.push(slice_to_vec(v[k].as_slice()));
        k = k + 1;
    }
    proof {
        assert(cv(r@) =~= cv(v@));
    }
    r
}

} // verus!
