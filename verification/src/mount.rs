//! The mount table and the root directory: longest-prefix dispatch of
//! every path operation to the owning filesystem.
//!
//! A mount point is an absolute path (other than `/` itself) with the
//! filesystem mounted there. Dispatch trims the path, then picks the
//! mount point whose stripped path is the longest segment-aligned
//! prefix; with none, the main filesystem owns the path.

use vstd::prelude::*;

use crate::memfs::{
    EntryView, MemFs, comps_clone, fs_wf, has_path, node_path, spec_create, spec_create_state,
    spec_get_attr, spec_readlink, spec_remove, spec_remove_state, spec_rename, spec_rename_state,
    spec_symlink, spec_symlink_state, entry_at,
};
use crate::path::{SEP, bytes_eq, cv, trim_path, trim_spec};
use crate::types::{FsError, NodeAttr, NodeType, DEFAULT_DIR_PERM};

verus! {

/// Which filesystem owns a dispatched path.
#[derive(Clone, Copy, Debug, PartialEq, Eq, Structural)]
pub enum FsChoice {
    MainFs,
    MountAt(usize),
}

/// A node location: the owning filesystem and the node's component
/// path inside it (empty: that filesystem's root).
pub struct NodeLoc {
    pub fs: FsChoice,
    pub comps: Vec<Vec<u8>>,
}

/// The mathematical image of a node location.
#[verifier::ext_equal]
pub struct NodeLocView {
    pub fs: FsChoice,
    pub comps: Seq<Seq<u8>>,
}

impl View for NodeLoc {
    type V = NodeLocView;

    open spec fn view(&self) -> NodeLocView {
        NodeLocView { fs: self.fs, comps: cv(self.comps@) }
    }
}

/// A mounted filesystem and the absolute path it is mounted at.
pub struct MountPoint {
    pub path: Vec<u8>,
    pub fs: MemFs,
}

/// The mathematical image of a mount point.
#[verifier::ext_equal]
pub struct MountPointView {
    pub path: Seq<u8>,
    pub fs: Seq<EntryView>,
}

impl View for MountPoint {
    type V = MountPointView;

    open spec fn view(&self) -> MountPointView {
        MountPointView { path: self.path@, fs: self.fs@ }
    }
}

impl MountPoint {
    /// Makes a mount point from a path and a filesystem.
    pub fn new(path: Vec<u8>, fs: MemFs) -> (r: MountPoint)
        ensures
            r@.path == path@,
            r@.fs == fs@,
    {
        MountPoint { path, fs }
    }
}

/// The root directory: the main filesystem (at `/`) composed with the
/// mount table.
pub struct RootDirectory {
    pub main_fs: MemFs,
    pub mounts: Vec<MountPoint>,
}

/// The mathematical image of the root directory.
#[verifier::ext_equal]
pub struct RootDirView {
    pub main: Seq<EntryView>,
    pub mounts: Seq<MountPointView>,
}

impl View for RootDirectory {
    type V = RootDirView;

    open spec fn view(&self) -> RootDirView {
        RootDirView {
            main: self.main_fs@,
            mounts: Seq::new(self.mounts@.len(), |i: int| self.mounts@[i]@),
        }
    }
}

/// A legal mount path: absolute and not `/` itself.
pub open spec fn mount_path_ok(p: Seq<u8>) -> bool {
    p.len() >= 2 && p[0] == SEP
}

/// Well-formedness of the root directory: all filesystems well-formed,
/// all mount paths legal and distinct.
pub open spec fn rd_wf(rd: RootDirView) -> bool {
    &&& fs_wf(rd.main)
    &&& forall|i: int| 0 <= i < rd.mounts.len() ==> fs_wf((#[trigger] rd.mounts[i]).fs)
    &&& forall|i: int| 0 <= i < rd.mounts.len() ==> mount_path_ok((#[trigger] rd.mounts[i]).path)
    &&& forall|i: int, j: int|
        0 <= i < j < rd.mounts.len() ==> (#[trigger] rd.mounts[i]).path != (
        #[trigger] rd.mounts[j]).path
}

/// A mount path qualifies for a trimmed path `p` when its stripped form
/// (without the leading separator) is a segment-aligned prefix of `p`.
pub open spec fn qualifies(m: Seq<u8>, p: Seq<u8>) -> bool {
    let ms = m.skip(1);
    &&& ms.len() <= p.len()
    &&& p.take(ms.len() as int) == ms
    &&& (p.len() == ms.len() || p[ms.len() as int] == SEP)
}

/// A mount point with exactly this path is registered.
pub open spec fn mounted_at(mounts: Seq<MountPointView>, q: Seq<u8>) -> bool {
    exists|i: int| 0 <= i < mounts.len() && (#[trigger] mounts[i]).path == q
}

/// Some mount point qualifies for `p`.
pub open spec fn some_match(mounts: Seq<MountPointView>, p: Seq<u8>) -> bool {
    exists|i: int| 0 <= i < mounts.len() && qualifies(mounts[i].path, p)
}

/// `i` is the winning mount point for `p`: it qualifies, no qualifying
/// mount path is longer, and no earlier one is as long.
pub open spec fn is_best(mounts: Seq<MountPointView>, p: Seq<u8>, i: int) -> bool {
    &&& 0 <= i < mounts.len()
    &&& qualifies(mounts[i].path, p)
    &&& forall|j: int|
        0 <= j < mounts.len() && #[trigger] qualifies(mounts[j].path, p) ==> mounts[j].path.len()
            <= mounts[i].path.len()
    &&& forall|j: int|
        0 <= j < i && #[trigger] qualifies(mounts[j].path, p) ==> mounts[j].path.len()
            < mounts[i].path.len()
}

/// The winning index, when some mount qualifies.
pub open spec fn best_of(mounts: Seq<MountPointView>, p: Seq<u8>) -> int {
    choose|i: int| is_best(mounts, p, i)
}

/// The rest of `p` below the mount path `m`: the matched prefix and one
/// following separator are stripped; an exact match leaves nothing.
pub open spec fn remainder(m: Seq<u8>, p: Seq<u8>) -> Seq<u8> {
    let ms = m.skip(1);
    if p.len() > ms.len() {
        p.skip(ms.len() as int + 1)
    } else {
        Seq::empty()
    }
}

/// At most one index is best.
pub proof fn lemma_best_unique(mounts: Seq<MountPointView>, p: Seq<u8>, i: int)
    requires
        is_best(mounts, p, i),
    ensures
        best_of(mounts, p) == i,
        is_best(mounts, p, best_of(mounts, p)),
{
    assert(is_best(mounts, p, best_of(mounts, p)));
    let b = best_of(mounts, p);
    if b != i {
        if b < i {
            assert(qualifies(mounts[b].path, p));
            assert(qualifies(mounts[i].path, p));
            assert(false);
        } else {
            assert(qualifies(mounts[b].path, p));
            assert(qualifies(mounts[i].path, p));
            assert(false);
        }
    }
}

/// Where dispatch sends a path: the owning filesystem and the rest of
/// the path, after trimming.
pub open spec fn spec_dispatch(rd: RootDirView, path: Seq<u8>) -> (FsChoice, Seq<u8>) {
    let t = trim_spec(path);
    if some_match(rd.mounts, t) {
        (FsChoice::MountAt(best_of(rd.mounts, t) as usize), remainder(
            rd.mounts[best_of(rd.mounts, t)].path,
            t,
        ))
    } else {
        (FsChoice::MainFs, t)
    }
}

/// The table of the filesystem a choice names.
pub open spec fn fs_of(rd: RootDirView, c: FsChoice) -> Seq<EntryView> {
    match c {
        FsChoice::MainFs => rd.main,
        FsChoice::MountAt(i) => rd.mounts[i as int].fs,
    }
}

/// The root directory with the filesystem at `c` replaced.
pub open spec fn rd_with(rd: RootDirView, c: FsChoice, fsv: Seq<EntryView>) -> RootDirView {
    match c {
        FsChoice::MainFs => RootDirView { main: fsv, mounts: rd.mounts },
        FsChoice::MountAt(i) => RootDirView {
            main: rd.main,
            mounts: rd.mounts.update(
                i as int,
                MountPointView { path: rd.mounts[i as int].path, fs: fsv },
            ),
        },
    }
}

/// The choice a dispatch returns names a real filesystem.
pub open spec fn choice_ok(rd: RootDirView, c: FsChoice) -> bool {
    match c {
        FsChoice::MainFs => true,
        FsChoice::MountAt(i) => i < rd.mounts.len(),
    }
}

impl RootDirectory {
    /// A root directory over a main filesystem, with an empty mount
    /// table.
    pub fn new(main_fs: MemFs) -> (r: RootDirectory)
        requires
            fs_wf(main_fs@),
        ensures
            r@.main == main_fs@,
            r@.mounts =~= Seq::<MountPointView>::empty(),
            rd_wf(r@),
    {
        RootDirectory { main_fs, mounts: Vec::new() }
    }

    /// Whether a mount point with exactly this path is registered.
    pub fn contains(&self, path: &[u8]) -> (r: bool)
        ensures
            r <==> exists|i: int|
                0 <= i < self@.mounts.len() && (#[trigger] self@.mounts[i]).path == path@,
    {
        let mut i: usize = 0;
        while i < self.mounts.len()
            invariant
                i <= self@.mounts.len(),
                self@.mounts.len() == self.mounts@.len(),
                forall|j: int| 0 <= j < i ==> (#[trigger] self@.mounts[j]).path != path@,
            decreases self@.mounts.len() - i,
        {
            if bytes_eq(self.mounts[i].path.as_slice(), path) {
                assert(self@.mounts[i as int].path == path@);
                return true;
            }
            i = i + 1;
        }
        false
    }

    /// Dispatches a path: trims it, then picks the qualifying mount
    /// point with the longest path (the earliest such on a tie), or the
    /// main filesystem when none qualifies. Returns the choice and the
    /// rest of the path for that filesystem.
    pub fn resolve_mount(&self, path: &[u8]) -> (r: (FsChoice, Vec<u8>))
        requires
            rd_wf(self@),
        ensures
            (r.0, r.1@) == spec_dispatch(self@, path@),
            choice_ok(self@, r.0),
    {
        let t = trim_path(path);
        let ghost tv = trim_spec(path@);
        let mut found = false;
        let mut idx: usize = 0;
        let mut i: usize = 0;
        while i < self.mounts.len()
            invariant
                i <= self@.mounts.len(),
                self@.mounts.len() == self.mounts@.len(),
                rd_wf(self@),
                t@ == tv,
                found ==> idx < i && is_best(self@.mounts.take(i as int), tv, idx as int),
                !found ==> forall|j: int|
                    0 <= j < i ==> !qualifies((#[trigger] self@.mounts[j]).path, tv),
            decreases self@.mounts.len() - i,
        {
            let m = &self.mounts[i].path;
            let ghost mv = self@.mounts[i as int].path;
            proof {
                assert(mount_path_ok(mv));
            }
            let mut q = false;
            if m.len() >= 1 {
                let ms_len = m.len() - 1;
                if ms_len <= t.len() {
                    if bytes_eq(&m.as_slice()[1..m.len()], &t.as_slice()[0..ms_len]) {
                        if t.len() == ms_len {
                            q = true;
                        } else if t[ms_len] == SEP {
                            q = true;
                        }
                    }
                }
            }
            proof {
                if m@.len() >= 1 {
                    assert(mv.skip(1) =~= m@.subrange(1, m@.len() as int));
                    assert(tv.take(mv.skip(1).len() as int) =~= t@.subrange(
                        0,
                        (m@.len() - 1) as int,
                    ));
                }
                assert(q <==> qualifies(mv, tv));
            }
            if q {
                if !found || self.mounts[i].path.len() > self.mounts[idx].path.len() {
                    proof {
                        if found {
                            assert(is_best(self@.mounts.take(i as int), tv, idx as int));
                        }
                    }
                    idx = i;
                    found = true;
                }
            }
            proof {
                let tk = self@.mounts.take(i + 1);
                assert(forall|j: int| 0 <= j < i + 1 ==> tk[j] == self@.mounts[j]);
                if found {
                    assert(is_best(tk, tv, idx as int));
                }
            }
            i = i + 1;
        }
        proof {
            assert(self@.mounts.take(self@.mounts.len() as int) =~= self@.mounts);
        }
        if found {
            proof {
                lemma_best_unique(self@.mounts, tv, idx as int);
            }
            let m_len = self.mounts[idx].path.len();
            let rest: Vec<u8> = if t.len() > m_len - 1 {
                vstd::slice::slice_to_vec(&t.as_slice()[m_len..t.len()])
            } else {
                Vec::new()
            };
            proof {
                let mv = self@.mounts[idx as int].path;
                if tv.len() > mv.skip(1).len() {
                    assert(rest@ =~= remainder(mv, tv));
                } else {
                    assert(rest@ =~= remainder(mv, tv));
                }
            }
            (FsChoice::MountAt(idx), rest)
        } else {
            (FsChoice::MainFs, t)
        }
    }

    /// Registers a filesystem at `path`. The path must be absolute and
    /// not `/` nor already mounted; the directory at `path` is created
    /// in the main filesystem when absent (and must be a directory when
    /// present).
    pub fn mount(&mut self, path: &[u8], fs: MemFs) -> (r: Result<(), FsError>)
        requires
            rd_wf(old(self)@),
            fs_wf(fs@),
        ensures
            rd_wf(final(self)@),
            r == spec_mount(old(self)@, path@).0,
            final(self)@ == spec_mount_state(old(self)@, path@, fs@),
            r is Ok ==> final(self)@.mounts == old(self)@.mounts.push(
                MountPointView { path: path@, fs: fs@ },
            ),
            r is Err ==> final(self)@.mounts == old(self)@.mounts,
    {
        if path.len() == 0 || path[0] != SEP {
            return Err(FsError::InvalidInput);
        }
        if path.len() == 1 {
            return Err(FsError::InvalidInput);
        }
        if self.contains(path) {
            return Err(FsError::InvalidInput);
        }
        let base: Vec<Vec<u8>> = Vec::new();
        proof {
            assert(cv(base@) =~= Seq::<Seq<u8>>::empty());
        }
        let ghost np = node_path(Seq::empty(), path@);
        let cr = self.main_fs.create(&base, path, NodeType::Dir);
        match cr {
            Ok(()) => {},
            Err(FsError::AlreadyExists) => {
                // fine, as long as what exists is a directory
                match self.main_fs.lookup(&base, path) {
                    Ok(comps) => {
                        match self.main_fs.attr_of(&comps) {
                            Ok(attr) => {
                                if !attr.is_dir() {
                                    return Err(FsError::NotADirectory);
                                }
                            },
                            Err(e) => {
                                return Err(e);
                            },
                        }
                    },
                    Err(e) => {
                        return Err(e);
                    },
                }
            },
            Err(e) => {
                return Err(e);
            },
        }
        let ghost pre = self@;
        let mp = MountPoint::new(vstd::slice::slice_to_vec(path), fs);
        self.mounts.push(mp);
        proof {
            assert(self@.mounts =~= pre.mounts.push(MountPointView { path: path@, fs: fs@ }));
            assert(forall|i: int|
                0 <= i < pre.mounts.len() ==> self@.mounts[i] == pre.mounts[i]);
        }
        Ok(())
    }

    /// Removes the mount point with exactly this path, if any.
    pub fn _umount(&mut self, path: &[u8])
        requires
            rd_wf(old(self)@),
        ensures
            rd_wf(final(self)@),
            final(self)@.main == old(self)@.main,
            !mounted_at(final(self)@.mounts, path@),
            forall|q: Seq<u8>|
                q != path@ ==> (#[trigger] mounted_at(final(self)@.mounts, q) <==> mounted_at(
                    old(self)@.mounts,
                    q,
                )),
    {
        let mut i: usize = 0;
        while i < self.mounts.len()
            invariant
                i <= self@.mounts.len(),
                self@.mounts.len() == self.mounts@.len(),
                self@ == old(self)@,
                rd_wf(self@),
                forall|j: int| 0 <= j < i ==> (#[trigger] self@.mounts[j]).path != path@,
            decreases self@.mounts.len() - i,
        {
            if bytes_eq(self.mounts[i].path.as_slice(), path) {
                let ghost pre = self@;
                let _mp = self.mounts.remove(i);
                proof {
                    assert(self@.mounts =~= pre.mounts.remove(i as int));
                    assert(forall|j: int|
                        0 <= j < i ==> self@.mounts[j] == pre.mounts[j]);
                    assert(forall|j: int|
                        i <= j < self@.mounts.len() ==> self@.mounts[j] == pre.mounts[j + 1]);
                    assert forall|q: Seq<u8>| q != path@ && #[trigger] mounted_at(
                        pre.mounts,
                        q,
                    ) implies mounted_at(self@.mounts, q) by {
                        let k = choose|k: int|
                            0 <= k < pre.mounts.len() && pre.mounts[k].path == q;
                        assert(k != i);
                        if k < i {
                            assert(self@.mounts[k].path == q);
                        } else {
                            assert(self@.mounts[k - 1].path == q);
                        }
                    }
                    assert forall|q: Seq<u8>| #[trigger] mounted_at(
                        self@.mounts,
                        q,
                    ) implies mounted_at(pre.mounts, q) && q != path@ by {
                        let k = choose|k: int|
                            0 <= k < self@.mounts.len() && self@.mounts[k].path == q;
                        let k2: int = if k < i { k } else { k + 1 };
                        assert(pre.mounts[k2].path == q);
                        assert(k2 != i);
                        if q == path@ {
                            assert(pre.mounts[i as int].path == path@);
                            assert(false);
                        }
                    }
                }
                return ;
            }
            i = i + 1;
        }
    }
}

impl RootDirectory {
    /// The attributes of the root directory itself: the main
    /// filesystem's root.
    pub fn get_attr(&self) -> (r: Result<NodeAttr, FsError>)
        ensures
            r == Ok::<NodeAttr, FsError>(
                NodeAttr { perm: DEFAULT_DIR_PERM, ty: NodeType::Dir, size: 0 },
            ),
    {
        Ok(NodeAttr { perm: DEFAULT_DIR_PERM, ty: NodeType::Dir, size: 0 })
    }

    /// Looks a path up through the dispatcher.
    pub fn lookup(&self, path: &[u8]) -> (r: Result<NodeLoc, FsError>)
        requires
            rd_wf(self@),
        ensures
            match r {
                Ok(loc) => spec_root_lookup(self@, path@) == Ok::<NodeLocView, FsError>(loc@)
                    && choice_ok(self@, loc.fs),
                Err(e) => spec_root_lookup(self@, path@) == Err::<NodeLocView, FsError>(e),
            },
    {
        let (c, rest) = self.resolve_mount(path);
        let base: Vec<Vec<u8>> = Vec::new();
        proof {
            assert(cv(base@) =~= Seq::<Seq<u8>>::empty());
        }
        let inner = match c {
            FsChoice::MainFs => self.main_fs.lookup(&base, rest.as_slice()),
            FsChoice::MountAt(i) => {
                proof {
                    assert(fs_wf(self@.mounts[i as int].fs));
                }
                self.mounts[i].fs.lookup(&base, rest.as_slice())
            },
        };
        match inner {
            Ok(comps) => Ok(NodeLoc { fs: c, comps }),
            Err(e) => Err(e),
        }
    }

    /// Creates a file or directory through the dispatcher.
    pub fn create(&mut self, path: &[u8], ty: NodeType) -> (r: Result<(), FsError>)
        requires
            rd_wf(old(self)@),
        ensures
            rd_wf(final(self)@),
            final(self)@.mounts.len() == old(self)@.mounts.len(),
            r == spec_root_create(old(self)@, path@, ty),
            final(self)@ == spec_root_create_state(old(self)@, path@, ty),
    {
        let (c, rest) = self.resolve_mount(path);
        if rest.len() == 0 {
            return Ok(());
        }
        let base: Vec<Vec<u8>> = Vec::new();
        proof {
            assert(cv(base@) =~= Seq::<Seq<u8>>::empty());
        }
        match c {
            FsChoice::MainFs => self.main_fs.create(&base, rest.as_slice(), ty),
            FsChoice::MountAt(i) => {
                let ghost pre = self@;
                let mut mp = self.mounts.remove(i);
                proof {
                    assert(mp@ == pre.mounts[i as int]);
                    assert(fs_wf(mp.fs@));
                }
                let r = mp.fs.create(&base, rest.as_slice(), ty);
                let ghost mpv = mp@;
                self.mounts.insert(i, mp);
                proof {
                    assert(self@.mounts =~= pre.mounts.remove(i as int).insert(i as int, mpv));
                    lemma_reinsert(pre.mounts, self@.mounts, i as int, mpv);
                    assert(self@ == rd_with(pre, c, mpv.fs)) by {
                        assert(self@.mounts =~= pre.mounts.update(i as int, mpv));
                        assert(mpv =~= MountPointView { path: pre.mounts[i as int].path, fs: mpv.fs });
                    }
                }
                r
            },
        }
    }

    /// Removes a node through the dispatcher; the mount point root
    /// itself is protected.
    pub fn remove(&mut self, path: &[u8]) -> (r: Result<(), FsError>)
        requires
            rd_wf(old(self)@),
        ensures
            rd_wf(final(self)@),
            final(self)@.mounts.len() == old(self)@.mounts.len(),
            r == spec_root_remove(old(self)@, path@),
            final(self)@ == spec_root_remove_state(old(self)@, path@),
    {
        let (c, rest) = self.resolve_mount(path);
        if rest.len() == 0 {
            return Err(FsError::PermissionDenied);
        }
        let base: Vec<Vec<u8>> = Vec::new();
        proof {
            assert(cv(base@) =~= Seq::<Seq<u8>>::empty());
        }
        match c {
            FsChoice::MainFs => self.main_fs.remove(&base, rest.as_slice()),
            FsChoice::MountAt(i) => {
                let ghost pre = self@;
                let mut mp = self.mounts.remove(i);
                proof {
                    assert(mp@ == pre.mounts[i as int]);
                    assert(fs_wf(mp.fs@));
                }
                let r = mp.fs.remove(&base, rest.as_slice());
                let ghost mpv = mp@;
                self.mounts.insert(i, mp);
                proof {
                    assert(self@.mounts =~= pre.mounts.remove(i as int).insert(i as int, mpv));
                    lemma_reinsert(pre.mounts, self@.mounts, i as int, mpv);
                    assert(self@ == rd_with(pre, c, mpv.fs)) by {
                        assert(self@.mounts =~= pre.mounts.update(i as int, mpv));
                        assert(mpv =~= MountPointView { path: pre.mounts[i as int].path, fs: mpv.fs });
                    }
                }
                r
            },
        }
    }

    /// Stores a symbolic link through the dispatcher.
    pub fn symlink(&mut self, target: &[u8], path: &[u8]) -> (r: Result<(), FsError>)
        requires
            rd_wf(old(self)@),
        ensures
            rd_wf(final(self)@),
            final(self)@.mounts.len() == old(self)@.mounts.len(),
            r == spec_root_symlink(old(self)@, path@),
            final(self)@ == spec_root_symlink_state(old(self)@, path@, target@),
    {
        let (c, rest) = self.resolve_mount(path);
        if rest.len() == 0 {
            return Err(FsError::InvalidInput);
        }
        let base: Vec<Vec<u8>> = Vec::new();
        proof {
            assert(cv(base@) =~= Seq::<Seq<u8>>::empty());
        }
        match c {
            FsChoice::MainFs => self.main_fs.symlink(&base, target, rest.as_slice()),
            FsChoice::MountAt(i) => {
                let ghost pre = self@;
                let mut mp = self.mounts.remove(i);
                proof {
                    assert(mp@ == pre.mounts[i as int]);
                    assert(fs_wf(mp.fs@));
                }
                let r = mp.fs.symlink(&base, target, rest.as_slice());
                let ghost mpv = mp@;
                self.mounts.insert(i, mp);
                proof {
                    assert(self@.mounts =~= pre.mounts.remove(i as int).insert(i as int, mpv));
                    lemma_reinsert(pre.mounts, self@.mounts, i as int, mpv);
                    assert(self@ == rd_with(pre, c, mpv.fs)) by {
                        assert(self@.mounts =~= pre.mounts.update(i as int, mpv));
                        assert(mpv =~= MountPointView { path: pre.mounts[i as int].path, fs: mpv.fs });
                    }
                }
                r
            },
        }
    }

    /// Reads a symbolic link's target through the dispatcher.
    pub fn readlink(&self, path: &[u8]) -> (r: Result<Vec<u8>, FsError>)
        requires
            rd_wf(self@),
        ensures
            match r {
                Ok(v) => spec_root_readlink(self@, path@) == Ok::<Seq<u8>, FsError>(v@),
                Err(e) => spec_root_readlink(self@, path@) == Err::<Seq<u8>, FsError>(e),
            },
    {
        let (c, rest) = self.resolve_mount(path);
        if rest.len() == 0 {
            return Err(FsError::NotFound);
        }
        let base: Vec<Vec<u8>> = Vec::new();
        proof {
            assert(cv(base@) =~= Seq::<Seq<u8>>::empty());
        }
        match c {
            FsChoice::MainFs => self.main_fs.readlink(&base, rest.as_slice()),
            FsChoice::MountAt(i) => {
                proof {
                    assert(fs_wf(self@.mounts[i as int].fs));
                }
                self.mounts[i].fs.readlink(&base, rest.as_slice())
            },
        }
    }

    /// Renames a node through the dispatcher: the source's filesystem
    /// serves the operation; a destination under another filesystem is
    /// refused.
    pub fn rename(&mut self, src_path: &[u8], dst_path: &[u8]) -> (r: Result<(), FsError>)
        requires
            rd_wf(old(self)@),
        ensures
            rd_wf(final(self)@),
            final(self)@.mounts.len() == old(self)@.mounts.len(),
            r == spec_root_rename(old(self)@, src_path@, dst_path@),
            final(self)@ == spec_root_rename_state(old(self)@, src_path@, dst_path@),
    {
        let (c1, r1) = self.resolve_mount(src_path);
        let (c2, r2) = self.resolve_mount(dst_path);
        if r1.len() == 0 {
            return Err(FsError::PermissionDenied);
        }
        if c2 != c1 {
            return Err(FsError::InvalidInput);
        }
        let base: Vec<Vec<u8>> = Vec::new();
        proof {
            assert(cv(base@) =~= Seq::<Seq<u8>>::empty());
        }
        match c1 {
            FsChoice::MainFs => self.main_fs.rename(&base, r1.as_slice(), r2.as_slice()),
            FsChoice::MountAt(i) => {
                let ghost pre = self@;
                let mut mp = self.mounts.remove(i);
                proof {
                    assert(mp@ == pre.mounts[i as int]);
                    assert(fs_wf(mp.fs@));
                }
                let r = mp.fs.rename(&base, r1.as_slice(), r2.as_slice());
                let ghost mpv = mp@;
                self.mounts.insert(i, mp);
                proof {
                    assert(self@.mounts =~= pre.mounts.remove(i as int).insert(i as int, mpv));
                    lemma_reinsert(pre.mounts, self@.mounts, i as int, mpv);
                    assert(self@ == rd_with(pre, c1, mpv.fs)) by {
                        assert(self@.mounts =~= pre.mounts.update(i as int, mpv));
                        assert(mpv =~= MountPointView { path: pre.mounts[i as int].path, fs: mpv.fs });
                    }
                }
                r
            },
        }
    }
}

/// What a root-level node insertion returns (for backends' fixed
/// device and synthetic nodes).
pub open spec fn spec_root_add(rd: RootDirView, path: Seq<u8>) -> Result<(), FsError> {
    let (c, rest) = spec_dispatch(rd, path);
    if rest.len() == 0 {
        Err(FsError::InvalidInput)
    } else {
        crate::memfs::spec_add(fs_of(rd, c), node_path(Seq::empty(), rest))
    }
}

/// The root directory after a root-level node insertion.
pub open spec fn spec_root_add_state(
    rd: RootDirView,
    path: Seq<u8>,
    ty: NodeType,
    perm: u16,
) -> RootDirView {
    let (c, rest) = spec_dispatch(rd, path);
    if rest.len() == 0 {
        rd
    } else {
        rd_with(
            rd,
            c,
            crate::memfs::spec_add_state(fs_of(rd, c), node_path(Seq::empty(), rest), ty, perm),
        )
    }
}

impl RootDirectory {
    /// Inserts a node of a fixed kind and permission through the
    /// dispatcher.
    pub fn add_node(&mut self, path: &[u8], ty: NodeType, perm: u16) -> (r: Result<(), FsError>)
        requires
            rd_wf(old(self)@),
        ensures
            rd_wf(final(self)@),
            final(self)@.mounts.len() == old(self)@.mounts.len(),
            r == spec_root_add(old(self)@, path@),
            final(self)@ == spec_root_add_state(old(self)@, path@, ty, perm),
    {
        let (c, rest) = self.resolve_mount(path);
        if rest.len() == 0 {
            return Err(FsError::InvalidInput);
        }
        let base: Vec<Vec<u8>> = Vec::new();
        proof {
            assert(cv(base@) =~= Seq::<Seq<u8>>::empty());
        }
        match c {
            FsChoice::MainFs => self.main_fs.add_node(&base, rest.as_slice(), ty, perm),
            FsChoice::MountAt(i) => {
                let ghost pre = self@;
                let mut mp = self.mounts.remove(i);
                proof {
                    assert(mp@ == pre.mounts[i as int]);
                    assert(fs_wf(mp.fs@));
                }
                let r = mp.fs.add_node(&base, rest.as_slice(), ty, perm);
                let ghost mpv = mp@;
                self.mounts.insert(i, mp);
                proof {
                    assert(self@.mounts =~= pre.mounts.remove(i as int).insert(i as int, mpv));
                    lemma_reinsert(pre.mounts, self@.mounts, i as int, mpv);
                    assert(self@ == rd_with(pre, c, mpv.fs)) by {
                        assert(self@.mounts =~= pre.mounts.update(i as int, mpv));
                        assert(mpv =~= MountPointView { path: pre.mounts[i as int].path, fs: mpv.fs });
                    }
                }
                r
            },
        }
    }

    /// Creates a file or directory in the filesystem `c` names,
    /// node-relative to `base`.
    pub fn fs_create(&mut self, c: FsChoice, base: &Vec<Vec<u8>>, rel: &[u8], ty: NodeType) -> (r:
        Result<(), FsError>)
        requires
            rd_wf(old(self)@),
            choice_ok(old(self)@, c),
            crate::path::all_valid(cv(base@)),
        ensures
            rd_wf(final(self)@),
            final(self)@.mounts.len() == old(self)@.mounts.len(),
            r == spec_create(fs_of(old(self)@, c), node_path(cv(base@), rel@), ty),
            final(self)@ == rd_with(
                old(self)@,
                c,
                spec_create_state(fs_of(old(self)@, c), node_path(cv(base@), rel@), ty),
            ),
    {
        match c {
            FsChoice::MainFs => self.main_fs.create(base, rel, ty),
            FsChoice::MountAt(i) => {
                let ghost pre = self@;
                let mut mp = self.mounts.remove(i);
                proof {
                    assert(mp@ == pre.mounts[i as int]);
                    assert(fs_wf(mp.fs@));
                }
                let r = mp.fs.create(base, rel, ty);
                let ghost mpv = mp@;
                self.mounts.insert(i, mp);
                proof {
                    assert(self@.mounts =~= pre.mounts.remove(i as int).insert(i as int, mpv));
                    lemma_reinsert(pre.mounts, self@.mounts, i as int, mpv);
                    assert(self@ == rd_with(pre, c, mpv.fs)) by {
                        assert(self@.mounts =~= pre.mounts.update(i as int, mpv));
                        assert(mpv =~= MountPointView { path: pre.mounts[i as int].path, fs: mpv.fs });
                    }
                }
                r
            },
        }
    }

    /// Removes a node in the filesystem `c` names, node-relative to
    /// `base`.
    pub fn fs_remove(&mut self, c: FsChoice, base: &Vec<Vec<u8>>, rel: &[u8]) -> (r: Result<
        (),
        FsError,
    >)
        requires
            rd_wf(old(self)@),
            choice_ok(old(self)@, c),
            crate::path::all_valid(cv(base@)),
        ensures
            rd_wf(final(self)@),
            final(self)@.mounts.len() == old(self)@.mounts.len(),
            r == spec_remove(fs_of(old(self)@, c), node_path(cv(base@), rel@)),
            final(self)@ == rd_with(
                old(self)@,
                c,
                spec_remove_state(fs_of(old(self)@, c), node_path(cv(base@), rel@)),
            ),
    {
        match c {
            FsChoice::MainFs => self.main_fs.remove(base, rel),
            FsChoice::MountAt(i) => {
                let ghost pre = self@;
                let mut mp = self.mounts.remove(i);
                proof {
                    assert(mp@ == pre.mounts[i as int]);
                    assert(fs_wf(mp.fs@));
                }
                let r = mp.fs.remove(base, rel);
                let ghost mpv = mp@;
                self.mounts.insert(i, mp);
                proof {
                    assert(self@.mounts =~= pre.mounts.remove(i as int).insert(i as int, mpv));
                    lemma_reinsert(pre.mounts, self@.mounts, i as int, mpv);
                    assert(self@ == rd_with(pre, c, mpv.fs)) by {
                        assert(self@.mounts =~= pre.mounts.update(i as int, mpv));
                        assert(mpv =~= MountPointView { path: pre.mounts[i as int].path, fs: mpv.fs });
                    }
                }
                r
            },
        }
    }

    /// Renames inside the filesystem `c` names, node-relative to
    /// `base`.
    pub fn fs_rename(&mut self, c: FsChoice, base: &Vec<Vec<u8>>, src: &[u8], dst: &[u8]) -> (r:
        Result<(), FsError>)
        requires
            rd_wf(old(self)@),
            choice_ok(old(self)@, c),
            crate::path::all_valid(cv(base@)),
        ensures
            rd_wf(final(self)@),
            final(self)@.mounts.len() == old(self)@.mounts.len(),
            r == spec_rename(
                fs_of(old(self)@, c),
                node_path(cv(base@), src@),
                node_path(cv(base@), dst@),
            ),
            final(self)@ == rd_with(
                old(self)@,
                c,
                spec_rename_state(
                    fs_of(old(self)@, c),
                    node_path(cv(base@), src@),
                    node_path(cv(base@), dst@),
                ),
            ),
    {
        match c {
            FsChoice::MainFs => {
                let r = self.main_fs.rename(base, src, dst);
                proof {
                    assert(self@ =~= rd_with(old(self)@, c, self.main_fs@));
                }
                r
            },
            FsChoice::MountAt(i) => {
                let ghost pre = self@;
                let mut mp = self.mounts.remove(i);
                proof {
                    assert(mp@ == pre.mounts[i as int]);
                    assert(fs_wf(mp.fs@));
                }
                let r = mp.fs.rename(base, src, dst);
                let ghost mpv = mp@;
                self.mounts.insert(i, mp);
                proof {
                    assert(self@.mounts =~= pre.mounts.remove(i as int).insert(i as int, mpv));
                    lemma_reinsert(pre.mounts, self@.mounts, i as int, mpv);
                    assert(self@ == rd_with(pre, c, mpv.fs)) by {
                        assert(self@.mounts =~= pre.mounts.update(i as int, mpv));
                        assert(mpv =~= MountPointView { path: pre.mounts[i as int].path, fs: mpv.fs });
                    }
                }
                r
            },
        }
    }

    /// Inserts a node of a fixed kind and permission in the filesystem
    /// `c` names, node-relative to `base`.
    pub fn fs_add(&mut self, c: FsChoice, base: &Vec<Vec<u8>>, rel: &[u8], ty: NodeType, perm: u16)
        -> (r: Result<(), FsError>)
        requires
            rd_wf(old(self)@),
            choice_ok(old(self)@, c),
            crate::path::all_valid(cv(base@)),
        ensures
            rd_wf(final(self)@),
            final(self)@.mounts.len() == old(self)@.mounts.len(),
            r == crate::memfs::spec_add(fs_of(old(self)@, c), node_path(cv(base@), rel@)),
            final(self)@ == rd_with(
                old(self)@,
                c,
                crate::memfs::spec_add_state(
                    fs_of(old(self)@, c),
                    node_path(cv(base@), rel@),
                    ty,
                    perm,
                ),
            ),
    {
        match c {
            FsChoice::MainFs => self.main_fs.add_node(base, rel, ty, perm),
            FsChoice::MountAt(i) => {
                let ghost pre = self@;
                let mut mp = self.mounts.remove(i);
                proof {
                    assert(mp@ == pre.mounts[i as int]);
                    assert(fs_wf(mp.fs@));
                }
                let r = mp.fs.add_node(base, rel, ty, perm);
                let ghost mpv = mp@;
                self.mounts.insert(i, mp);
                proof {
                    assert(self@.mounts =~= pre.mounts.remove(i as int).insert(i as int, mpv));
                    lemma_reinsert(pre.mounts, self@.mounts, i as int, mpv);
                    assert(self@ == rd_with(pre, c, mpv.fs)) by {
                        assert(self@.mounts =~= pre.mounts.update(i as int, mpv));
                        assert(mpv =~= MountPointView { path: pre.mounts[i as int].path, fs: mpv.fs });
                    }
                }
                r
            },
        }
    }

    /// Overwrites permission bits in the filesystem `c` names.
    pub fn fs_set_perm(&mut self, c: FsChoice, comps: &Vec<Vec<u8>>, mode: u16) -> (r: Result<
        (),
        FsError,
    >)
        requires
            rd_wf(old(self)@),
            choice_ok(old(self)@, c),
        ensures
            rd_wf(final(self)@),
            final(self)@.mounts.len() == old(self)@.mounts.len(),
            r == crate::memfs::spec_set_perm(fs_of(old(self)@, c), cv(comps@)),
            final(self)@ == rd_with(
                old(self)@,
                c,
                crate::memfs::spec_set_perm_state(fs_of(old(self)@, c), cv(comps@), mode),
            ),
    {
        match c {
            FsChoice::MainFs => self.main_fs.set_perm_at(comps, mode),
            FsChoice::MountAt(i) => {
                let ghost pre = self@;
                let mut mp = self.mounts.remove(i);
                proof {
                    assert(mp@ == pre.mounts[i as int]);
                    assert(fs_wf(mp.fs@));
                }
                let r = mp.fs.set_perm_at(comps, mode);
                let ghost mpv = mp@;
                self.mounts.insert(i, mp);
                proof {
                    assert(self@.mounts =~= pre.mounts.remove(i as int).insert(i as int, mpv));
                    lemma_reinsert(pre.mounts, self@.mounts, i as int, mpv);
                    assert(self@ == rd_with(pre, c, mpv.fs)) by {
                        assert(self@.mounts =~= pre.mounts.update(i as int, mpv));
                        assert(mpv =~= MountPointView { path: pre.mounts[i as int].path, fs: mpv.fs });
                    }
                }
                r
            },
        }
    }
}

/// Removing an element and putting one back at the same index is an
/// update.
pub proof fn lemma_reinsert(
    pre: Seq<MountPointView>,
    post: Seq<MountPointView>,
    i: int,
    mp: MountPointView,
)
    requires
        0 <= i < pre.len(),
        post =~= pre.remove(i).insert(i, mp),
    ensures
        post =~= pre.update(i, mp),
{
    assert(forall|j: int| 0 <= j < i ==> post[j] == pre[j]);
    assert(post[i] == mp);
    assert(forall|j: int| i < j < pre.len() ==> post[j] == pre[j]);
}

/// What a root-level lookup returns: the node location under the
/// owning filesystem, or `NotFound`.
pub open spec fn spec_root_lookup(rd: RootDirView, path: Seq<u8>) -> Result<NodeLocView, FsError> {
    let (c, rest) = spec_dispatch(rd, path);
    let np = node_path(Seq::empty(), rest);
    if np.len() == 0 || has_path(fs_of(rd, c), np) {
        Ok(NodeLocView { fs: c, comps: np })
    } else {
        Err(FsError::NotFound)
    }
}

/// What a root-level create returns: an empty remainder targets the
/// subtree root, which already exists.
pub open spec fn spec_root_create(rd: RootDirView, path: Seq<u8>, ty: NodeType) -> Result<
    (),
    FsError,
> {
    let (c, rest) = spec_dispatch(rd, path);
    if rest.len() == 0 {
        Ok(())
    } else {
        spec_create(fs_of(rd, c), node_path(Seq::empty(), rest), ty)
    }
}

/// The root directory after a root-level create.
pub open spec fn spec_root_create_state(
    rd: RootDirView,
    path: Seq<u8>,
    ty: NodeType,
) -> RootDirView {
    let (c, rest) = spec_dispatch(rd, path);
    if rest.len() == 0 {
        rd
    } else {
        rd_with(rd, c, spec_create_state(fs_of(rd, c), node_path(Seq::empty(), rest), ty))
    }
}

/// What a root-level remove returns: mount points themselves cannot be
/// removed through the filesystem interface.
pub open spec fn spec_root_remove(rd: RootDirView, path: Seq<u8>) -> Result<(), FsError> {
    let (c, rest) = spec_dispatch(rd, path);
    if rest.len() == 0 {
        Err(FsError::PermissionDenied)
    } else {
        spec_remove(fs_of(rd, c), node_path(Seq::empty(), rest))
    }
}

/// The root directory after a root-level remove.
pub open spec fn spec_root_remove_state(rd: RootDirView, path: Seq<u8>) -> RootDirView {
    let (c, rest) = spec_dispatch(rd, path);
    if rest.len() == 0 {
        rd
    } else {
        rd_with(rd, c, spec_remove_state(fs_of(rd, c), node_path(Seq::empty(), rest)))
    }
}

/// What a root-level symlink returns: the mount point root cannot be
/// replaced by a link.
pub open spec fn spec_root_symlink(rd: RootDirView, path: Seq<u8>) -> Result<(), FsError> {
    let (c, rest) = spec_dispatch(rd, path);
    if rest.len() == 0 {
        Err(FsError::InvalidInput)
    } else {
        spec_symlink(fs_of(rd, c), node_path(Seq::empty(), rest))
    }
}

/// The root directory after a root-level symlink.
pub open spec fn spec_root_symlink_state(
    rd: RootDirView,
    path: Seq<u8>,
    target: Seq<u8>,
) -> RootDirView {
    let (c, rest) = spec_dispatch(rd, path);
    if rest.len() == 0 {
        rd
    } else {
        rd_with(rd, c, spec_symlink_state(fs_of(rd, c), node_path(Seq::empty(), rest), target))
    }
}

/// What a root-level readlink returns: a mount point root has no link
/// to read.
pub open spec fn spec_root_readlink(rd: RootDirView, path: Seq<u8>) -> Result<Seq<u8>, FsError> {
    let (c, rest) = spec_dispatch(rd, path);
    if rest.len() == 0 {
        Err(FsError::NotFound)
    } else {
        spec_readlink(fs_of(rd, c), node_path(Seq::empty(), rest))
    }
}

/// What a root-level rename returns: the source dispatch decides the
/// filesystem; a destination under another mount cannot be served.
pub open spec fn spec_root_rename(rd: RootDirView, src: Seq<u8>, dst: Seq<u8>) -> Result<
    (),
    FsError,
> {
    let (c1, r1) = spec_dispatch(rd, src);
    let (c2, r2) = spec_dispatch(rd, dst);
    if r1.len() == 0 {
        Err(FsError::PermissionDenied)
    } else if c2 != c1 {
        Err(FsError::InvalidInput)
    } else {
        spec_rename(fs_of(rd, c1), node_path(Seq::empty(), r1), node_path(Seq::empty(), r2))
    }
}

/// The root directory after a root-level rename.
pub open spec fn spec_root_rename_state(rd: RootDirView, src: Seq<u8>, dst: Seq<u8>) -> RootDirView {
    let (c1, r1) = spec_dispatch(rd, src);
    let (c2, r2) = spec_dispatch(rd, dst);
    if r1.len() == 0 || c2 != c1 {
        rd
    } else {
        rd_with(
            rd,
            c1,
            spec_rename_state(
                fs_of(rd, c1),
                node_path(Seq::empty(), r1),
                node_path(Seq::empty(), r2),
            ),
        )
    }
}

/// What `mount` returns and the state it leaves: the path checks, then
/// the directory creation in the main filesystem, then the push.
pub open spec fn spec_mount(rd: RootDirView, path: Seq<u8>) -> (Result<(), FsError>, Seq<
    EntryView,
>) {
    let comps = node_path(Seq::empty(), path);
    let cr = spec_create(rd.main, comps, NodeType::Dir);
    if path.len() == 0 || path[0] != SEP || path.len() == 1 {
        (Err(FsError::InvalidInput), rd.main)
    } else if exists|i: int|
        0 <= i < rd.mounts.len() && (#[trigger] rd.mounts[i]).path == path {
        (Err(FsError::InvalidInput), rd.main)
    } else if cr == Ok::<(), FsError>(()) {
        (Ok(()), spec_create_state(rd.main, comps, NodeType::Dir))
    } else if cr == Err::<(), FsError>(FsError::AlreadyExists) {
        if entry_at(rd.main, comps).ty == NodeType::Dir {
            (Ok(()), rd.main)
        } else {
            (Err(FsError::NotADirectory), rd.main)
        }
    } else {
        (cr, rd.main)
    }
}

/// The whole root directory after `mount`.
pub open spec fn spec_mount_state(rd: RootDirView, path: Seq<u8>, fsv: Seq<EntryView>) -> RootDirView {
    let (r, main2) = spec_mount(rd, path);
    if r == Ok::<(), FsError>(()) {
        RootDirView { main: main2, mounts: rd.mounts.push(MountPointView { path: path, fs: fsv }) }
    } else {
        rd
    }
}

} // verus!
