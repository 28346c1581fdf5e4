//! The filesystem context: the root directory singleton, the
//! current-working-directory state machine, and the policy layer of
//! every path-based operation (lookup, create, remove, rename,
//! symbolic links, permissions), including the bounded symbolic-link
//! resolver.
//!
//! The context is an explicitly constructed object: it is created once
//! by [`init_rootfs`] (or [`FsContext::new`] for a bare root) and then
//! lives for the process lifetime; tests can construct independent
//! contexts.

use vstd::prelude::*;
use vstd::slice::slice_to_vec;

use crate::memfs::{
    MemFs, comps_clone, fs_wf, has_path, node_path, spec_add, spec_create, spec_create_state,
    spec_get_attr, spec_readlink, spec_remove, spec_remove_state, spec_rename, spec_rename_state,
    spec_set_perm, spec_set_perm_state, spec_symlink, spec_symlink_state,
};
use crate::mount::{
    FsChoice, MountPointView, NodeLoc, NodeLocView, RootDirectory, RootDirView, choice_ok, fs_of,
    mounted_at, rd_wf, rd_with, spec_root_create, spec_root_create_state, spec_root_lookup,
    spec_root_readlink, spec_root_remove, spec_root_remove_state, spec_root_rename,
    spec_root_rename_state, spec_root_symlink, spec_root_symlink_state,
};
use crate::path::{
    DOT, SEP, all_valid, canon_spec, canonicalize, cv, is_abs, last_sep_idx, rfind_sep,
    strip_slashes, trim_slashes,
};
use crate::types::{
    DEFAULT_DIR_PERM, FsError, NodeAttr, NodeType, PERM_OWNER_EXEC, PERM_OWNER_WRITE, perm_is_valid,
    perm_valid,
};

verus! {

/// A reference to a resolved node: the root directory object itself
/// (which dispatches across mounts), or a node inside one filesystem.
pub enum NodeRef {
    Root,
    At(NodeLoc),
}

/// The mathematical image of a node reference.
#[verifier::ext_equal]
pub enum NodeRefView {
    Root,
    At(NodeLocView),
}

impl View for NodeRef {
    type V = NodeRefView;

    open spec fn view(&self) -> NodeRefView {
        match self {
            NodeRef::Root => NodeRefView::Root,
            NodeRef::At(loc) => NodeRefView::At(loc@),
        }
    }
}

impl NodeRef {
    /// An independent copy of the reference.
    pub fn duplicate(&self) -> (r: NodeRef)
        ensures
            r@ == self@,
    {
        match self {
            NodeRef::Root => NodeRef::Root,
            NodeRef::At(loc) => NodeRef::At(
                NodeLoc { fs: loc.fs, comps: comps_clone(&loc.comps) },
            ),
        }
    }
}

/// A node reference that points into the root directory it is used
/// with.
pub open spec fn nref_wf(rd: RootDirView, n: NodeRefView) -> bool {
    match n {
        NodeRefView::Root => true,
        NodeRefView::At(loc) => choice_ok(rd, loc.fs) && all_valid(loc.comps),
    }
}

/// The filesystem context: root directory, and the current directory
/// as the logically coupled pair of a node reference and a canonical
/// absolute path with a trailing separator.
pub struct FsContext {
    pub root: RootDirectory,
    pub cwd: NodeRef,
    pub cwd_path: Vec<u8>,
}

/// The mathematical image of a context.
#[verifier::ext_equal]
pub struct FsContextView {
    pub root: RootDirView,
    pub cwd: NodeRefView,
    pub cwd_path: Seq<u8>,
}

impl View for FsContext {
    type V = FsContextView;

    open spec fn view(&self) -> FsContextView {
        FsContextView { root: self.root@, cwd: self.cwd@, cwd_path: self.cwd_path@ }
    }
}

/// Well-formedness of a context: the root directory is well-formed,
/// the current path is absolute and ends in a separator, and the
/// current node reference points into the root directory.
pub open spec fn ctx_wf(c: FsContextView) -> bool {
    &&& rd_wf(c.root)
    &&& is_abs(c.cwd_path)
    &&& c.cwd_path.last() == SEP
    &&& nref_wf(c.root, c.cwd)
}

/// The absolute, canonical form of a path in this context: a relative
/// path is taken against the current directory first.
pub open spec fn abs_of(c: FsContextView, path: Seq<u8>) -> Seq<u8> {
    if is_abs(path) {
        canon_spec(path)
    } else {
        canon_spec(c.cwd_path + path)
    }
}

/// The starting node of a path operation: the root for absolute paths,
/// otherwise the supplied directory or the current one.
pub open spec fn start_of(c: FsContextView, dir: Option<NodeRefView>, path: Seq<u8>) -> NodeRefView {
    if is_abs(path) {
        NodeRefView::Root
    } else {
        match dir {
            Some(d) => d,
            None => c.cwd,
        }
    }
}

/// The view of an optional starting directory argument.
pub open spec fn dir_view(dir: Option<&NodeRef>) -> Option<NodeRefView> {
    match dir {
        Some(d) => Some(d@),
        None => None,
    }
}

/// What looking `path` up from a starting node returns: through the
/// dispatcher from the root, or node-relative inside one filesystem.
pub open spec fn spec_node_lookup(rd: RootDirView, start: NodeRefView, path: Seq<u8>) -> Result<
    NodeRefView,
    FsError,
> {
    match start {
        NodeRefView::Root => match spec_root_lookup(rd, path) {
            Ok(loc) => Ok(NodeRefView::At(loc)),
            Err(e) => Err(e),
        },
        NodeRefView::At(loc) => {
            let np = node_path(loc.comps, path);
            if np.len() == 0 || has_path(fs_of(rd, loc.fs), np) {
                Ok(NodeRefView::At(NodeLocView { fs: loc.fs, comps: np }))
            } else {
                Err(FsError::NotFound)
            }
        },
    }
}

/// The attributes of the node a reference points at.
pub open spec fn spec_attr_of(rd: RootDirView, n: NodeRefView) -> Result<NodeAttr, FsError> {
    match n {
        NodeRefView::Root => Ok(NodeAttr { perm: DEFAULT_DIR_PERM, ty: NodeType::Dir, size: 0 }),
        NodeRefView::At(loc) => spec_get_attr(fs_of(rd, loc.fs), loc.comps),
    }
}

/// What the policy-level lookup returns: an empty path is `NotFound`,
/// and a trailing separator asserts directory intent.
pub open spec fn spec_lookup(
    c: FsContextView,
    dir: Option<NodeRefView>,
    path: Seq<u8>,
) -> Result<NodeRefView, FsError> {
    if path.len() == 0 {
        Err(FsError::NotFound)
    } else {
        match spec_node_lookup(c.root, start_of(c, dir, path), path) {
            Ok(n) => match spec_attr_of(c.root, n) {
                Ok(attr) => if path.last() == SEP && attr.ty != NodeType::Dir {
                    Err(FsError::NotADirectory)
                } else {
                    Ok(n)
                },
                Err(e) => Err(e),
            },
            Err(e) => Err(e),
        }
    }
}

/// What creating at `path` from a starting node returns.
pub open spec fn spec_node_create(
    rd: RootDirView,
    start: NodeRefView,
    path: Seq<u8>,
    ty: NodeType,
) -> Result<(), FsError> {
    match start {
        NodeRefView::Root => spec_root_create(rd, path, ty),
        NodeRefView::At(loc) => spec_create(fs_of(rd, loc.fs), node_path(loc.comps, path), ty),
    }
}

/// The root directory after creating at `path` from a starting node.
pub open spec fn spec_node_create_state(
    rd: RootDirView,
    start: NodeRefView,
    path: Seq<u8>,
    ty: NodeType,
) -> RootDirView {
    match start {
        NodeRefView::Root => spec_root_create_state(rd, path, ty),
        NodeRefView::At(loc) => rd_with(
            rd,
            loc.fs,
            spec_create_state(fs_of(rd, loc.fs), node_path(loc.comps, path), ty),
        ),
    }
}

/// What removing `path` from a starting node returns.
pub open spec fn spec_node_remove(rd: RootDirView, start: NodeRefView, path: Seq<u8>) -> Result<
    (),
    FsError,
> {
    match start {
        NodeRefView::Root => spec_root_remove(rd, path),
        NodeRefView::At(loc) => spec_remove(fs_of(rd, loc.fs), node_path(loc.comps, path)),
    }
}

/// The root directory after removing `path` from a starting node.
pub open spec fn spec_node_remove_state(
    rd: RootDirView,
    start: NodeRefView,
    path: Seq<u8>,
) -> RootDirView {
    match start {
        NodeRefView::Root => spec_root_remove_state(rd, path),
        NodeRefView::At(loc) => rd_with(
            rd,
            loc.fs,
            spec_remove_state(fs_of(rd, loc.fs), node_path(loc.comps, path)),
        ),
    }
}

/// What renaming from a starting node returns.
pub open spec fn spec_node_rename(
    rd: RootDirView,
    start: NodeRefView,
    src: Seq<u8>,
    dst: Seq<u8>,
) -> Result<(), FsError> {
    match start {
        NodeRefView::Root => spec_root_rename(rd, src, dst),
        NodeRefView::At(loc) => spec_rename(
            fs_of(rd, loc.fs),
            node_path(loc.comps, src),
            node_path(loc.comps, dst),
        ),
    }
}

/// The root directory after renaming from a starting node.
pub open spec fn spec_node_rename_state(
    rd: RootDirView,
    start: NodeRefView,
    src: Seq<u8>,
    dst: Seq<u8>,
) -> RootDirView {
    match start {
        NodeRefView::Root => spec_root_rename_state(rd, src, dst),
        NodeRefView::At(loc) => rd_with(
            rd,
            loc.fs,
            spec_rename_state(
                fs_of(rd, loc.fs),
                node_path(loc.comps, src),
                node_path(loc.comps, dst),
            ),
        ),
    }
}

/// What `create_file` returns and the root directory it leaves: the
/// file is created via the starting node, then looked up again.
pub open spec fn spec_create_file(
    c: FsContextView,
    dir: Option<NodeRefView>,
    path: Seq<u8>,
) -> (Result<NodeRefView, FsError>, RootDirView) {
    if path.len() == 0 {
        (Err(FsError::NotFound), c.root)
    } else if path.last() == SEP {
        (Err(FsError::NotADirectory), c.root)
    } else {
        let start = start_of(c, dir, path);
        let cr = spec_node_create(c.root, start, path, NodeType::File);
        let rd2 = spec_node_create_state(c.root, start, path, NodeType::File);
        match cr {
            Ok(_) => match spec_node_lookup(rd2, start, path) {
                Ok(n) => (Ok(n), rd2),
                Err(e) => (Err(e), rd2),
            },
            Err(e) => (Err(e), rd2),
        }
    }
}

/// What `create_dir` returns and the root directory it leaves: only a
/// path that is absent (`NotFound` on lookup) is created.
pub open spec fn spec_create_dir(
    c: FsContextView,
    dir: Option<NodeRefView>,
    path: Seq<u8>,
) -> (Result<(), FsError>, RootDirView) {
    match spec_lookup(c, dir, path) {
        Ok(_) => (Err(FsError::AlreadyExists), c.root),
        Err(e) => if e == FsError::NotFound {
            let start = start_of(c, dir, path);
            (
                spec_node_create(c.root, start, path, NodeType::Dir),
                spec_node_create_state(c.root, start, path, NodeType::Dir),
            )
        } else {
            (Err(e), c.root)
        },
    }
}

/// What `remove_file` returns and the root directory it leaves: the
/// target must exist, not be a directory, and be owner-writable.
pub open spec fn spec_remove_file(
    c: FsContextView,
    dir: Option<NodeRefView>,
    path: Seq<u8>,
) -> (Result<(), FsError>, RootDirView) {
    match spec_lookup(c, dir, path) {
        Err(e) => (Err(e), c.root),
        Ok(n) => match spec_attr_of(c.root, n) {
            Err(e) => (Err(e), c.root),
            Ok(attr) => if attr.ty == NodeType::Dir {
                (Err(FsError::IsADirectory), c.root)
            } else if attr.perm & PERM_OWNER_WRITE == 0 {
                (Err(FsError::PermissionDenied), c.root)
            } else {
                let start = start_of(c, dir, path);
                (
                    spec_node_remove(c.root, start, path),
                    spec_node_remove_state(c.root, start, path),
                )
            },
        },
    }
}

/// The path-syntax checks `remove_dir` makes before touching anything:
/// `.`-like last components are refused.
pub open spec fn dotted_tail(pc: Seq<u8>) -> bool {
    ||| pc == seq![DOT]
    ||| pc == seq![DOT, DOT]
    ||| (pc.len() >= 2 && pc[pc.len() - 1] == DOT && pc[pc.len() - 2] == SEP)
    ||| (pc.len() >= 3 && pc[pc.len() - 1] == DOT && pc[pc.len() - 2] == DOT && pc[pc.len() - 3]
        == SEP)
}

/// What `remove_dir` returns and the root directory it leaves: the
/// syntax checks, the live-mount-point check, then the directory and
/// permission checks, and only then the removal.
pub open spec fn spec_remove_dir(
    c: FsContextView,
    dir: Option<NodeRefView>,
    path: Seq<u8>,
) -> (Result<(), FsError>, RootDirView) {
    if path.len() == 0 {
        (Err(FsError::NotFound), c.root)
    } else {
        let pc = strip_slashes(path);
        if pc.len() == 0 {
            (Err(FsError::DirectoryNotEmpty), c.root)
        } else if dotted_tail(pc) {
            (Err(FsError::InvalidInput), c.root)
        } else if mounted_at(c.root.mounts, abs_of(c, path)) {
            (Err(FsError::PermissionDenied), c.root)
        } else {
            match spec_lookup(c, dir, path) {
                Err(e) => (Err(e), c.root),
                Ok(n) => match spec_attr_of(c.root, n) {
                    Err(e) => (Err(e), c.root),
                    Ok(attr) => if attr.ty != NodeType::Dir {
                        (Err(FsError::NotADirectory), c.root)
                    } else if attr.perm & PERM_OWNER_WRITE == 0 {
                        (Err(FsError::PermissionDenied), c.root)
                    } else {
                        let start = start_of(c, dir, path);
                        (
                            spec_node_remove(c.root, start, path),
                            spec_node_remove_state(c.root, start, path),
                        )
                    },
                },
            }
        }
    }
}

/// What the context-level `rename` returns and the root directory it
/// leaves: an existing destination is first removed as a file
/// (last-writer-wins), then the underlying rename runs from `old`'s
/// starting node.
pub open spec fn spec_ctx_rename(c: FsContextView, oldp: Seq<u8>, newp: Seq<u8>) -> (Result<
    (),
    FsError,
>, RootDirView) {
    let pre = spec_node_lookup(c.root, start_of(c, None, newp), newp);
    if pre is Ok {
        let (r1, rd1) = spec_remove_file(c, None, newp);
        if r1 is Err {
            (r1, rd1)
        } else {
            let c1 = FsContextView { root: rd1, cwd: c.cwd, cwd_path: c.cwd_path };
            (
                spec_node_rename(rd1, start_of(c1, None, oldp), oldp, newp),
                spec_node_rename_state(rd1, start_of(c1, None, oldp), oldp, newp),
            )
        }
    } else {
        (
            spec_node_rename(c.root, start_of(c, None, oldp), oldp, newp),
            spec_node_rename_state(c.root, start_of(c, None, oldp), oldp, newp),
        )
    }
}

impl FsContext {
    /// A context over a main filesystem: current directory `/`.
    pub fn new(main_fs: MemFs) -> (r: FsContext)
        requires
            fs_wf(main_fs@),
        ensures
            ctx_wf(r@),
            r@.root.main == main_fs@,
            r@.root.mounts =~= Seq::<MountPointView>::empty(),
            r@.cwd == NodeRefView::Root,
            r@.cwd_path =~= seq![SEP],
    {
        let root = RootDirectory::new(main_fs);
        let mut cwd_path: Vec<u8> = Vec::new();
        cwd_path.push(SEP);
        proof {
            assert(cwd_path@ =~= seq![SEP]);
        }
        FsContext { root, cwd: NodeRef::Root, cwd_path }
    }

    /// The canonical absolute form of `path` in this context.
    pub fn absolute_path(&self, path: &[u8]) -> (r: Vec<u8>)
        ensures
            r@ == abs_of(self@, path@),
    {
        if path.len() > 0 && path[0] == SEP {
            canonicalize(path)
        } else {
            let mut joined = slice_to_vec(self.cwd_path.as_slice());
            joined.extend_from_slice(path);
            proof {
                assert(joined@ =~= self@.cwd_path + path@);
                if path@.len() > 0 {
                    assert(!is_abs(path@));
                }
            }
            canonicalize(joined.as_slice())
        }
    }

    /// The canonical absolute form of `path`: the public name of
    /// [`Self::absolute_path`].
    pub fn canonicalize(&self, path: &[u8]) -> (r: Vec<u8>)
        ensures
            r@ == abs_of(self@, path@),
    {
        self.absolute_path(path)
    }

    /// The current working directory's canonical path.
    pub fn current_dir(&self) -> (r: Vec<u8>)
        ensures
            r@ == self@.cwd_path,
    {
        slice_to_vec(self.cwd_path.as_slice())
    }

    /// The attributes of the node a reference points at.
    pub fn attr_of_node(&self, n: &NodeRef) -> (r: Result<NodeAttr, FsError>)
        requires
            rd_wf(self@.root),
            nref_wf(self@.root, n@),
        ensures
            r == spec_attr_of(self@.root, n@),
    {
        match n {
            NodeRef::Root => Ok(NodeAttr { perm: DEFAULT_DIR_PERM, ty: NodeType::Dir, size: 0 }),
            NodeRef::At(loc) => match loc.fs {
                FsChoice::MainFs => self.root.main_fs.attr_of(&loc.comps),
                FsChoice::MountAt(i) => {
                    proof {
                        assert(fs_wf(self@.root.mounts[i as int].fs));
                    }
                    self.root.mounts[i].fs.attr_of(&loc.comps)
                },
            },
        }
    }

    /// Looks `path` up from a starting node.
    fn node_lookup(&self, start: &NodeRef, path: &[u8]) -> (r: Result<NodeRef, FsError>)
        requires
            rd_wf(self@.root),
            nref_wf(self@.root, start@),
        ensures
            match r {
                Ok(n) => spec_node_lookup(self@.root, start@, path@) == Ok::<NodeRefView, FsError>(
                    n@,
                ) && nref_wf(self@.root, n@),
                Err(e) => spec_node_lookup(self@.root, start@, path@) == Err::<
                    NodeRefView,
                    FsError,
                >(e),
            },
    {
        match start {
            NodeRef::Root => match self.root.lookup(path) {
                Ok(loc) => {
                    proof {
                        assert(all_valid(loc@.comps)) by {
                            let (_c, rest) = crate::mount::spec_dispatch(self@.root, path@);
                            crate::memfs::lemma_node_path_valid(Seq::empty(), rest);
                        }
                    }
                    Ok(NodeRef::At(loc))
                },
                Err(e) => Err(e),
            },
            NodeRef::At(loc) => {
                let inner = match loc.fs {
                    FsChoice::MainFs => self.root.main_fs.lookup(&loc.comps, path),
                    FsChoice::MountAt(i) => {
                        proof {
                            assert(fs_wf(self@.root.mounts[i as int].fs));
                        }
                        self.root.mounts[i].fs.lookup(&loc.comps, path)
                    },
                };
                match inner {
                    Ok(comps) => {
                        proof {
                            crate::memfs::lemma_node_path_valid(loc@.comps, path@);
                        }
                        Ok(NodeRef::At(NodeLoc { fs: loc.fs, comps }))
                    },
                    Err(e) => Err(e),
                }
            },
        }
    }

    /// Looks a path up: an empty path is `NotFound`; a path with a
    /// trailing separator must name a directory.
    pub fn lookup(&self, dir: Option<&NodeRef>, path: &[u8]) -> (r: Result<NodeRef, FsError>)
        requires
            ctx_wf(self@),
            match dir {
                Some(d) => nref_wf(self@.root, d@),
                None => true,
            },
        ensures
            match r {
                Ok(n) => spec_lookup(self@, dir_view(dir), path@) == Ok::<NodeRefView, FsError>(n@)
                    && nref_wf(self@.root, n@),
                Err(e) => spec_lookup(self@, dir_view(dir), path@) == Err::<NodeRefView, FsError>(
                    e,
                ),
            },
    {
        if path.len() == 0 {
            return Err(FsError::NotFound);
        }
        let start: &NodeRef = if path[0] == SEP {
            &NodeRef::Root
        } else {
            match dir {
                Some(d) => d,
                None => &self.cwd,
            }
        };
        proof {
            assert(start@ == start_of(self@, dir_view(dir), path@));
        }
        match self.node_lookup(start, path) {
            Ok(n) => {
                let attr = match self.attr_of_node(&n) {
                    Ok(a) => a,
                    Err(e) => {
                        return Err(e);
                    },
                };
                if path[path.len() - 1] == SEP && !attr.is_dir() {
                    Err(FsError::NotADirectory)
                } else {
                    Ok(n)
                }
            },
            Err(e) => Err(e),
        }
    }

    /// Whether an absolute (or any) path resolves to a node.
    pub fn absolute_path_exists(&self, path: &[u8]) -> (r: bool)
        requires
            ctx_wf(self@),
        ensures
            r == (spec_lookup(self@, None, path@) is Ok),
    {
        self.lookup(None, path).is_ok()
    }

    /// The attributes of the node at `path` (symbolic links are not
    /// followed).
    pub fn metadata(&self, path: &[u8]) -> (r: Result<NodeAttr, FsError>)
        requires
            ctx_wf(self@),
        ensures
            match r {
                Ok(a) => exists|n: NodeRefView|
                    spec_lookup(self@, None, path@) == Ok::<NodeRefView, FsError>(n)
                        && spec_attr_of(self@.root, n) == Ok::<NodeAttr, FsError>(a),
                Err(e) => spec_lookup(self@, None, path@) == Err::<NodeRefView, FsError>(e)
                    || exists|n: NodeRefView|
                    spec_lookup(self@, None, path@) == Ok::<NodeRefView, FsError>(n)
                        && spec_attr_of(self@.root, n) == Err::<NodeAttr, FsError>(e),
            },
    {
        let n = match self.lookup(None, path) {
            Ok(n) => n,
            Err(e) => {
                return Err(e);
            },
        };
        self.attr_of_node(&n)
    }

    /// The attributes of the link (or node) at `path` itself: this
    /// layer's lookup never follows symbolic links, so this equals
    /// [`Self::metadata`].
    pub fn symlink_metadata(&self, path: &[u8]) -> (r: Result<NodeAttr, FsError>)
        requires
            ctx_wf(self@),
        ensures
            match r {
                Ok(a) => exists|n: NodeRefView|
                    spec_lookup(self@, None, path@) == Ok::<NodeRefView, FsError>(n)
                        && spec_attr_of(self@.root, n) == Ok::<NodeAttr, FsError>(a),
                Err(e) => spec_lookup(self@, None, path@) == Err::<NodeRefView, FsError>(e)
                    || exists|n: NodeRefView|
                    spec_lookup(self@, None, path@) == Ok::<NodeRefView, FsError>(n)
                        && spec_attr_of(self@.root, n) == Err::<NodeAttr, FsError>(e),
            },
    {
        self.metadata(path)
    }

    /// Whether the node at `path` is a symbolic link.
    pub fn is_symlink(&self, path: &[u8]) -> (r: Result<bool, FsError>)
        requires
            ctx_wf(self@),
        ensures
            match r {
                Ok(b) => exists|n: NodeRefView|
                    spec_lookup(self@, None, path@) == Ok::<NodeRefView, FsError>(n) && (
                    match spec_attr_of(self@.root, n) {
                        Ok(a) => b == (a.ty == NodeType::SymLink),
                        Err(_) => false,
                    }),
                Err(e) => path@.len() == 0 && e == FsError::NotFound || spec_lookup(
                    self@,
                    None,
                    path@,
                ) == Err::<NodeRefView, FsError>(e) || exists|n: NodeRefView|
                    spec_lookup(self@, None, path@) == Ok::<NodeRefView, FsError>(n)
                        && spec_attr_of(self@.root, n) == Err::<NodeAttr, FsError>(e),
            },
    {
        if path.len() == 0 {
            return Err(FsError::NotFound);
        }
        let n = match self.lookup(None, path) {
            Ok(n) => n,
            Err(e) => {
                return Err(e);
            },
        };
        match self.attr_of_node(&n) {
            Ok(a) => Ok(a.is_symlink()),
            Err(e) => Err(e),
        }
    }
}

/// What `set_current_dir` returns and the `(node, path)` pair it
/// leaves: the path is made absolute and given a trailing separator;
/// `/` always succeeds; anything else must resolve to a directory with
/// owner-execute permission. A failed attempt changes nothing.
pub open spec fn spec_set_current_dir(c: FsContextView, path: Seq<u8>) -> (Result<(), FsError>,
NodeRefView, Seq<u8>) {
    let a0 = abs_of(c, path);
    let a = if a0.len() == 0 || a0.last() != SEP {
        a0.push(SEP)
    } else {
        a0
    };
    if a == seq![SEP] {
        (Ok(()), NodeRefView::Root, a)
    } else {
        match spec_lookup(c, None, a) {
            Err(e) => (Err(e), c.cwd, c.cwd_path),
            Ok(n) => match spec_attr_of(c.root, n) {
                Err(e) => (Err(e), c.cwd, c.cwd_path),
                Ok(attr) => if attr.ty != NodeType::Dir {
                    (Err(FsError::NotADirectory), c.cwd, c.cwd_path)
                } else if attr.perm & PERM_OWNER_EXEC == 0 {
                    (Err(FsError::PermissionDenied), c.cwd, c.cwd_path)
                } else {
                    (Ok(()), n, a)
                },
            },
        }
    }
}

/// The current-directory transition is atomic and consistent: a
/// failed transition commits nothing, and a successful one commits a
/// `(node, path)` pair in which the node is exactly what the
/// committed path resolves to (the root node for `/`). A reader of
/// the pair therefore never observes a node that does not correspond
/// to the observed path.
pub proof fn lemma_set_current_dir_pair(c: FsContextView, path: Seq<u8>)
    ensures
        spec_set_current_dir(c, path).0 is Err ==> spec_set_current_dir(c, path).1 == c.cwd
            && spec_set_current_dir(c, path).2 == c.cwd_path,
        spec_set_current_dir(c, path).0 is Ok ==> {
            let n = spec_set_current_dir(c, path).1;
            let p = spec_set_current_dir(c, path).2;
            (p == seq![SEP] && n == NodeRefView::Root) || spec_lookup(c, None, p) == Ok::<
                NodeRefView,
                FsError,
            >(n)
        },
{
}

/// What `set_perm` returns and the root directory it leaves.
pub open spec fn spec_ctx_set_perm(c: FsContextView, path: Seq<u8>, mode: u16) -> (Result<
    (),
    FsError,
>, RootDirView) {
    let a = abs_of(c, path);
    match spec_lookup(c, None, a) {
        Err(e) => (Err(e), c.root),
        Ok(n) => if !perm_valid(mode) {
            (Err(FsError::InvalidInput), c.root)
        } else {
            match n {
                NodeRefView::Root => (Ok(()), c.root),
                NodeRefView::At(loc) => (
                    spec_set_perm(fs_of(c.root, loc.fs), loc.comps),
                    rd_with(
                        c.root,
                        loc.fs,
                        spec_set_perm_state(fs_of(c.root, loc.fs), loc.comps, mode),
                    ),
                ),
            }
        },
    }
}

/// What `read_link` returns: the main filesystem is consulted first
/// with the full path, then the dispatcher-resolved node.
pub open spec fn spec_read_link(c: FsContextView, path: Seq<u8>) -> Result<Seq<u8>, FsError> {
    if path.len() == 0 {
        Err(FsError::NotFound)
    } else {
        match spec_readlink(c.root.main, node_path(Seq::empty(), path)) {
            Ok(v) => Ok(v),
            Err(_) => match spec_lookup(c, None, path) {
                Err(e) => Err(e),
                Ok(n) => match n {
                    NodeRefView::Root => Err(FsError::InvalidInput),
                    NodeRefView::At(loc) => spec_readlink(fs_of(c.root, loc.fs), loc.comps),
                },
            },
        }
    }
}

impl FsContext {
    /// The starting node of an operation on `path`: the root for an
    /// absolute path, else the given directory or the current one.
    fn start_node(&self, dir: Option<&NodeRef>, path: &[u8]) -> (r: NodeRef)
        ensures
            r@ == start_of(self@, dir_view(dir), path@),
    {
        if path.len() > 0 && path[0] == SEP {
            NodeRef::Root
        } else {
            match dir {
                Some(d) => d.duplicate(),
                None => self.cwd.duplicate(),
            }
        }
    }

    /// Creates a file or directory at `path` from a starting node.
    fn node_create(&mut self, start: &NodeRef, path: &[u8], ty: NodeType) -> (r: Result<
        (),
        FsError,
    >)
        requires
            rd_wf(old(self)@.root),
            nref_wf(old(self)@.root, start@),
        ensures
            rd_wf(final(self)@.root),
            r == spec_node_create(old(self)@.root, start@, path@, ty),
            final(self)@.root == spec_node_create_state(old(self)@.root, start@, path@, ty),
            final(self)@.cwd == old(self)@.cwd,
            final(self)@.cwd_path == old(self)@.cwd_path,
            final(self)@.root.mounts.len() == old(self)@.root.mounts.len(),
    {
        let r = match start {
            NodeRef::Root => self.root.create(path, ty),
            NodeRef::At(loc) => self.root.fs_create(loc.fs, &loc.comps, path, ty),
        };
        r
    }

    /// Removes the node at `path` from a starting node.
    fn node_remove(&mut self, start: &NodeRef, path: &[u8]) -> (r: Result<(), FsError>)
        requires
            rd_wf(old(self)@.root),
            nref_wf(old(self)@.root, start@),
        ensures
            rd_wf(final(self)@.root),
            r == spec_node_remove(old(self)@.root, start@, path@),
            final(self)@.root == spec_node_remove_state(old(self)@.root, start@, path@),
            final(self)@.cwd == old(self)@.cwd,
            final(self)@.cwd_path == old(self)@.cwd_path,
            final(self)@.root.mounts.len() == old(self)@.root.mounts.len(),
    {
        let r = match start {
            NodeRef::Root => self.root.remove(path),
            NodeRef::At(loc) => self.root.fs_remove(loc.fs, &loc.comps, path),
        };
        r
    }

    /// Renames from a starting node.
    fn node_rename(&mut self, start: &NodeRef, src: &[u8], dst: &[u8]) -> (r: Result<(), FsError>)
        requires
            rd_wf(old(self)@.root),
            nref_wf(old(self)@.root, start@),
        ensures
            rd_wf(final(self)@.root),
            r == spec_node_rename(old(self)@.root, start@, src@, dst@),
            final(self)@.root == spec_node_rename_state(old(self)@.root, start@, src@, dst@),
            final(self)@.cwd == old(self)@.cwd,
            final(self)@.cwd_path == old(self)@.cwd_path,
            final(self)@.root.mounts.len() == old(self)@.root.mounts.len(),
    {
        let r = match start {
            NodeRef::Root => self.root.rename(src, dst),
            NodeRef::At(loc) => self.root.fs_rename(loc.fs, &loc.comps, src, dst),
        };
        r
    }

    /// Creates a regular file at `path` and returns its node: an empty
    /// path is `NotFound`, a trailing separator `NotADirectory`.
    pub fn create_file(&mut self, dir: Option<&NodeRef>, path: &[u8]) -> (r: Result<
        NodeRef,
        FsError,
    >)
        requires
            ctx_wf(old(self)@),
            match dir {
                Some(d) => nref_wf(old(self)@.root, d@),
                None => true,
            },
        ensures
            ctx_wf(final(self)@),
            final(self)@.cwd == old(self)@.cwd,
            final(self)@.cwd_path == old(self)@.cwd_path,
            final(self)@.root == spec_create_file(old(self)@, dir_view(dir), path@).1,
            match r {
                Ok(n) => spec_create_file(old(self)@, dir_view(dir), path@).0 == Ok::<
                    NodeRefView,
                    FsError,
                >(n@) && nref_wf(final(self)@.root, n@),
                Err(e) => spec_create_file(old(self)@, dir_view(dir), path@).0 == Err::<
                    NodeRefView,
                    FsError,
                >(e),
            },
    {
        if path.len() == 0 {
            return Err(FsError::NotFound);
        }
        if path[path.len() - 1] == SEP {
            return Err(FsError::NotADirectory);
        }
        let start = self.start_node(dir, path);
        match self.node_create(&start, path, NodeType::File) {
            Err(e) => Err(e),
            Ok(()) => match self.node_lookup(&start, path) {
                Ok(n) => Ok(n),
                Err(e) => Err(e),
            },
        }
    }

    /// Creates a directory at `path`: an existing path is
    /// `AlreadyExists`; only an absent one (`NotFound`) is created.
    pub fn create_dir(&mut self, dir: Option<&NodeRef>, path: &[u8]) -> (r: Result<(), FsError>)
        requires
            ctx_wf(old(self)@),
            match dir {
                Some(d) => nref_wf(old(self)@.root, d@),
                None => true,
            },
        ensures
            ctx_wf(final(self)@),
            final(self)@.cwd == old(self)@.cwd,
            final(self)@.cwd_path == old(self)@.cwd_path,
            final(self)@.root == spec_create_dir(old(self)@, dir_view(dir), path@).1,
            r == spec_create_dir(old(self)@, dir_view(dir), path@).0,
    {
        match self.lookup(dir, path) {
            Ok(_) => Err(FsError::AlreadyExists),
            Err(e) => {
                if e == FsError::NotFound {
                    let start = self.start_node(dir, path);
                    self.node_create(&start, path, NodeType::Dir)
                } else {
                    Err(e)
                }
            },
        }
    }

    /// Removes the file at `path`: a directory is `IsADirectory`, a
    /// non-writable file `PermissionDenied`.
    pub fn remove_file(&mut self, dir: Option<&NodeRef>, path: &[u8]) -> (r: Result<(), FsError>)
        requires
            ctx_wf(old(self)@),
            match dir {
                Some(d) => nref_wf(old(self)@.root, d@),
                None => true,
            },
        ensures
            ctx_wf(final(self)@),
            final(self)@.cwd == old(self)@.cwd,
            final(self)@.cwd_path == old(self)@.cwd_path,
            final(self)@.root == spec_remove_file(old(self)@, dir_view(dir), path@).1,
            r == spec_remove_file(old(self)@, dir_view(dir), path@).0,
    {
        let n = match self.lookup(dir, path) {
            Ok(n) => n,
            Err(e) => {
                return Err(e);
            },
        };
        let attr = match self.attr_of_node(&n) {
            Ok(a) => a,
            Err(e) => {
                return Err(e);
            },
        };
        if attr.is_dir() {
            Err(FsError::IsADirectory)
        } else if !attr.owner_writable() {
            Err(FsError::PermissionDenied)
        } else {
            let start = self.start_node(dir, path);
            self.node_remove(&start, path)
        }
    }

    /// Removes the directory at `path`: path-syntax checks first, then
    /// the live-mount-point check, then directory and permission
    /// checks — or no change at all.
    pub fn remove_dir(&mut self, dir: Option<&NodeRef>, path: &[u8]) -> (r: Result<(), FsError>)
        requires
            ctx_wf(old(self)@),
            match dir {
                Some(d) => nref_wf(old(self)@.root, d@),
                None => true,
            },
        ensures
            ctx_wf(final(self)@),
            final(self)@.cwd == old(self)@.cwd,
            final(self)@.cwd_path == old(self)@.cwd_path,
            final(self)@.root == spec_remove_dir(old(self)@, dir_view(dir), path@).1,
            r == spec_remove_dir(old(self)@, dir_view(dir), path@).0,
    {
        if path.len() == 0 {
            return Err(FsError::NotFound);
        }
        let pc = trim_slashes(path);
        if pc.len() == 0 {
            return Err(FsError::DirectoryNotEmpty);
        }
        let dotted = (pc.len() == 1 && pc[0] == DOT) || (pc.len() == 2 && pc[0] == DOT && pc[1]
            == DOT) || (pc.len() >= 2 && pc[pc.len() - 1] == DOT && pc[pc.len() - 2] == SEP) || (
        pc.len() >= 3 && pc[pc.len() - 1] == DOT && pc[pc.len() - 2] == DOT && pc[pc.len() - 3]
            == SEP);
        proof {
            assert(dotted == dotted_tail(pc@)) by {
                if pc@.len() == 1 && pc@[0] == DOT {
                    assert(pc@ =~= seq![DOT]);
                }
                if pc@.len() == 2 && pc@[0] == DOT && pc@[1] == DOT {
                    assert(pc@ =~= seq![DOT, DOT]);
                }
                if pc@ == seq![DOT] {
                    assert(pc@.len() == 1 && pc@[0] == DOT);
                }
                if pc@ == seq![DOT, DOT] {
                    assert(pc@.len() == 2 && pc@[0] == DOT && pc@[1] == DOT);
                }
            }
        }
        if dotted {
            return Err(FsError::InvalidInput);
        }
        let abs = self.absolute_path(path);
        if self.root.contains(abs.as_slice()) {
            proof {
                assert(mounted_at(self@.root.mounts, abs_of(self@, path@)));
            }
            return Err(FsError::PermissionDenied);
        }
        proof {
            assert(!mounted_at(self@.root.mounts, abs_of(self@, path@)));
        }
        let n = match self.lookup(dir, path) {
            Ok(n) => n,
            Err(e) => {
                return Err(e);
            },
        };
        let attr = match self.attr_of_node(&n) {
            Ok(a) => a,
            Err(e) => {
                return Err(e);
            },
        };
        if !attr.is_dir() {
            Err(FsError::NotADirectory)
        } else if !attr.owner_writable() {
            Err(FsError::PermissionDenied)
        } else {
            let start = self.start_node(dir, path);
            self.node_remove(&start, path)
        }
    }

    /// Renames `old` to `new`. An existing destination is first
    /// removed (last-writer-wins); the rename itself is served by the
    /// source's filesystem.
    pub fn rename(&mut self, old_path: &[u8], new_path: &[u8]) -> (r: Result<(), FsError>)
        requires
            ctx_wf(old(self)@),
        ensures
            ctx_wf(final(self)@),
            final(self)@.cwd == old(self)@.cwd,
            final(self)@.cwd_path == old(self)@.cwd_path,
            final(self)@.root == spec_ctx_rename(old(self)@, old_path@, new_path@).1,
            r == spec_ctx_rename(old(self)@, old_path@, new_path@).0,
    {
        let start_new = self.start_node(None, new_path);
        let pre = self.node_lookup(&start_new, new_path);
        if pre.is_ok() {
            match self.remove_file(None, new_path) {
                Ok(()) => {},
                Err(e) => {
                    return Err(e);
                },
            }
        }
        let start_old = self.start_node(None, old_path);
        self.node_rename(&start_old, old_path, new_path)
    }

    /// Creates a symbolic link named `path` holding `target`, directly
    /// in the main filesystem.
    pub fn create_symlink(&mut self, target: &[u8], path: &[u8]) -> (r: Result<(), FsError>)
        requires
            ctx_wf(old(self)@),
        ensures
            ctx_wf(final(self)@),
            final(self)@.cwd == old(self)@.cwd,
            final(self)@.cwd_path == old(self)@.cwd_path,
            final(self)@.root.mounts == old(self)@.root.mounts,
            target@.len() == 0 || path@.len() == 0 ==> r == Err::<(), FsError>(
                FsError::InvalidInput,
            ) && final(self)@.root == old(self)@.root,
            target@.len() > 0 && path@.len() > 0 ==> r == spec_symlink(
                old(self)@.root.main,
                node_path(Seq::empty(), path@),
            ) && final(self)@.root.main == spec_symlink_state(
                old(self)@.root.main,
                node_path(Seq::empty(), path@),
                target@,
            ),
    {
        if target.len() == 0 || path.len() == 0 {
            return Err(FsError::InvalidInput);
        }
        let base: Vec<Vec<u8>> = Vec::new();
        proof {
            assert(cv(base@) =~= Seq::<Seq<u8>>::empty());
        }
        self.root.main_fs.symlink(&base, target, path)
    }

    /// Reads the target of the symbolic link at `path`: the main
    /// filesystem first, then the dispatcher-resolved node.
    pub fn read_link(&self, path: &[u8]) -> (r: Result<Vec<u8>, FsError>)
        requires
            ctx_wf(self@),
        ensures
            match r {
                Ok(v) => spec_read_link(self@, path@) == Ok::<Seq<u8>, FsError>(v@),
                Err(e) => spec_read_link(self@, path@) == Err::<Seq<u8>, FsError>(e),
            },
    {
        if path.len() == 0 {
            return Err(FsError::NotFound);
        }
        let base: Vec<Vec<u8>> = Vec::new();
        proof {
            assert(cv(base@) =~= Seq::<Seq<u8>>::empty());
        }
        match self.root.main_fs.readlink(&base, path) {
            Ok(v) => Ok(v),
            Err(_) => {
                let n = match self.lookup(None, path) {
                    Ok(n) => n,
                    Err(e) => {
                        return Err(e);
                    },
                };
                match n {
                    NodeRef::Root => Err(FsError::InvalidInput),
                    NodeRef::At(loc) => match loc.fs {
                        FsChoice::MainFs => self.root.main_fs.readlink_at(&loc.comps),
                        FsChoice::MountAt(i) => {
                            proof {
                                assert(fs_wf(self@.root.mounts[i as int].fs));
                            }
                            self.root.mounts[i].fs.readlink_at(&loc.comps)
                        },
                    },
                }
            },
        }
    }

    /// Overwrites the permission bits of the node at `path` in place;
    /// an invalid mode is `InvalidInput`.
    pub fn set_perm(&mut self, path: &[u8], mode: u16) -> (r: Result<(), FsError>)
        requires
            ctx_wf(old(self)@),
        ensures
            ctx_wf(final(self)@),
            final(self)@.cwd == old(self)@.cwd,
            final(self)@.cwd_path == old(self)@.cwd_path,
            final(self)@.root == spec_ctx_set_perm(old(self)@, path@, mode).1,
            r == spec_ctx_set_perm(old(self)@, path@, mode).0,
    {
        let abs = self.absolute_path(path);
        let n = match self.lookup(None, abs.as_slice()) {
            Ok(n) => n,
            Err(e) => {
                return Err(e);
            },
        };
        if !perm_is_valid(mode) {
            return Err(FsError::InvalidInput);
        }
        match n {
            NodeRef::Root => Ok(()),
            NodeRef::At(loc) => self.root.fs_set_perm(loc.fs, &loc.comps, mode),
        }
    }

    /// Changes the permissions of the node at `path`: the public name
    /// of [`Self::set_perm`].
    pub fn set_permissions(&mut self, path: &[u8], mode: u16) -> (r: Result<(), FsError>)
        requires
            ctx_wf(old(self)@),
        ensures
            ctx_wf(final(self)@),
            final(self)@.cwd == old(self)@.cwd,
            final(self)@.cwd_path == old(self)@.cwd_path,
            final(self)@.root == spec_ctx_set_perm(old(self)@, path@, mode).1,
            r == spec_ctx_set_perm(old(self)@, path@, mode).0,
    {
        self.set_perm(path, mode)
    }

    /// Inserts a node of a fixed kind and permission at `path`, as
    /// backends do for device and synthetic nodes.
    pub fn add_node(&mut self, dir: Option<&NodeRef>, path: &[u8], ty: NodeType, perm: u16) -> (r:
        Result<(), FsError>)
        requires
            ctx_wf(old(self)@),
            match dir {
                Some(d) => nref_wf(old(self)@.root, d@),
                None => true,
            },
        ensures
            ctx_wf(final(self)@),
            final(self)@.cwd == old(self)@.cwd,
            final(self)@.cwd_path == old(self)@.cwd_path,
            path@.len() == 0 ==> r == Err::<(), FsError>(FsError::NotFound) && final(self)@
                == old(self)@,
    {
        if path.len() == 0 {
            return Err(FsError::NotFound);
        }
        let start = self.start_node(dir, path);
        let r = match start {
            NodeRef::Root => self.root.add_node(path, ty, perm),
            NodeRef::At(loc) => self.root.fs_add(loc.fs, &loc.comps, path, ty, perm),
        };
        r
    }

    /// Changes the current directory. The committed `(node, path)`
    /// pair is always consistent: a failed attempt performs no
    /// mutation at all.
    pub fn set_current_dir(&mut self, path: &[u8]) -> (r: Result<(), FsError>)
        requires
            ctx_wf(old(self)@),
        ensures
            ctx_wf(final(self)@),
            final(self)@.root == old(self)@.root,
            r == spec_set_current_dir(old(self)@, path@).0,
            final(self)@.cwd == spec_set_current_dir(old(self)@, path@).1,
            final(self)@.cwd_path == spec_set_current_dir(old(self)@, path@).2,
            r is Err ==> final(self)@ == old(self)@,
    {
        let mut abs = self.absolute_path(path);
        if abs.len() == 0 || abs[abs.len() - 1] != SEP {
            abs.push(SEP);
        }
        proof {
            assert(abs@ == spec_set_current_dir(old(self)@, path@).2 || spec_set_current_dir(
                old(self)@,
                path@,
            ).0 is Err);
        }
        if abs.len() == 1 {
            proof {
                assert(abs@ =~= seq![SEP]);
            }
            self.cwd = NodeRef::Root;
            self.cwd_path = abs;
            return Ok(());
        }
        proof {
            assert(abs@ != seq![SEP]) by {
                assert(abs@.len() != 1);
            }
        }
        let n = match self.lookup(None, abs.as_slice()) {
            Ok(n) => n,
            Err(e) => {
                return Err(e);
            },
        };
        let attr = match self.attr_of_node(&n) {
            Ok(a) => a,
            Err(e) => {
                return Err(e);
            },
        };
        if !attr.is_dir() {
            Err(FsError::NotADirectory)
        } else if !attr.owner_executable() {
            Err(FsError::PermissionDenied)
        } else {
            proof {
                assert(is_abs(abs@)) by {
                    if is_abs(path@) {
                        assert(canon_spec(path@)[0] == SEP);
                    } else {
                        assert(is_abs(old(self)@.cwd_path + path@));
                        assert(canon_spec(old(self)@.cwd_path + path@)[0] == SEP);
                    }
                }
            }
            self.cwd = n;
            self.cwd_path = abs;
            Ok(())
        }
    }
}

/// The path after following one symbolic link: an absolute target
/// replaces the path; a relative one is resolved against the directory
/// component (the text before the last separator), or stands alone
/// when there is none.
pub open spec fn subst_link(cur: Seq<u8>, target: Seq<u8>) -> Seq<u8> {
    if is_abs(target) {
        target
    } else if last_sep_idx(cur) >= 0 {
        cur.take(last_sep_idx(cur)) + seq![SEP] + target
    } else {
        target
    }
}

/// What resolving `path` while following symbolic links returns, with
/// `depth` links already traversed: more than eight links is the
/// cycle-protection failure (`InvalidInput`); a non-link node is the
/// success terminal state; a link's stored target is substituted and
/// resolution restarts.
pub open spec fn spec_resolve_syms(
    c: FsContextView,
    dir: Option<NodeRefView>,
    path: Seq<u8>,
    depth: int,
) -> Result<NodeRefView, FsError>
    decreases 9 - depth,
{
    if depth > 8 || depth < 0 {
        Err(FsError::InvalidInput)
    } else {
        match spec_lookup(c, dir, path) {
            Err(e) => Err(e),
            Ok(n) => match spec_attr_of(c.root, n) {
                Err(e) => Err(e),
                Ok(attr) => if attr.ty != NodeType::SymLink {
                    Ok(n)
                } else {
                    match n {
                        NodeRefView::Root => Ok(n),
                        NodeRefView::At(loc) => match spec_readlink(
                            fs_of(c.root, loc.fs),
                            loc.comps,
                        ) {
                            Err(e) => Err(e),
                            Ok(target) => spec_resolve_syms(
                                c,
                                dir,
                                subst_link(path, target),
                                depth + 1,
                            ),
                        },
                    }
                },
            },
        }
    }
}

/// A non-link resolution is terminal: within the bound, the resolver
/// returns exactly what the plain lookup returned.
pub proof fn lemma_resolve_terminal(
    c: FsContextView,
    dir: Option<NodeRefView>,
    path: Seq<u8>,
    depth: int,
    n: NodeRefView,
    attr: NodeAttr,
)
    requires
        0 <= depth <= 8,
        spec_lookup(c, dir, path) == Ok::<NodeRefView, FsError>(n),
        spec_attr_of(c.root, n) == Ok::<NodeAttr, FsError>(attr),
        attr.ty != NodeType::SymLink,
    ensures
        spec_resolve_syms(c, dir, path, depth) == Ok::<NodeRefView, FsError>(n),
{
}

/// Following one link within the bound substitutes the target and
/// counts one hop: an acyclic chain of at most eight links therefore
/// ends, by the terminal lemma, at its final node.
pub proof fn lemma_resolve_step(
    c: FsContextView,
    dir: Option<NodeRefView>,
    path: Seq<u8>,
    depth: int,
    loc: NodeLocView,
    target: Seq<u8>,
)
    requires
        0 <= depth <= 8,
        spec_lookup(c, dir, path) == Ok::<NodeRefView, FsError>(NodeRefView::At(loc)),
        spec_attr_of(c.root, NodeRefView::At(loc)) matches Ok(attr) && attr.ty
            == NodeType::SymLink,
        spec_readlink(fs_of(c.root, loc.fs), loc.comps) == Ok::<Seq<u8>, FsError>(target),
    ensures
        spec_resolve_syms(c, dir, path, depth) == spec_resolve_syms(
            c,
            dir,
            subst_link(path, target),
            depth + 1,
        ),
{
}

/// Exceeding eight traversed links fails with the "too many levels of
/// symbolic links" error, whether or not the chain is cyclic.
pub proof fn lemma_resolve_depth_exceeded(
    c: FsContextView,
    dir: Option<NodeRefView>,
    path: Seq<u8>,
    depth: int,
)
    requires
        depth > 8,
    ensures
        spec_resolve_syms(c, dir, path, depth) == Err::<NodeRefView, FsError>(
            FsError::InvalidInput,
        ),
{
}

/// One hop of symbolic-link resolution: `p` resolves to a link whose
/// stored target turns it into `q`.
pub open spec fn link_step(c: FsContextView, dir: Option<NodeRefView>, p: Seq<u8>, q: Seq<u8>) -> bool {
    exists|loc: NodeLocView, t: Seq<u8>|
        {
            &&& spec_lookup(c, dir, p) == Ok::<NodeRefView, FsError>(NodeRefView::At(loc))
            &&& spec_attr_of(c.root, NodeRefView::At(loc)) matches Ok(attr) && attr.ty
                == NodeType::SymLink
            &&& spec_readlink(fs_of(c.root, loc.fs), loc.comps) == Ok::<Seq<u8>, FsError>(t)
            &&& q == subst_link(p, t)
        }
}

/// A chain of at most eight links that ends at a non-link node
/// resolves to that node: the iterative resolver terminates within
/// the bound on every such chain.
pub proof fn lemma_chain_resolves(
    c: FsContextView,
    dir: Option<NodeRefView>,
    paths: Seq<Seq<u8>>,
    n: NodeRefView,
    attr: NodeAttr,
    depth: int,
)
    requires
        paths.len() >= 1,
        0 <= depth,
        depth + paths.len() - 1 <= 8,
        forall|i: int| 0 <= i < paths.len() - 1 ==> #[trigger] link_step(c, dir, paths[i], paths[i + 1]),
        spec_lookup(c, dir, paths.last()) == Ok::<NodeRefView, FsError>(n),
        spec_attr_of(c.root, n) == Ok::<NodeAttr, FsError>(attr),
        attr.ty != NodeType::SymLink,
    ensures
        spec_resolve_syms(c, dir, paths[0], depth) == Ok::<NodeRefView, FsError>(n),
    decreases paths.len(),
{
    if paths.len() == 1 {
        lemma_resolve_terminal(c, dir, paths[0], depth, n, attr);
    } else {
        assert(link_step(c, dir, paths[0], paths[1]));
        let (loc, t) = choose|loc: NodeLocView, t: Seq<u8>|
            {
                &&& spec_lookup(c, dir, paths[0]) == Ok::<NodeRefView, FsError>(
                    NodeRefView::At(loc),
                )
                &&& spec_attr_of(c.root, NodeRefView::At(loc)) matches Ok(attr) && attr.ty
                    == NodeType::SymLink
                &&& spec_readlink(fs_of(c.root, loc.fs), loc.comps) == Ok::<Seq<u8>, FsError>(t)
                &&& paths[1] == subst_link(paths[0], t)
            };
        lemma_resolve_step(c, dir, paths[0], depth, loc, t);
        let rest = paths.skip(1);
        assert(rest[0] == paths[1]);
        assert(rest.last() == paths.last());
        assert(forall|i: int|
            0 <= i < rest.len() - 1 ==> #[trigger] link_step(c, dir, rest[i], rest[i + 1])) by {
            assert(forall|i: int|
                0 <= i < rest.len() - 1 ==> #[trigger] rest[i] == paths[i + 1] && rest[i + 1]
                    == paths[i + 2]);
        }
        lemma_chain_resolves(c, dir, rest, n, attr, depth + 1);
    }
}

/// A chain of more than eight links — cyclic or not — fails with the
/// "too many levels of symbolic links" error.
pub proof fn lemma_chain_too_long(
    c: FsContextView,
    dir: Option<NodeRefView>,
    paths: Seq<Seq<u8>>,
    depth: int,
)
    requires
        0 <= depth <= 9,
        paths.len() == 10 - depth,
        forall|i: int| 0 <= i < paths.len() - 1 ==> #[trigger] link_step(c, dir, paths[i], paths[i + 1]),
    ensures
        spec_resolve_syms(c, dir, paths[0], depth) == Err::<NodeRefView, FsError>(
            FsError::InvalidInput,
        ),
    decreases paths.len(),
{
    if depth == 9 {
        lemma_resolve_depth_exceeded(c, dir, paths[0], depth);
    } else {
        assert(link_step(c, dir, paths[0], paths[1]));
        let (loc, t) = choose|loc: NodeLocView, t: Seq<u8>|
            {
                &&& spec_lookup(c, dir, paths[0]) == Ok::<NodeRefView, FsError>(
                    NodeRefView::At(loc),
                )
                &&& spec_attr_of(c.root, NodeRefView::At(loc)) matches Ok(attr) && attr.ty
                    == NodeType::SymLink
                &&& spec_readlink(fs_of(c.root, loc.fs), loc.comps) == Ok::<Seq<u8>, FsError>(t)
                &&& paths[1] == subst_link(paths[0], t)
            };
        lemma_resolve_step(c, dir, paths[0], depth, loc, t);
        let rest = paths.skip(1);
        assert(rest[0] == paths[1]);
        assert(forall|i: int|
            0 <= i < rest.len() - 1 ==> #[trigger] link_step(c, dir, rest[i], rest[i + 1])) by {
            assert(forall|i: int|
                0 <= i < rest.len() - 1 ==> #[trigger] rest[i] == paths[i + 1] && rest[i + 1]
                    == paths[i + 2]);
        }
        lemma_chain_too_long(c, dir, rest, depth + 1);
    }
}

impl FsContext {
    /// Reads the stored target of the link a location points at.
    fn readlink_loc(&self, loc: &NodeLoc) -> (r: Result<Vec<u8>, FsError>)
        requires
            rd_wf(self@.root),
            choice_ok(self@.root, loc@.fs),
        ensures
            match r {
                Ok(v) => spec_readlink(fs_of(self@.root, loc@.fs), loc@.comps) == Ok::<
                    Seq<u8>,
                    FsError,
                >(v@),
                Err(e) => spec_readlink(fs_of(self@.root, loc@.fs), loc@.comps) == Err::<
                    Seq<u8>,
                    FsError,
                >(e),
            },
    {
        match loc.fs {
            FsChoice::MainFs => self.root.main_fs.readlink_at(&loc.comps),
            FsChoice::MountAt(i) => {
                proof {
                    assert(fs_wf(self@.root.mounts[i as int].fs));
                }
                self.root.mounts[i].fs.readlink_at(&loc.comps)
            },
        }
    }

    /// Resolves a path to its final target, following symbolic links
    /// through a bounded iterative loop: at most eight links are
    /// traversed, and exceeding the bound fails with `InvalidInput`
    /// ("too many levels of symbolic links").
    pub fn lookup_follow_symlinks_public(&self, dir: Option<&NodeRef>, path: &[u8]) -> (r: Result<
        NodeRef,
        FsError,
    >)
        requires
            ctx_wf(self@),
            match dir {
                Some(d) => nref_wf(self@.root, d@),
                None => true,
            },
        ensures
            match r {
                Ok(n) => spec_resolve_syms(self@, dir_view(dir), path@, 0) == Ok::<
                    NodeRefView,
                    FsError,
                >(n@) && nref_wf(self@.root, n@),
                Err(e) => spec_resolve_syms(self@, dir_view(dir), path@, 0) == Err::<
                    NodeRefView,
                    FsError,
                >(e),
            },
    {
        let mut current: Vec<u8> = slice_to_vec(path);
        let mut depth: u32 = 0;
        proof {
            assert(current@ =~= path@);
        }
        loop
            invariant
                ctx_wf(self@),
                match dir {
                    Some(d) => nref_wf(self@.root, d@),
                    None => true,
                },
                depth <= 9,
                spec_resolve_syms(self@, dir_view(dir), current@, depth as int)
                    == spec_resolve_syms(self@, dir_view(dir), path@, 0),
            decreases 9 - depth,
        {
            if depth > 8 {
                return Err(FsError::InvalidInput);
            }
            let n = match self.lookup(dir, current.as_slice()) {
                Ok(n) => n,
                Err(e) => {
                    return Err(e);
                },
            };
            let attr = match self.attr_of_node(&n) {
                Ok(a) => a,
                Err(e) => {
                    return Err(e);
                },
            };
            if !attr.is_symlink() {
                return Ok(n);
            }
            let loc = match n {
                NodeRef::At(loc) => loc,
                NodeRef::Root => {
                    proof {
                        assert(false);
                    }
                    return Err(FsError::InvalidInput);
                },
            };
            let target = match self.readlink_loc(&loc) {
                Ok(t) => t,
                Err(e) => {
                    return Err(e);
                },
            };
            let next: Vec<u8> = if target.len() > 0 && target[0] == SEP {
                proof {
                    assert(subst_link(current@, target@) == target@);
                }
                target
            } else {
                proof {
                    assert(!is_abs(target@));
                }
                match rfind_sep(current.as_slice()) {
                    Some(pos) => {
                        let mut t = slice_to_vec(&current.as_slice()[0..pos]);
                        t.push(SEP);
                        t.extend_from_slice(target.as_slice());
                        proof {
                            assert(t@ =~= current@.take(pos as int) + seq![SEP] + target@);
                        }
                        t
                    },
                    None => target,
                }
            };
            proof {
                assert(next@ == subst_link(current@, target@));
            }
            current = next;
            depth = depth + 1;
        }
    }
}

/// An absolute path of one component resolves to just that component.
pub proof fn lemma_abs_single(s: Seq<u8>)
    requires
        s.len() >= 2,
        s[0] == SEP,
        forall|k: int| 1 <= k < s.len() ==> s[k] != SEP,
        !(s.len() == 2 && s[1] == DOT),
        !(s.len() == 3 && s[1] == DOT && s[2] == DOT),
    ensures
        node_path(Seq::empty(), s) == seq![s.skip(1)],
        crate::path::valid_comp(s.skip(1)),
{
    let tail = s.skip(1);
    assert(forall|k: int| 0 <= k < tail.len() ==> tail[k] != SEP);
    assert(tail != seq![DOT]) by {
        if tail == seq![DOT] {
            assert(tail.len() == 1 && tail[0] == DOT);
            assert(s[1] == DOT);
        }
    }
    assert(tail != seq![DOT, DOT]) by {
        if tail == seq![DOT, DOT] {
            assert(tail.len() == 2 && tail[0] == DOT && tail[1] == DOT);
            assert(s[1] == DOT && s[2] == DOT);
        }
    }
    crate::path::lemma_split_step(tail, tail.len() as int);
    assert(crate::path::split_comps(s) == seq![Seq::<u8>::empty()] + seq![tail]);
    let cs = seq![Seq::<u8>::empty()] + seq![tail];
    assert(cs[0].len() == 0);
    assert(crate::path::norm_push(Seq::empty(), cs[0]) =~= Seq::<Seq<u8>>::empty());
    assert(cs.skip(1) =~= seq![tail]);
    assert(crate::path::norm_from(Seq::empty(), cs) == crate::path::norm_from(
        crate::path::norm_push(Seq::empty(), cs[0]),
        cs.skip(1),
    ));
    assert(crate::path::norm_push(Seq::empty(), tail) =~= seq![tail]);
    assert(seq![tail][0] == tail);
    assert(crate::path::norm_from(Seq::empty(), seq![tail]) == crate::path::norm_from(
        seq![tail],
        seq![tail].skip(1),
    ));
    assert(seq![tail].skip(1) =~= Seq::<Seq<u8>>::empty());
    assert(crate::path::norm_from(seq![tail], Seq::<Seq<u8>>::empty()) == seq![tail]);
    assert(node_path(Seq::empty(), s) =~= seq![tail]);
}

/// A relative path of one component resolves to just that component.
pub proof fn lemma_rel_single(s: Seq<u8>)
    requires
        s.len() >= 1,
        forall|k: int| 0 <= k < s.len() ==> s[k] != SEP,
        !(s.len() == 1 && s[0] == DOT),
        !(s.len() == 2 && s[0] == DOT && s[1] == DOT),
    ensures
        node_path(Seq::empty(), s) == seq![s],
        crate::path::valid_comp(s),
{
    assert(s != seq![DOT]) by {
        if s == seq![DOT] {
            assert(s.len() == 1 && s[0] == DOT);
        }
    }
    assert(s != seq![DOT, DOT]) by {
        if s == seq![DOT, DOT] {
            assert(s.len() == 2 && s[0] == DOT && s[1] == DOT);
        }
    }
    crate::path::lemma_split_step(s, s.len() as int);
    assert(crate::path::split_comps(s) == seq![s]);
    assert(crate::path::norm_push(Seq::empty(), s) =~= seq![s]);
    assert(seq![s][0] == s);
    assert(crate::path::norm_from(Seq::empty(), seq![s]) == crate::path::norm_from(
        seq![s],
        seq![s].skip(1),
    ));
    assert(seq![s].skip(1) =~= Seq::<Seq<u8>>::empty());
    assert(crate::path::norm_from(seq![s], Seq::<Seq<u8>>::empty()) == seq![s]);
    assert(node_path(Seq::empty(), s) =~= seq![s]);
}

/// Builds the standard root filesystem layout: an empty main
/// filesystem at `/`, a device filesystem at `/dev` (holding the
/// console device `tty`), a RAM filesystem at `/tmp`, and synthetic
/// RAM-backed filesystems at `/proc` (holding `interrupts`) and
/// `/sys`; the current directory starts at `/`.
pub fn init_rootfs() -> (r: FsContext)
    ensures
        ctx_wf(r@),
        r@.cwd == NodeRefView::Root,
        r@.cwd_path =~= seq![SEP],
        r@.root.mounts.len() == 4,
        r@.root.mounts[0].path =~= seq![SEP, 100, 101, 118],
        r@.root.mounts[1].path =~= seq![SEP, 116, 109, 112],
        r@.root.mounts[2].path =~= seq![SEP, 112, 114, 111, 99],
        r@.root.mounts[3].path =~= seq![SEP, 115, 121, 115],
        has_path(r@.root.mounts[0].fs, seq![seq![116, 116, 121]]),
        crate::memfs::entry_at(r@.root.mounts[0].fs, seq![seq![116, 116, 121]]).ty
            == NodeType::CharDevice,
        has_path(
            r@.root.mounts[2].fs,
            seq![seq![105, 110, 116, 101, 114, 114, 117, 112, 116, 115]],
        ),
        crate::memfs::entry_at(
            r@.root.mounts[2].fs,
            seq![seq![105, 110, 116, 101, 114, 114, 117, 112, 116, 115]],
        ).ty == NodeType::File,
        r@.root.mounts[1].fs =~= Seq::<crate::memfs::EntryView>::empty(),
        r@.root.mounts[3].fs =~= Seq::<crate::memfs::EntryView>::empty(),
        has_path(r@.root.main, seq![seq![100, 101, 118]]),
        has_path(r@.root.main, seq![seq![116, 109, 112]]),
        has_path(r@.root.main, seq![seq![112, 114, 111, 99]]),
        has_path(r@.root.main, seq![seq![115, 121, 115]]),
{
    let base: Vec<Vec<u8>> = Vec::new();
    proof {
        assert(cv(base@) =~= Seq::<Seq<u8>>::empty());
    }
    // the device filesystem, with the console device node
    let mut devfs = MemFs::new();
    let mut tty: Vec<u8> = Vec::new();
    tty.push(116);
    tty.push(116);
    tty.push(121);
    proof {
        assert(tty@ =~= seq![116, 116, 121]);
        lemma_rel_single(tty@);
    }
    let _added = devfs.add_node(&base, tty.as_slice(), NodeType::CharDevice,
        crate::types::DEFAULT_FILE_PERM);
    let ghost tty_p = seq![seq![116, 116, 121]];
    proof {
        assert(node_path(Seq::empty(), tty@) =~= tty_p);
        assert(!has_path(Seq::<crate::memfs::EntryView>::empty(), tty_p));
        assert(spec_add(Seq::empty(), tty_p) == Ok::<(), FsError>(()));
        crate::memfs::lemma_entry_here(devfs@, 0);
    }
    // the synthetic procfs, with the interrupt-statistics file
    let mut procfs = MemFs::new();
    let mut intr: Vec<u8> = Vec::new();
    intr.push(105);
    intr.push(110);
    intr.push(116);
    intr.push(101);
    intr.push(114);
    intr.push(114);
    intr.push(117);
    intr.push(112);
    intr.push(116);
    intr.push(115);
    proof {
        assert(intr@ =~= seq![105, 110, 116, 101, 114, 114, 117, 112, 116, 115]);
        lemma_rel_single(intr@);
    }
    let _added = procfs.add_node(&base, intr.as_slice(), NodeType::File, 0o444);
    let ghost intr_p = seq![seq![105, 110, 116, 101, 114, 114, 117, 112, 116, 115]];
    proof {
        assert(node_path(Seq::empty(), intr@) =~= intr_p);
        assert(!has_path(Seq::<crate::memfs::EntryView>::empty(), intr_p));
        assert(spec_add(Seq::empty(), intr_p) == Ok::<(), FsError>(()));
        crate::memfs::lemma_entry_here(procfs@, 0);
    }
    // RAM filesystems for /tmp and /sys
    let tmpfs = MemFs::new();
    let sysfs = MemFs::new();
    // the root directory over an empty main filesystem
    let main_fs = MemFs::new();
    let mut ctx = FsContext::new(main_fs);
    let ghost devfs_v = devfs@;
    let ghost procfs_v = procfs@;
    // mount the four filesystems
    let mut p_dev: Vec<u8> = Vec::new();
    p_dev.push(SEP);
    p_dev.push(100);
    p_dev.push(101);
    p_dev.push(118);
    proof {
        assert(p_dev@ =~= seq![SEP, 100, 101, 118]);
        lemma_abs_single(p_dev@);
    }
    let _m = ctx.root.mount(p_dev.as_slice(), devfs);
    let ghost dev_c = seq![seq![100, 101, 118]];
    proof {
        assert(p_dev@.skip(1) =~= seq![100u8, 101u8, 118u8]);
        assert(node_path(Seq::empty(), p_dev@) =~= dev_c);
        assert(ctx@.root.mounts.len() == 1 && ctx@.root.main.len() == 1) by {
            assert(!mounted_at(Seq::<MountPointView>::empty(), p_dev@));
            assert(!has_path(Seq::<crate::memfs::EntryView>::empty(), dev_c));
            assert(spec_create(Seq::empty(), dev_c, NodeType::Dir) == Ok::<(), FsError>(()));
        }
        assert(ctx@.root.mounts[0].path == p_dev@ && ctx@.root.mounts[0].fs == devfs_v);
        assert(ctx@.root.main[0].path == dev_c && ctx@.root.main[0].ty == NodeType::Dir);
    }
    let mut p_tmp: Vec<u8> = Vec::new();
    p_tmp.push(SEP);
    p_tmp.push(116);
    p_tmp.push(109);
    p_tmp.push(112);
    proof {
        assert(p_tmp@ =~= seq![SEP, 116, 109, 112]);
        lemma_abs_single(p_tmp@);
    }
    let ghost rd1 = ctx@.root;
    let _m = ctx.root.mount(p_tmp.as_slice(), tmpfs);
    let ghost tmp_c = seq![seq![116, 109, 112]];
    proof {
        assert(p_tmp@.skip(1) =~= seq![116u8, 109u8, 112u8]);
        assert(node_path(Seq::empty(), p_tmp@) =~= tmp_c);
        assert(ctx@.root.mounts.len() == 2 && ctx@.root.main.len() == 2) by {
            assert(!mounted_at(rd1.mounts, p_tmp@)) by {
                assert(p_tmp@[1] != p_dev@[1]);
            }
            assert(!has_path(rd1.main, tmp_c)) by {
                assert(dev_c[0][0] != tmp_c[0][0]);
                assert(rd1.main[0].path != tmp_c);
            }
            assert(spec_create(rd1.main, tmp_c, NodeType::Dir) == Ok::<(), FsError>(()));
        }
        assert(ctx@.root.mounts[1].path == p_tmp@);
        assert(ctx@.root.mounts[0] == rd1.mounts[0]);
        assert(ctx@.root.main[1].path == tmp_c && ctx@.root.main[1].ty == NodeType::Dir);
        assert(ctx@.root.main[0] == rd1.main[0]);
    }
    let mut p_proc: Vec<u8> = Vec::new();
    p_proc.push(SEP);
    p_proc.push(112);
    p_proc.push(114);
    p_proc.push(111);
    p_proc.push(99);
    proof {
        assert(p_proc@ =~= seq![SEP, 112, 114, 111, 99]);
        lemma_abs_single(p_proc@);
    }
    let ghost rd2 = ctx@.root;
    let _m = ctx.root.mount(p_proc.as_slice(), procfs);
    let ghost proc_c = seq![seq![112, 114, 111, 99]];
    proof {
        assert(p_proc@.skip(1) =~= seq![112u8, 114u8, 111u8, 99u8]);
        assert(node_path(Seq::empty(), p_proc@) =~= proc_c);
        assert(ctx@.root.mounts.len() == 3 && ctx@.root.main.len() == 3) by {
            assert(!mounted_at(rd2.mounts, p_proc@)) by {
                assert(p_proc@.len() != p_dev@.len() || p_proc@[1] != p_dev@[1]);
                assert(p_proc@.len() != p_tmp@.len());
                assert(rd2.mounts[0].path != p_proc@);
                assert(rd2.mounts[1].path != p_proc@);
            }
            assert(!has_path(rd2.main, proc_c)) by {
                assert(dev_c[0].len() != proc_c[0].len());
                assert(tmp_c[0].len() != proc_c[0].len());
                assert(rd2.main[0].path != proc_c);
                assert(rd2.main[1].path != proc_c);
            }
            assert(spec_create(rd2.main, proc_c, NodeType::Dir) == Ok::<(), FsError>(()));
        }
        assert(ctx@.root.mounts[2].path == p_proc@ && ctx@.root.mounts[2].fs == procfs_v);
        assert(ctx@.root.mounts[0] == rd2.mounts[0]);
        assert(ctx@.root.mounts[1] == rd2.mounts[1]);
        assert(ctx@.root.main[2].path == proc_c && ctx@.root.main[2].ty == NodeType::Dir);
        assert(ctx@.root.main[0] == rd2.main[0]);
        assert(ctx@.root.main[1] == rd2.main[1]);
    }
    let mut p_sys: Vec<u8> = Vec::new();
    p_sys.push(SEP);
    p_sys.push(115);
    p_sys.push(121);
    p_sys.push(115);
    proof {
        assert(p_sys@ =~= seq![SEP, 115, 121, 115]);
        lemma_abs_single(p_sys@);
    }
    let ghost rd3 = ctx@.root;
    let _m = ctx.root.mount(p_sys.as_slice(), sysfs);
    let ghost sys_c = seq![seq![115, 121, 115]];
    proof {
        assert(p_sys@.skip(1) =~= seq![115u8, 121u8, 115u8]);
        assert(node_path(Seq::empty(), p_sys@) =~= sys_c);
        assert(ctx@.root.mounts.len() == 4 && ctx@.root.main.len() == 4) by {
            assert(!mounted_at(rd3.mounts, p_sys@)) by {
                assert(p_sys@[1] != p_dev@[1]);
                assert(p_sys@[1] != p_tmp@[1]);
                assert(p_sys@.len() != p_proc@.len());
                assert(rd3.mounts[0].path != p_sys@);
                assert(rd3.mounts[1].path != p_sys@);
                assert(rd3.mounts[2].path != p_sys@);
            }
            assert(!has_path(rd3.main, sys_c)) by {
                assert(dev_c[0][0] != sys_c[0][0]);
                assert(tmp_c[0][0] != sys_c[0][0]);
                assert(proc_c[0].len() != sys_c[0].len());
                assert(rd3.main[0].path != sys_c);
                assert(rd3.main[1].path != sys_c);
                assert(rd3.main[2].path != sys_c);
            }
            assert(spec_create(rd3.main, sys_c, NodeType::Dir) == Ok::<(), FsError>(()));
        }
        assert(ctx@.root.mounts[3].path == p_sys@);
        assert(ctx@.root.mounts[0] == rd3.mounts[0]);
        assert(ctx@.root.mounts[1] == rd3.mounts[1]);
        assert(ctx@.root.mounts[2] == rd3.mounts[2]);
        assert(ctx@.root.main[3].path == sys_c && ctx@.root.main[3].ty == NodeType::Dir);
        assert(ctx@.root.main[0] == rd3.main[0]);
        assert(ctx@.root.main[1] == rd3.main[1]);
        assert(ctx@.root.main[2] == rd3.main[2]);
        crate::memfs::lemma_entry_here(ctx@.root.main, 0);
        crate::memfs::lemma_entry_here(ctx@.root.main, 1);
        crate::memfs::lemma_entry_here(ctx@.root.main, 2);
        crate::memfs::lemma_entry_here(ctx@.root.main, 3);
    }
    ctx
}

} // verus!
