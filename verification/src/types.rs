//! Error taxonomy, node kinds, and node attributes shared by the
//! whole filesystem layer.

use vstd::prelude::*;

verus! {

/// The error kinds every public operation of this layer may surface.
#[derive(Clone, Copy, Debug, PartialEq, Eq, Structural)]
pub enum FsError {
    NotFound,
    AlreadyExists,
    NotADirectory,
    IsADirectory,
    DirectoryNotEmpty,
    InvalidInput,
    InvalidData,
    PermissionDenied,
    Unsupported,
}

/// The kind of a filesystem node.
#[derive(Clone, Copy, Debug, PartialEq, Eq, Structural)]
pub enum NodeType {
    File,
    Dir,
    SymLink,
    CharDevice,
}

/// All valid permission bits (`rwxrwxrwx`).
pub const PERM_MASK: u16 = 0o777;

/// Owner-read permission bit.
pub const PERM_OWNER_READ: u16 = 0o400;

/// Owner-write permission bit.
pub const PERM_OWNER_WRITE: u16 = 0o200;

/// Owner-execute permission bit.
pub const PERM_OWNER_EXEC: u16 = 0o100;

/// Default permission of a regular file.
pub const DEFAULT_FILE_PERM: u16 = 0o666;

/// Default permission of a directory.
pub const DEFAULT_DIR_PERM: u16 = 0o755;

/// A permission value is valid when it only uses the nine `rwx` bits.
pub open spec fn perm_valid(mode: u16) -> bool {
    mode & PERM_MASK == mode
}

/// Executable check that a mode only uses the nine `rwx` bits.
pub fn perm_is_valid(mode: u16) -> (r: bool)
    ensures
        r == perm_valid(mode),
{
    mode & PERM_MASK == mode
}

/// Attributes of a node: permission bits, kind, and size in bytes.
#[derive(Clone, Copy, Debug, PartialEq, Eq, Structural)]
pub struct NodeAttr {
    pub perm: u16,
    pub ty: NodeType,
    pub size: u64,
}

impl NodeAttr {
    /// Whether the node is a directory.
    pub open spec fn spec_is_dir(&self) -> bool {
        self.ty == NodeType::Dir
    }

    /// Whether the node is a symbolic link.
    pub open spec fn spec_is_symlink(&self) -> bool {
        self.ty == NodeType::SymLink
    }

    /// Whether the owner may write.
    pub open spec fn spec_owner_writable(&self) -> bool {
        self.perm & PERM_OWNER_WRITE != 0
    }

    /// Whether the owner may execute (enter, for a directory).
    pub open spec fn spec_owner_executable(&self) -> bool {
        self.perm & PERM_OWNER_EXEC != 0
    }

    /// Whether the node is a directory.
    #[verifier::when_used_as_spec(spec_is_dir)]
    pub fn is_dir(&self) -> (r: bool)
        ensures
            r == self.spec_is_dir(),
    {
        self.ty == NodeType::Dir
    }

    /// Whether the node is a symbolic link.
    #[verifier::when_used_as_spec(spec_is_symlink)]
    pub fn is_symlink(&self) -> (r: bool)
        ensures
            r == self.spec_is_symlink(),
    {
        self.ty == NodeType::SymLink
    }

    /// Whether the owner may write.
    #[verifier::when_used_as_spec(spec_owner_writable)]
    pub fn owner_writable(&self) -> (r: bool)
        ensures
            r == self.spec_owner_writable(),
    {
        self.perm & PERM_OWNER_WRITE != 0
    }

    /// Whether the owner may execute.
    #[verifier::when_used_as_spec(spec_owner_executable)]
    pub fn owner_executable(&self) -> (r: bool)
        ensures
            r == self.spec_owner_executable(),
    {
        self.perm & PERM_OWNER_EXEC != 0
    }
}

} // verus!
