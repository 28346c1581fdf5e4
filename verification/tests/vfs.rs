//! The mount table, dispatch, the policy layer and the
//! current-directory state machine, exercised end to end.

use axfs_root::memfs::MemFs;
use axfs_root::mount::FsChoice;
use axfs_root::root::{init_rootfs, FsContext, NodeRef};
use axfs_root::types::{FsError, NodeType};

#[test]
fn mount_pair_and_duplicate() {
    let mut ctx = FsContext::new(MemFs::new());
    assert_eq!(ctx.root.mount(b"/dev", MemFs::new()), Ok(()));
    assert_eq!(ctx.root.mount(b"/tmp", MemFs::new()), Ok(()));
    // a third attempt at an already-registered path is a duplicate
    assert_eq!(ctx.root.mount(b"/dev", MemFs::new()), Err(FsError::InvalidInput));
    // the root itself and relative paths cannot be mounted
    assert_eq!(ctx.root.mount(b"/", MemFs::new()), Err(FsError::InvalidInput));
    assert_eq!(ctx.root.mount(b"dev", MemFs::new()), Err(FsError::InvalidInput));
    assert!(ctx.root.contains(b"/dev"));
    assert!(!ctx.root.contains(b"/proc"));
}

#[test]
fn dispatch_under_mount_and_main() {
    let ctx = init_rootfs();
    // a path under /tmp goes to that mount with the remainder
    let (c, rest) = ctx.root.resolve_mount(b"/tmp/a/b");
    assert_eq!(c, FsChoice::MountAt(1));
    assert_eq!(rest, b"a/b");
    // an exact match leaves an empty remainder
    let (c, rest) = ctx.root.resolve_mount(b"/tmp");
    assert_eq!(c, FsChoice::MountAt(1));
    assert_eq!(rest, b"");
    // a path under no mount stays with the main filesystem, trimmed
    let (c, rest) = ctx.root.resolve_mount(b"//etc/passwd/");
    assert_eq!(c, FsChoice::MainFs);
    assert_eq!(rest, b"etc/passwd");
    // a non-aligned textual prefix must not match: /tmpx is not under /tmp
    let (c, rest) = ctx.root.resolve_mount(b"/tmpx");
    assert_eq!(c, FsChoice::MainFs);
    assert_eq!(rest, b"tmpx");
}

#[test]
fn longest_prefix_wins() {
    let mut ctx = FsContext::new(MemFs::new());
    ctx.root.mount(b"/dev", MemFs::new()).unwrap();
    ctx.root.create(b"/dev/pts", NodeType::Dir).unwrap();
    ctx.root.mount(b"/dev/pts", MemFs::new()).unwrap();
    let (c, rest) = ctx.root.resolve_mount(b"/dev/pts/0");
    assert_eq!(c, FsChoice::MountAt(1));
    assert_eq!(rest, b"0");
    let (c, rest) = ctx.root.resolve_mount(b"/dev/zero");
    assert_eq!(c, FsChoice::MountAt(0));
    assert_eq!(rest, b"zero");
}

#[test]
fn create_lookup_remove_roundtrip() {
    let mut ctx = init_rootfs();
    let node = ctx.create_file(None, b"/tmp/a").unwrap();
    let looked = ctx.lookup(None, b"/tmp/a").unwrap();
    let attr = ctx.attr_of_node(&looked).unwrap();
    assert!(!attr.is_dir());
    drop(node);
    assert_eq!(ctx.remove_file(None, b"/tmp/a"), Ok(()));
    assert_eq!(ctx.lookup(None, b"/tmp/a").err(), Some(FsError::NotFound));
}

#[test]
fn create_dir_semantics() {
    let mut ctx = init_rootfs();
    assert_eq!(ctx.create_dir(None, b"/tmp/d"), Ok(()));
    assert_eq!(ctx.create_dir(None, b"/tmp/d"), Err(FsError::AlreadyExists));
    // a trailing separator on a file request is refused
    assert_eq!(ctx.create_file(None, b"/tmp/f/").err(), Some(FsError::NotADirectory));
    // a file with a missing parent is not found
    assert_eq!(ctx.create_file(None, b"/tmp/nodir/f").err(), Some(FsError::NotFound));
}

#[test]
fn remove_dir_mount_point_denied() {
    let mut ctx = init_rootfs();
    // a live mount point cannot be removed, whatever it holds
    assert_eq!(ctx.remove_dir(None, b"/dev"), Err(FsError::PermissionDenied));
    assert_eq!(ctx.remove_dir(None, b"/tmp/"), Err(FsError::PermissionDenied));
}

#[test]
fn remove_dir_checks() {
    let mut ctx = init_rootfs();
    assert_eq!(ctx.remove_dir(None, b""), Err(FsError::NotFound));
    assert_eq!(ctx.remove_dir(None, b"/"), Err(FsError::DirectoryNotEmpty));
    assert_eq!(ctx.remove_dir(None, b"/tmp/.."), Err(FsError::InvalidInput));
    assert_eq!(ctx.remove_dir(None, b"."), Err(FsError::InvalidInput));
    ctx.create_dir(None, b"/tmp/d").unwrap();
    ctx.create_file(None, b"/tmp/d/f").unwrap();
    assert_eq!(ctx.remove_dir(None, b"/tmp/d"), Err(FsError::DirectoryNotEmpty));
    assert_eq!(ctx.remove_file(None, b"/tmp/d"), Err(FsError::IsADirectory));
    ctx.remove_file(None, b"/tmp/d/f").unwrap();
    assert_eq!(ctx.remove_dir(None, b"/tmp/d"), Ok(()));
    // unsupported node kinds cannot be created through create
    assert_eq!(ctx.root.create(b"/x", NodeType::CharDevice), Err(FsError::Unsupported));
}

#[test]
fn rename_replaces_destination() {
    let mut ctx = init_rootfs();
    ctx.create_file(None, b"/tmp/a").unwrap();
    ctx.create_file(None, b"/tmp/b").unwrap();
    assert_eq!(ctx.rename(b"/tmp/a", b"/tmp/b"), Ok(()));
    // exactly one node reachable at the destination, none at the source
    assert!(ctx.lookup(None, b"/tmp/b").is_ok());
    assert_eq!(ctx.lookup(None, b"/tmp/a").err(), Some(FsError::NotFound));
}

#[test]
fn rename_moves_subtree() {
    let mut ctx = init_rootfs();
    ctx.create_dir(None, b"/tmp/d").unwrap();
    ctx.create_file(None, b"/tmp/d/f").unwrap();
    assert_eq!(ctx.rename(b"/tmp/d", b"/tmp/e"), Ok(()));
    assert!(ctx.lookup(None, b"/tmp/e/f").is_ok());
    assert_eq!(ctx.lookup(None, b"/tmp/d").err(), Some(FsError::NotFound));
}

#[test]
fn set_current_dir_pair_is_atomic() {
    let mut ctx = init_rootfs();
    assert_eq!(ctx.set_current_dir(b"/tmp"), Ok(()));
    assert_eq!(ctx.current_dir(), b"/tmp/");
    // a failed transition leaves the (node, path) pair untouched
    assert_eq!(ctx.set_current_dir(b"/nowhere").err(), Some(FsError::NotFound));
    assert_eq!(ctx.current_dir(), b"/tmp/");
    // the observed node corresponds to the observed path
    let here = ctx.lookup(None, b"/tmp/").unwrap();
    assert!(ctx.attr_of_node(&here).unwrap().is_dir());
    // relative resolution now starts at /tmp
    ctx.create_file(None, b"x").unwrap();
    assert!(ctx.lookup(None, b"/tmp/x").is_ok());
    // back to the root, the fast path
    assert_eq!(ctx.set_current_dir(b"/"), Ok(()));
    assert_eq!(ctx.current_dir(), b"/");
    assert!(matches!(ctx.cwd, NodeRef::Root));
}

#[test]
fn set_current_dir_refuses_non_directories() {
    let mut ctx = init_rootfs();
    ctx.create_file(None, b"/tmp/f").unwrap();
    assert_eq!(ctx.set_current_dir(b"/tmp/f"), Err(FsError::NotADirectory));
    assert_eq!(ctx.current_dir(), b"/");
}

#[test]
fn symlink_resolution_follows_chains() {
    let mut ctx = init_rootfs();
    ctx.create_file(None, b"/target").unwrap();
    ctx.create_symlink(b"/target", b"/l1").unwrap();
    ctx.create_symlink(b"/l1", b"/l2").unwrap();
    let n = ctx.lookup_follow_symlinks_public(None, b"/l2").unwrap();
    let attr = ctx.attr_of_node(&n).unwrap();
    assert_eq!(attr.ty, NodeType::File);
    assert_eq!(ctx.is_symlink(b"/l1"), Ok(true));
    assert_eq!(ctx.is_symlink(b"/target"), Ok(false));
    let t = ctx.read_link(b"/l1").unwrap();
    assert_eq!(t, b"/target");
}

#[test]
fn symlink_resolution_depth_bound() {
    let mut ctx = init_rootfs();
    ctx.create_file(None, b"/end").unwrap();
    // an acyclic chain of exactly eight links resolves
    ctx.create_symlink(b"/end", b"/c1").unwrap();
    for i in 2..=8u32 {
        let target = format!("/c{}", i - 1);
        let name = format!("/c{}", i);
        ctx.create_symlink(target.as_bytes(), name.as_bytes()).unwrap();
    }
    assert!(ctx.lookup_follow_symlinks_public(None, b"/c8").is_ok());
    // one more hop exceeds the bound
    ctx.create_symlink(b"/c8", b"/c9").unwrap();
    assert_eq!(
        ctx.lookup_follow_symlinks_public(None, b"/c9").err(),
        Some(FsError::InvalidInput)
    );
    // a cycle is caught by the same bound
    ctx.create_symlink(b"/loopb", b"/loopa").unwrap();
    ctx.create_symlink(b"/loopa", b"/loopb").unwrap();
    assert_eq!(
        ctx.lookup_follow_symlinks_public(None, b"/loopa").err(),
        Some(FsError::InvalidInput)
    );
}

#[test]
fn relative_symlink_targets() {
    let mut ctx = init_rootfs();
    ctx.create_dir(None, b"/d").unwrap();
    ctx.create_file(None, b"/d/real").unwrap();
    ctx.create_symlink(b"real", b"/d/alias").unwrap();
    let n = ctx.lookup_follow_symlinks_public(None, b"/d/alias").unwrap();
    assert_eq!(ctx.attr_of_node(&n).unwrap().ty, NodeType::File);
}

#[test]
fn set_perm_and_permission_checks() {
    let mut ctx = init_rootfs();
    ctx.create_file(None, b"/tmp/f").unwrap();
    // an invalid mode is refused
    assert_eq!(ctx.set_perm(b"/tmp/f", 0o1777), Err(FsError::InvalidInput));
    // a read-only file cannot be removed
    assert_eq!(ctx.set_perm(b"/tmp/f", 0o444), Ok(()));
    assert_eq!(ctx.remove_file(None, b"/tmp/f"), Err(FsError::PermissionDenied));
    assert_eq!(ctx.set_perm(b"/tmp/f", 0o644), Ok(()));
    assert_eq!(ctx.remove_file(None, b"/tmp/f"), Ok(()));
    // a directory without owner-execute cannot become current
    ctx.create_dir(None, b"/tmp/d").unwrap();
    ctx.set_perm(b"/tmp/d", 0o644).unwrap();
    assert_eq!(ctx.set_current_dir(b"/tmp/d"), Err(FsError::PermissionDenied));
}

#[test]
fn metadata_and_existence() {
    let mut ctx = init_rootfs();
    assert!(!ctx.absolute_path_exists(b"/tmp/gone"));
    ctx.create_file(None, b"/tmp/here").unwrap();
    assert!(ctx.absolute_path_exists(b"/tmp/here"));
    let m = ctx.metadata(b"/tmp/here").unwrap();
    assert_eq!(m.ty, NodeType::File);
    let sm = ctx.symlink_metadata(b"/tmp/here").unwrap();
    assert_eq!(sm, m);
    // canonicalization against the current directory
    ctx.set_current_dir(b"/tmp").unwrap();
    assert_eq!(ctx.canonicalize(b"x/../here"), b"/tmp/here");
    assert_eq!(ctx.absolute_path(b"/a//b/./c"), b"/a/b/c");
}

#[test]
fn initial_layout() {
    let ctx = init_rootfs();
    assert_eq!(ctx.current_dir(), b"/");
    assert!(ctx.root.contains(b"/dev"));
    assert!(ctx.root.contains(b"/tmp"));
    assert!(ctx.root.contains(b"/proc"));
    assert!(ctx.root.contains(b"/sys"));
    let tty = ctx.lookup(None, b"/dev/tty").unwrap();
    assert_eq!(ctx.attr_of_node(&tty).unwrap().ty, NodeType::CharDevice);
    let intr = ctx.lookup(None, b"/proc/interrupts").unwrap();
    assert_eq!(ctx.attr_of_node(&intr).unwrap().ty, NodeType::File);
    assert_eq!(ctx.attr_of_node(&intr).unwrap().perm, 0o444);
}

#[test]
fn umount_removes_the_entry() {
    let mut ctx = init_rootfs();
    ctx.root._umount(b"/sys");
    assert!(!ctx.root.contains(b"/sys"));
    assert!(ctx.root.contains(b"/dev"));
    // the directory in the main filesystem remains and now serves the path
    let (c, _rest) = ctx.root.resolve_mount(b"/sys");
    assert_eq!(c, FsChoice::MainFs);
}

#[test]
fn add_node_places_fixed_nodes() {
    let mut ctx = init_rootfs();
    assert_eq!(ctx.add_node(None, b"/dev/null", NodeType::CharDevice, 0o666), Ok(()));
    let n = ctx.lookup(None, b"/dev/null").unwrap();
    assert_eq!(ctx.attr_of_node(&n).unwrap().ty, NodeType::CharDevice);
    assert_eq!(ctx.add_node(None, b"", NodeType::File, 0o644), Err(FsError::NotFound));
}
