//! Laws of the mount table and the dispatcher, stated and proved over
//! the same specification functions the executable contracts use.

use vstd::prelude::*;

use crate::memfs::{
    EntryView, entry_at, fs_wf, has_path, lemma_entry_here, lemma_push_entry, new_entry,
    node_path, spec_create, spec_create_state, spec_remove, spec_rename, spec_rename_state,
};
use crate::mount::{
    FsChoice, MountPointView, RootDirView, is_best, lemma_best_unique, mount_path_ok, mounted_at,
    qualifies, rd_wf, remainder, some_match, spec_dispatch, spec_mount, spec_mount_state,
};
use crate::path::trim_spec;
use crate::types::{FsError, NodeType};

verus! {

/// Dispatch follows the longest segment-aligned prefix: when mount `i`
/// wins for the trimmed path, the operation goes to that mount point
/// with the rest of the path below it — the matched prefix and one
/// following separator stripped, an exact match leaving nothing.
pub proof fn lemma_dispatch_under_mount(rd: RootDirView, path: Seq<u8>, i: int)
    requires
        rd_wf(rd),
        is_best(rd.mounts, trim_spec(path), i),
    ensures
        spec_dispatch(rd, path).0 == FsChoice::MountAt(i as usize),
        spec_dispatch(rd, path).1 == remainder(rd.mounts[i].path, trim_spec(path)),
        trim_spec(path).len() > rd.mounts[i].path.len() - 1 ==> spec_dispatch(rd, path).1
            == trim_spec(path).skip(rd.mounts[i].path.len() as int),
        trim_spec(path).len() == rd.mounts[i].path.len() - 1 ==> spec_dispatch(rd, path).1
            == Seq::<u8>::empty(),
{
    let t = trim_spec(path);
    lemma_best_unique(rd.mounts, t, i);
    assert(some_match(rd.mounts, t)) by {
        assert(qualifies(rd.mounts[i].path, t));
    }
    let m = rd.mounts[i].path;
    assert(mount_path_ok(m));
    if t.len() > m.skip(1).len() {
        assert(t.skip(m.skip(1).len() as int + 1) =~= t.skip(m.len() as int)) by {
            assert(m.skip(1).len() == m.len() - 1);
        }
    }
}

/// A path under no mounted subtree is served by the main filesystem
/// with the full trimmed path.
pub proof fn lemma_dispatch_no_mount(rd: RootDirView, path: Seq<u8>)
    requires
        !some_match(rd.mounts, trim_spec(path)),
    ensures
        spec_dispatch(rd, path).0 == FsChoice::MainFs,
        spec_dispatch(rd, path).1 == trim_spec(path),
{
}

/// No qualifying mount path is longer than the winner's: with mounts
/// at both a subtree and a nested subtree of it, the nested (longer)
/// one wins for paths under it.
pub proof fn lemma_longest_prefix_wins(mounts: Seq<MountPointView>, t: Seq<u8>, i: int, j: int)
    requires
        is_best(mounts, t, i),
        0 <= j < mounts.len(),
        qualifies(mounts[j].path, t),
    ensures
        mounts[j].path.len() <= mounts[i].path.len(),
{
}

/// The backend-side condition under which registering a mount point
/// cannot fail: the mount directory is a single path component, and
/// whatever already exists under that name in the main filesystem is a
/// directory.
pub open spec fn mount_dir_ok(main: Seq<EntryView>, p: Seq<u8>) -> bool {
    let c = node_path(Seq::empty(), p);
    &&& c.len() == 1
    &&& (has_path(main, c) ==> entry_at(main, c).ty == NodeType::Dir)
}

/// Registering two distinct mount paths in turn succeeds exactly when
/// neither is `/` (or relative) nor already present; a second attempt
/// at the first path then fails as a duplicate.
pub proof fn lemma_mount_pair(
    rd: RootDirView,
    p1: Seq<u8>,
    p2: Seq<u8>,
    f1: Seq<EntryView>,
    f2: Seq<EntryView>,
)
    requires
        rd_wf(rd),
        p1 != p2,
        mount_path_ok(p1),
        mount_path_ok(p2),
        !mounted_at(rd.mounts, p1),
        !mounted_at(rd.mounts, p2),
        mount_dir_ok(rd.main, p1),
        mount_dir_ok(rd.main, p2),
    ensures
        spec_mount(rd, p1).0 == Ok::<(), FsError>(()),
        spec_mount(spec_mount_state(rd, p1, f1), p2).0 == Ok::<(), FsError>(()),
        spec_mount(
            spec_mount_state(spec_mount_state(rd, p1, f1), p2, f2),
            p1,
        ).0 == Err::<(), FsError>(FsError::InvalidInput),
{
    let c1 = node_path(Seq::empty(), p1);
    let c2 = node_path(Seq::empty(), p2);
    // first mount: the path checks pass and the directory can be made
    assert(spec_mount(rd, p1).0 == Ok::<(), FsError>(())) by {
        if has_path(rd.main, c1) {
            assert(spec_create(rd.main, c1, NodeType::Dir) == Err::<(), FsError>(
                FsError::AlreadyExists,
            ));
        } else {
            assert(spec_create(rd.main, c1, NodeType::Dir) == Ok::<(), FsError>(()));
        }
    }
    let rd2 = spec_mount_state(rd, p1, f1);
    // the second path is still absent from the grown mount table
    assert(!mounted_at(rd2.mounts, p2)) by {
        assert(rd2.mounts == rd.mounts.push(MountPointView { path: p1, fs: f1 }));
        if mounted_at(rd2.mounts, p2) {
            let k = choose|k: int|
                0 <= k < rd2.mounts.len() && rd2.mounts[k].path == p2;
            if k < rd.mounts.len() {
                assert(rd.mounts[k].path == p2);
                assert(mounted_at(rd.mounts, p2));
            } else {
                assert(rd2.mounts[k].path == p1);
            }
            assert(false);
        }
    }
    // and its directory can still be made in the updated main filesystem
    assert(spec_mount(rd2, p2).0 == Ok::<(), FsError>(())) by {
        let main1 = spec_mount(rd, p1).1;
        assert(rd2.main == main1);
        if !has_path(rd.main, c1) {
            let e = new_entry(c1, NodeType::Dir, Seq::empty());
            assert(main1 == rd.main.push(e));
            assert(e.path.len() == 1 && crate::path::all_valid(e.path)) by {
                crate::memfs::lemma_node_path_valid(Seq::empty(), p1);
            }
            assert(crate::memfs::is_dir_at(rd.main, e.path.drop_last())) by {
                assert(e.path.drop_last() =~= Seq::<Seq<u8>>::empty());
            }
            lemma_push_entry(rd.main, e);
            if c2 != c1 {
                if has_path(main1, c2) {
                    assert(has_path(rd.main, c2));
                    assert(entry_at(main1, c2) == entry_at(rd.main, c2));
                    assert(spec_create(main1, c2, NodeType::Dir) == Err::<(), FsError>(
                        FsError::AlreadyExists,
                    ));
                } else {
                    assert(spec_create(main1, c2, NodeType::Dir) == Ok::<(), FsError>(()));
                }
            } else {
                assert(entry_at(main1, c2) == e);
                assert(spec_create(main1, c2, NodeType::Dir) == Err::<(), FsError>(
                    FsError::AlreadyExists,
                ));
            }
        } else {
            assert(main1 == rd.main);
            if has_path(main1, c2) {
                assert(spec_create(main1, c2, NodeType::Dir) == Err::<(), FsError>(
                    FsError::AlreadyExists,
                ));
            } else {
                assert(spec_create(main1, c2, NodeType::Dir) == Ok::<(), FsError>(()));
            }
        }
    }
    let rd3 = spec_mount_state(rd2, p2, f2);
    // the third attempt at the first path is a duplicate
    assert(mounted_at(rd3.mounts, p1)) by {
        assert(rd3.mounts == rd2.mounts.push(MountPointView { path: p2, fs: f2 }));
        assert(rd3.mounts[rd.mounts.len() as int].path == p1);
    }
}

/// Round trip of creation: a creation that succeeds below the
/// filesystem root leaves exactly the new node reachable at its path,
/// and a removal that then succeeds makes the path unreachable again.
pub proof fn lemma_create_remove_roundtrip(fs: Seq<EntryView>, p: Seq<Seq<u8>>, ty: NodeType)
    requires
        fs_wf(fs),
        crate::path::all_valid(p),
        p.len() > 0,
        spec_create(fs, p, ty) == Ok::<(), FsError>(()),
    ensures
        has_path(spec_create_state(fs, p, ty), p),
        entry_at(spec_create_state(fs, p, ty), p).ty == ty,
        spec_remove(spec_create_state(fs, p, ty), p) == Ok::<(), FsError>(()),
        !has_path(
            crate::memfs::spec_remove_state(spec_create_state(fs, p, ty), p),
            p,
        ),
{
    let e = new_entry(p, ty, Seq::empty());
    let g = spec_create_state(fs, p, ty);
    assert(g == fs.push(e));
    assert(crate::memfs::is_dir_at(fs, p.drop_last())) by {
        if p.len() == 1 {
            assert(p.drop_last() =~= Seq::<Seq<u8>>::empty());
        }
    }
    lemma_push_entry(fs, e);
    assert(entry_at(g, p) == e);
    // the new node has no children, so removing it succeeds
    assert(!crate::memfs::has_child(g, p)) by {
        if crate::memfs::has_child(g, p) {
            let k = choose|k: int|
                0 <= k < g.len() && g[k].path.len() == p.len() + 1 && g[k].path.take(
                    p.len() as int,
                ) == p;
            assert(crate::memfs::is_dir_at(g, g[k].path.drop_last()));
            assert(g[k].path.drop_last() =~= p);
            if k < fs.len() {
                assert(fs[k].path.take(p.len() as int) == p);
                assert(crate::memfs::is_dir_at(fs, fs[k].path.drop_last()));
                assert(fs[k].path.drop_last() =~= p);
                assert(has_path(fs, p));
                assert(false);
            } else {
                assert(g[k] == e);
                assert(e.path.len() == p.len() + 1);
                assert(false);
            }
        }
    }
    let i = crate::memfs::idx_of(g, p);
    assert(0 <= i < g.len() && g[i].path == p);
    assert(!crate::memfs::has_child(g, g[i].path));
    crate::memfs::lemma_remove_entry(g, i);
}

/// What a successful rename leaves behind: the destination carries the
/// old node, and — when the destination is not an ancestor of the
/// source — nothing is reachable at the source any more.
pub proof fn lemma_rename_effect(fs: Seq<EntryView>, sp: Seq<Seq<u8>>, dp: Seq<Seq<u8>>)
    requires
        fs_wf(fs),
        crate::path::all_valid(dp),
        sp != dp,
        spec_rename(fs, sp, dp) == Ok::<(), FsError>(()),
        !crate::memfs::under(sp, dp),
    ensures
        has_path(spec_rename_state(fs, sp, dp), dp),
        entry_at(spec_rename_state(fs, sp, dp), dp).ty == entry_at(fs, sp).ty,
        !has_path(spec_rename_state(fs, sp, dp), sp),
{
    let g = spec_rename_state(fs, sp, dp);
    assert(g == Seq::new(fs.len(), |i: int| crate::memfs::map_entry(fs[i], sp, dp)));
    assert(crate::memfs::is_dir_at(fs, dp.drop_last())) by {
        if dp.len() == 1 {
            assert(dp.drop_last() =~= Seq::<Seq<u8>>::empty());
        }
    }
    crate::memfs::lemma_rename_entries(fs, sp, dp);
    let i = crate::memfs::idx_of(fs, sp);
    assert(0 <= i < fs.len() && fs[i].path == sp);
    assert(crate::memfs::under(fs[i].path, sp)) by {
        assert(sp.take(sp.len() as int) =~= sp);
    }
    assert(g[i].path =~= dp) by {
        assert(sp.skip(sp.len() as int) =~= Seq::<Seq<u8>>::empty());
        assert(dp + sp.skip(sp.len() as int) =~= dp);
    }
    assert(has_path(g, dp));
    crate::memfs::lemma_entry_here(g, i);
    crate::memfs::lemma_entry_here(fs, i);
    assert(!has_path(g, sp)) by {
        if has_path(g, sp) {
            let k = choose|k: int| 0 <= k < g.len() && g[k].path == sp;
            if crate::memfs::under(fs[k].path, sp) {
                // a moved entry would put the destination above the source
                let s = fs[k].path.skip(sp.len() as int);
                assert(g[k].path == dp + s);
                assert((dp + s).take(dp.len() as int) =~= dp);
                assert(sp.take(dp.len() as int) == dp);
                assert(sp.len() >= dp.len());
                assert(crate::memfs::under(sp, dp));
                assert(false);
            } else {
                // an unmoved entry at the source would be the source itself
                assert(g[k] == fs[k]);
                assert(fs[k].path == sp);
                assert(sp.take(sp.len() as int) =~= sp);
                assert(crate::memfs::under(fs[k].path, sp));
                assert(false);
            }
        }
    }
}

} // verus!
