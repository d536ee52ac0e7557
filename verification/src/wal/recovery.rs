//! Recovery: edits from a log are made again, and become a commit in a packfile.

use vstd::prelude::*;

use crate::git::builder;
use crate::git::builder::{BuildError, CommitView, GitObjectToPack, ToPack};
use crate::git::pack;
use crate::git::pack::PackError;
use crate::git::pack_laws;
use crate::git::pack_writer;
use crate::git::pack_writer::{PackWriter, WriteError};
use crate::git::tree::TreeEntryMode;
use crate::maps::TextMap;
use crate::staging;
use crate::staging::{StagingError, StagingStore, StagingView};
use crate::text;
use crate::vfs::inode::{VfsError, VfsManager, VfsView};
use crate::wal::proto;
use crate::wal::proto::{EntryView, InodeType, PayloadView, WalEntry, WalPayload};

verus! {

/// Why an edit could not be made again.
#[derive(Debug, Clone, Copy, PartialEq, Eq, Structural)]
pub enum ReplayError {
    Vfs(VfsError),
    Staging(StagingError),
    /// The path leads to a node that was removed.
    NodeGone(u64),
}

/// The tree of nodes and the edits, while they are made again.
#[verifier::ext_equal]
pub struct ReplayView {
    pub vfs: VfsView,
    pub staging: StagingView,
}

/// A file that an edit is about: its node, and the blob that the edit starts from, where there
/// is one that was not edited yet.
#[verifier::ext_equal]
pub struct PendingView {
    pub node: u64,
    pub oid: Option<Seq<char>>,
}

/// The mode of a file that is created.
pub open spec fn created_mode(inode_type: i32) -> TreeEntryMode {
    match proto::inode_type_of(inode_type) {
        InodeType::ExecutableFile => TreeEntryMode::ExecutableFile,
        InodeType::Symlink => TreeEntryMode::Symlink,
        _ => TreeEntryMode::RegularFile,
    }
}

impl ReplayView {
    /// With a path that changed.
    pub open spec fn changed(self, path: Seq<char>) -> ReplayView {
        ReplayView { staging: self.staging.with_changed(path), ..self }
    }

    /// With a file at a path, an empty one; directories on the way are created.
    pub open spec fn file_made(self, path: Seq<char>, mode: TreeEntryMode) -> (
        ReplayView,
        Result<u64, VfsError>,
    ) {
        match self.vfs.parent_ensured(path) {
            (vfs, Err(e)) => (ReplayView { vfs, ..self }, Err(e)),
            (vfs, Ok((dir, name))) => match vfs.created(dir, name, mode) {
                (made, Err(e)) => (ReplayView { vfs: made, ..self }, Err(e)),
                (made, Ok(id)) => (
                    ReplayView { vfs: made, staging: self.staging.with(id, Seq::empty()) },
                    Ok(id),
                ),
            },
        }
    }

    /// The node that an edit is about, and the blob that it starts from.
    pub open spec fn pending(self, id: u64) -> Result<PendingView, ReplayError> {
        if !self.vfs.is_live(id) {
            Err(ReplayError::NodeGone(id))
        } else {
            let oid = self.vfs.node(id).oid;
            Ok(
                PendingView {
                    node: id,
                    oid: if !self.staging.staged.contains_key(id) && oid.len() > 0 {
                        Some(oid)
                    } else {
                        None
                    },
                },
            )
        }
    }

    /// With a directory at a path.
    pub open spec fn dir_made(self, path: Seq<char>) -> (ReplayView, Result<(), ReplayError>) {
        match self.vfs.parent_ensured(path) {
            (vfs, Err(e)) => (ReplayView { vfs, ..self }, Err(ReplayError::Vfs(e))),
            (vfs, Ok((dir, name))) => match vfs.made_dir(dir, name) {
                (made, Err(e)) => (ReplayView { vfs: made, ..self }, Err(ReplayError::Vfs(e))),
                (made, Ok(_)) => (ReplayView { vfs: made, ..self }, Ok(())),
            },
        }
    }

    /// Without what is at a path, where there is anything.
    pub open spec fn path_removed(self, path: Seq<char>) -> ReplayView {
        match self.vfs.path_looked_up(path) {
            (vfs, Err(_)) => ReplayView { vfs, ..self },
            (vfs, Ok(id)) => ReplayView {
                vfs: match vfs.parent_ensured(path) {
                    (next, Err(_)) => next,
                    (next, Ok((dir, name))) => next.removed(dir, name).0,
                },
                staging: self.staging.with_deleted(id),
            },
        }
    }

    /// With what is at one path at another, where that can be done.
    pub open spec fn path_renamed(self, from: Seq<char>, to: Seq<char>) -> ReplayView {
        match self.vfs.parent_ensured(from) {
            (vfs, Err(_)) => ReplayView { vfs, ..self },
            (vfs, Ok((from_dir, from_name))) => match vfs.parent_ensured(to) {
                (next, Err(_)) => ReplayView { vfs: next, ..self },
                (next, Ok((to_dir, to_name))) => match next.renamed(
                    from_dir,
                    from_name,
                    to_dir,
                    to_name,
                ) {
                    (after, Err(_)) => ReplayView { vfs: after, ..self },
                    (after, Ok(_)) => ReplayView {
                        vfs: after,
                        staging: self.staging.with_touched(from_dir).with_touched(to_dir),
                    },
                },
            },
        }
    }

    /// The first part of an edit: all of it, but for a file that is written to or cut off, which
    /// is only found. One that is written to and is not there is created.
    pub open spec fn begun(self, p: PayloadView) -> (
        ReplayView,
        Result<Option<PendingView>, ReplayError>,
    ) {
        match p {
            PayloadView::Header(_) => (self, Ok(None)),
            PayloadView::CreateFile { path, inode_type, mode } => match self.changed(
                path,
            ).file_made(path, created_mode(inode_type)) {
                (next, Err(e)) => (next, Err(ReplayError::Vfs(e))),
                (next, Ok(_)) => (next, Ok(None)),
            },
            PayloadView::Mkdir { path } => match self.changed(path).dir_made(path) {
                (next, Err(e)) => (next, Err(e)),
                (next, Ok(_)) => (next, Ok(None)),
            },
            PayloadView::Write { path, offset, data } => {
                let noted = self.changed(path);
                match noted.vfs.path_looked_up(path) {
                    (vfs, Ok(id)) => {
                        let next = ReplayView { vfs, ..noted };
                        match next.pending(id) {
                            Ok(file) => (next, Ok(Some(file))),
                            Err(e) => (next, Err(e)),
                        }
                    },
                    (vfs, Err(_)) => match (ReplayView { vfs, ..noted }).file_made(
                        path,
                        TreeEntryMode::RegularFile,
                    ) {
                        (next, Err(e)) => (next, Err(ReplayError::Vfs(e))),
                        (next, Ok(id)) => match next.pending(id) {
                            Ok(file) => (next, Ok(Some(file))),
                            Err(e) => (next, Err(e)),
                        },
                    },
                }
            },
            PayloadView::Truncate { path, new_size } => {
                let noted = self.changed(path);
                match noted.vfs.path_looked_up(path) {
                    (vfs, Err(_)) => (ReplayView { vfs, ..noted }, Ok(None)),
                    (vfs, Ok(id)) => {
                        let next = ReplayView { vfs, ..noted };
                        match next.pending(id) {
                            Ok(file) => (next, Ok(Some(file))),
                            Err(e) => (next, Err(e)),
                        }
                    },
                }
            },
            PayloadView::Remove { path } => (self.changed(path).path_removed(path), Ok(None)),
            PayloadView::Rename { from_path, to_path } => (
                self.changed(from_path).changed(to_path).path_renamed(from_path, to_path),
                Ok(None),
            ),
        }
    }

    /// The second part of an edit: writing to a file, or cutting it off, from what its blob
    /// holds, where that could be had.
    pub open spec fn finished(self, p: PayloadView, id: u64, base: Option<Seq<u8>>) -> (
        ReplayView,
        Result<(), ReplayError>,
    ) {
        match p {
            PayloadView::Write { path, offset, data } => if StagingView::can_write(
                offset,
                data.len(),
            ) {
                let now = staging::written(self.staging.base(id, base), offset as int, data);
                (
                    ReplayView {
                        vfs: self.vfs.resized(id, now.len() as u64),
                        staging: self.staging.with(id, now),
                    },
                    Ok(()),
                )
            } else {
                (self, Err(ReplayError::Staging(StagingError::TooLarge)))
            },
            PayloadView::Truncate { path, new_size } => if new_size <= isize::MAX {
                (
                    ReplayView {
                        vfs: self.vfs.resized(id, new_size),
                        staging: self.staging.with(
                            id,
                            staging::resized(self.staging.base(id, base), new_size as nat),
                        ),
                    },
                    Ok(()),
                )
            } else {
                (self, Err(ReplayError::Staging(StagingError::TooLarge)))
            },
            _ => (self, Ok(())),
        }
    }

    /// An edit, with the blobs that can be had.
    pub open spec fn replayed(self, p: PayloadView, blobs: Map<Seq<char>, Seq<u8>>) -> (
        ReplayView,
        Result<(), ReplayError>,
    ) {
        match self.begun(p) {
            (next, Err(e)) => (next, Err(e)),
            (next, Ok(None)) => (next, Ok(())),
            (next, Ok(Some(file))) => next.finished(
                p,
                file.node,
                match file.oid {
                    Some(oid) => if blobs.contains_key(oid) {
                        Some(blobs[oid])
                    } else {
                        None
                    },
                    None => None,
                },
            ),
        }
    }

    /// The edits of a log, one behind the other, up to the first that cannot be made.
    pub open spec fn replayed_from(
        self,
        entries: Seq<EntryView>,
        i: int,
        blobs: Map<Seq<char>, Seq<u8>>,
    ) -> (ReplayView, Result<(), ReplayError>)
        decreases entries.len() - i,
    {
        if i >= entries.len() {
            (self, Ok(()))
        } else {
            match entries[i].payload {
                None => self.replayed_from(entries, i + 1, blobs),
                Some(p) => match self.replayed(p, blobs) {
                    (next, Err(e)) => (next, Err(e)),
                    (next, Ok(_)) => next.replayed_from(entries, i + 1, blobs),
                },
            }
        }
    }
}

/// A file that an edit is about.
#[derive(Debug)]
pub struct PendingEdit {
    pub node_id: u64,
    /// The blob that the edit starts from, where there is one that was not edited yet.
    pub base_oid: Option<String>,
}

impl View for PendingEdit {
    type V = PendingView;

    open spec fn view(&self) -> PendingView {
        PendingView { node: self.node_id, oid: crate::git::engine::maybe(self.base_oid) }
    }
}

/// The state of a replay.
pub open spec fn replay_view(vfs: VfsView, staging: StagingView) -> ReplayView {
    ReplayView { vfs, staging }
}

/// The file of an edit that may not be there.
pub open spec fn pending_view(file: Option<PendingEdit>) -> Option<PendingView> {
    match file {
        Some(f) => Some(f@),
        None => None,
    }
}

fn make_file(path: &str, mode: TreeEntryMode, vfs: &mut VfsManager, staging: &mut StagingStore)
    -> (r: Result<u64, VfsError>)
    requires
        old(vfs).wf(),
        old(staging).wf(),
    ensures
        final(vfs).wf(),
        final(staging).wf(),
        (replay_view(final(vfs)@, final(staging)@), r) == replay_view(
            old(vfs)@,
            old(staging)@,
        ).file_made(path@, mode),
{
    let (parent_id, name) = match vfs.ensure_parent_dirs(path) {
        Ok(p) => p,
        Err(e) => {
            return Err(e);
        },
    };
    let node = match vfs.create_file(parent_id, name.as_str(), mode) {
        Ok(n) => n,
        Err(e) => {
            return Err(e);
        },
    };
    staging.create_file(node.id);
    Ok(node.id)
}

fn find_pending(id: u64, vfs: &VfsManager, staging: &StagingStore) -> (r: Result<
    PendingEdit,
    ReplayError,
>)
    requires
        vfs.wf(),
    ensures
        match r {
            Ok(file) => replay_view(vfs@, staging@).pending(id) == Ok::<_, ReplayError>(file@),
            Err(e) => replay_view(vfs@, staging@).pending(id) == Err::<PendingView, _>(e),
        },
{
    match vfs.get_node(id) {
        None => Err(ReplayError::NodeGone(id)),
        Some(node) => {
            let known = text::chars_of(node.oid.as_str()).len() > 0;
            let base_oid: Option<String> = if !staging.is_staged(id) && known {
                Some(node.oid)
            } else {
                None
            };
            Ok(PendingEdit { node_id: id, base_oid })
        },
    }
}

fn begin_remove(path: &str, vfs: &mut VfsManager, staging: &mut StagingStore)
    requires
        old(vfs).wf(),
        old(staging).wf(),
    ensures
        final(vfs).wf(),
        final(staging).wf(),
        replay_view(final(vfs)@, final(staging)@) == replay_view(
            old(vfs)@,
            old(staging)@,
        ).path_removed(path@),
{
    match vfs.lookup_path(path) {
        Ok(node_id) => {
            match vfs.ensure_parent_dirs(path) {
                Ok((parent_id, name)) => {
                    let _ = vfs.remove(parent_id, name.as_str());
                },
                Err(_) => {},
            }
            staging.mark_deleted(node_id);
        },
        Err(_) => {},
    }
}

fn begin_rename(
    from_path: &str,
    to_path: &str,
    vfs: &mut VfsManager,
    staging: &mut StagingStore,
)
    requires
        old(vfs).wf(),
        old(staging).wf(),
    ensures
        final(vfs).wf(),
        final(staging).wf(),
        replay_view(final(vfs)@, final(staging)@) == replay_view(
            old(vfs)@,
            old(staging)@,
        ).path_renamed(from_path@, to_path@),
{
    match vfs.ensure_parent_dirs(from_path) {
        Ok((from_parent, from_name)) => match vfs.ensure_parent_dirs(to_path) {
            Ok((to_parent, to_name)) => {
                let r = vfs.rename(
                    from_parent,
                    from_name.as_str(),
                    to_parent,
                    to_name.as_str(),
                );
                if r.is_ok() {
                    staging.mark_touched(from_parent);
                    staging.mark_touched(to_parent);
                }
            },
            Err(_) => {},
        },
        Err(_) => {},
    }
}

/// Makes the first part of an edit. Where the edit is about the bytes of a file, the file is
/// given, for `finish_edit` with what its blob holds.
pub fn begin_edit(payload: &WalPayload, vfs: &mut VfsManager, staging: &mut StagingStore) -> (r:
    Result<Option<PendingEdit>, ReplayError>)
    requires
        old(vfs).wf(),
        old(staging).wf(),
    ensures
        final(vfs).wf(),
        final(staging).wf(),
        ({
            let (next, file) = replay_view(old(vfs)@, old(staging)@).begun(payload@);
            &&& replay_view(final(vfs)@, final(staging)@) == next
            &&& match r {
                Ok(f) => file == Ok::<_, ReplayError>(pending_view(f)),
                Err(e) => file == Err::<Option<PendingView>, _>(e),
            }
        }),
{
    match payload {
        WalPayload::Header(_) => Ok(None),
        WalPayload::CreateFile(create) => {
            staging.record_changed_path(create.path.as_str());
            let mode = match create.inode_type() {
                InodeType::ExecutableFile => TreeEntryMode::ExecutableFile,
                InodeType::Symlink => TreeEntryMode::Symlink,
                _ => TreeEntryMode::RegularFile,
            };
            match make_file(create.path.as_str(), mode, vfs, staging) {
                Ok(_) => Ok(None),
                Err(e) => Err(ReplayError::Vfs(e)),
            }
        },
        WalPayload::Mkdir(mkdir) => {
            staging.record_changed_path(mkdir.path.as_str());
            let (parent_id, name) = match vfs.ensure_parent_dirs(mkdir.path.as_str()) {
                Ok(p) => p,
                Err(e) => {
                    return Err(ReplayError::Vfs(e));
                },
            };
            match vfs.mkdir(parent_id, name.as_str()) {
                Ok(_) => Ok(None),
                Err(e) => Err(ReplayError::Vfs(e)),
            }
        },
        WalPayload::Write(write) => {
            staging.record_changed_path(write.path.as_str());
            let node_id: u64 = match vfs.lookup_path(write.path.as_str()) {
                Ok(id) => id,
                Err(_) => match make_file(
                    write.path.as_str(),
                    TreeEntryMode::RegularFile,
                    vfs,
                    staging,
                ) {
                    Ok(id) => id,
                    Err(e) => {
                        return Err(ReplayError::Vfs(e));
                    },
                },
            };
            match find_pending(node_id, vfs, staging) {
                Ok(file) => Ok(Some(file)),
                Err(e) => Err(e),
            }
        },
        WalPayload::Truncate(trunc) => {
            staging.record_changed_path(trunc.path.as_str());
            match vfs.lookup_path(trunc.path.as_str()) {
                Ok(node_id) => match find_pending(node_id, vfs, staging) {
                    Ok(file) => Ok(Some(file)),
                    Err(e) => Err(e),
                },
                Err(_) => Ok(None),
            }
        },
        WalPayload::Remove(remove) => {
            staging.record_changed_path(remove.path.as_str());
            begin_remove(remove.path.as_str(), vfs, staging);
            Ok(None)
        },
        WalPayload::Rename(rename) => {
            staging.record_changed_path(rename.from_path.as_str());
            staging.record_changed_path(rename.to_path.as_str());
            begin_rename(rename.from_path.as_str(), rename.to_path.as_str(), vfs, staging);
            Ok(None)
        },
    }
}

/// Makes the second part of an edit, on the bytes of a file: from those of its blob, where the
/// edit starts from one and it could be had.
pub fn finish_edit(
    payload: &WalPayload,
    node_id: u64,
    base_data: Option<&[u8]>,
    vfs: &mut VfsManager,
    staging: &mut StagingStore,
) -> (r: Result<(), ReplayError>)
    requires
        old(vfs).wf(),
        old(staging).wf(),
    ensures
        final(vfs).wf(),
        final(staging).wf(),
        (replay_view(final(vfs)@, final(staging)@), r) == replay_view(
            old(vfs)@,
            old(staging)@,
        ).finished(payload@, node_id, staging::maybe(base_data)),
{
    match payload {
        WalPayload::Write(write) => match staging.write_at(
            node_id,
            write.offset,
            write.data.as_slice(),
            base_data,
        ) {
            Ok(new_len) => {
                vfs.update_file_size(node_id, new_len);
                Ok(())
            },
            Err(e) => Err(ReplayError::Staging(e)),
        },
        WalPayload::Truncate(trunc) => match staging.truncate(
            node_id,
            trunc.new_size,
            base_data,
        ) {
            Ok(_) => {
                vfs.update_file_size(node_id, trunc.new_size);
                Ok(())
            },
            Err(e) => Err(ReplayError::Staging(e)),
        },
        _ => Ok(()),
    }
}

/// Makes the edits of a log again, with the blobs that can be had. A file whose blob is not
/// among them is taken to be empty.
pub fn replay_wal_entries(
    entries: &[WalEntry],
    vfs: &mut VfsManager,
    staging: &mut StagingStore,
    blobs: &TextMap<Vec<u8>>,
) -> (r: Result<(), ReplayError>)
    requires
        old(vfs).wf(),
        old(staging).wf(),
        blobs.wf(),
    ensures
        final(vfs).wf(),
        final(staging).wf(),
        (replay_view(final(vfs)@, final(staging)@), r) == replay_view(
            old(vfs)@,
            old(staging)@,
        ).replayed_from(proto::entry_views(entries@), 0, blobs@),
{
    let ghost all = proto::entry_views(entries@);
    let ghost whole = replay_view(vfs@, staging@).replayed_from(all, 0, blobs@);
    let mut i: usize = 0;
    while i < entries.len()
        invariant
            vfs.wf(),
            staging.wf(),
            blobs.wf(),
            i <= entries@.len(),
            all == proto::entry_views(entries@),
            whole == replay_view(vfs@, staging@).replayed_from(all, i as int, blobs@),
            whole == replay_view(old(vfs)@, old(staging)@).replayed_from(all, 0, blobs@),
        decreases entries@.len() - i,
    {
        assert(all[i as int] == entries@[i as int]@);
        match &entries[i].payload {
            None => {},
            Some(payload) => match begin_edit(payload, vfs, staging) {
                Err(e) => {
                    return Err(e);
                },
                Ok(None) => {},
                Ok(Some(file)) => {
                    let base: Option<&[u8]> = match &file.base_oid {
                        Some(oid) => match blobs.get(oid.as_str()) {
                            Some(data) => Some(data.as_slice()),
                            None => None,
                        },
                        None => None,
                    };
                    match finish_edit(payload, file.node_id, base, vfs, staging) {
                        Ok(_) => {},
                        Err(e) => {
                            return Err(e);
                        },
                    }
                },
            },
        }
        i += 1;
    }
    Ok(())
}

/// Why nothing could be recovered.
#[derive(Debug, Clone, Copy, PartialEq, Eq, Structural)]
pub enum RecoverError {
    Replay(ReplayError),
    Build(BuildError),
    Write(WriteError),
    /// There are more objects than a packfile can hold.
    TooManyObjects,
}

/// A commit that was recovered, with its packfile.
pub struct RecoveredPackResult {
    pub commit_oid: String,
    pub root_tree_oid: String,
    pub pack_data: Vec<u8>,
    pub idx_data: Vec<u8>,
    pub pack_sha: String,
    pub objects: Vec<GitObjectToPack>,
}

impl RecoveredPackResult {
    /// The commit, without its packfile.
    pub open spec fn commit(&self) -> CommitView {
        CommitView {
            commit_oid: self.commit_oid@,
            root_tree_oid: self.root_tree_oid@,
            objects: pack_writer::objects_view(self.objects@),
        }
    }
}

/// Whether there are any edits.
pub open spec fn is_modified(s: StagingView) -> bool {
    s.staged_ids.len() > 0 || s.deleted.len() > 0 || s.changed.len() > 0
}

/// Whether a result is the commit of the edits with its packfile: nothing where there are no
/// edits, and the fault where the commit cannot be built or packed.
pub open spec fn is_built(
    before: ReplayView,
    after: VfsView,
    base_commit: Seq<char>,
    author: Seq<char>,
    message: Seq<char>,
    timestamp: u64,
    r: Result<Option<RecoveredPackResult>, RecoverError>,
) -> bool {
    if is_modified(before.staging) {
        let (next, built) = builder::commit_built(
            before.vfs,
            before.staging,
            base_commit,
            author,
            message,
            timestamp,
        );
        &&& after == next
        &&& match built {
            Err(e) => r == Err::<Option<RecoveredPackResult>, _>(RecoverError::Build(e)),
            Ok(c) => if c.objects.len() > u32::MAX {
                r == Err::<Option<RecoveredPackResult>, _>(RecoverError::TooManyObjects)
            } else {
                match pack_writer::write_fault(c.objects) {
                    Some(e) => r == Err::<Option<RecoveredPackResult>, _>(RecoverError::Write(e)),
                    None => is_recovered(r, c),
                }
            },
        }
    } else {
        r == Ok::<_, RecoverError>(None::<RecoveredPackResult>) && after == before.vfs
    }
}

/// Makes the commit of the edits, on top of a base commit, and its packfile with an index. There
/// is none where there are no edits. Every object of the commit can be read back from the
/// packfile.
pub fn build_pack_from_recovered_state(
    vfs: &mut VfsManager,
    staging: &StagingStore,
    base_commit_oid: &str,
    author: &str,
    commit_message: &str,
    timestamp: u64,
) -> (r: Result<Option<RecoveredPackResult>, RecoverError>)
    requires
        old(vfs).wf(),
        staging.wf(),
    ensures
        final(vfs).wf(),
        is_built(
            replay_view(old(vfs)@, staging@),
            final(vfs)@,
            base_commit_oid@,
            author@,
            commit_message@,
            timestamp,
            r,
        ),
{
    if !staging.has_modifications() {
        return Ok(None);
    }
    let built = match builder::rebuild_commit(
        vfs,
        staging,
        base_commit_oid,
        author,
        commit_message,
        timestamp,
    ) {
        Ok(c) => c,
        Err(e) => {
            return Err(RecoverError::Build(e));
        },
    };
    if built.objects.len() as u64 > u32::MAX as u64 {
        return Err(RecoverError::TooManyObjects);
    }
    assert forall|i: int| 0 <= i < built.objects@.len() implies (
    #[trigger] built.objects@[i]).oid@.len() > 0 by {
        assert(builder::is_named(built.objects@[i]@));
    }
    match PackWriter::create_pack_and_index_bytes(built.objects.as_slice()) {
        Ok((pack_data, idx_data, pack_sha)) => {
            proof {
                lemma_packed_back(built@.objects, pack_data@, idx_data@, pack_sha@);
            }
            Ok(
                Some(
                    RecoveredPackResult {
                        commit_oid: built.commit_oid,
                        root_tree_oid: built.root_tree_oid,
                        pack_data,
                        idx_data,
                        pack_sha,
                        objects: built.objects,
                    },
                ),
            )
        },
        Err(e) => Err(RecoverError::Write(e)),
    }
}

/// Whether a commit was recovered as this one, with a packfile from which every object of it is
/// read back.
pub open spec fn is_recovered(
    r: Result<Option<RecoveredPackResult>, RecoverError>,
    c: CommitView,
) -> bool {
    r matches Ok(Some(res)) && {
        &&& res.commit() == c
        &&& pack_writer::is_packed(c.objects, res.pack_data@, res.idx_data@, res.pack_sha@)
        &&& is_read_back(c.objects, res.pack_data@, res.idx_data@)
    }
}

/// Whether objects are read back from their packfile: all by unpacking it, and each through its
/// index.
pub open spec fn is_read_back(objects: Seq<ToPack>, pack: Seq<u8>, idx: Seq<u8>) -> bool {
    &&& pack::unpacked(pack) == Ok::<_, PackError>(pack_laws::by_name(objects))
    &&& pack_writer::packing(objects) matches Ok(p) && forall|i: int|
        0 <= i < objects.len() ==> pack_laws::found_again(
            pack,
            idx,
            p.entries[i],
            #[trigger] objects[i],
        )
}

/// Objects that have their names are read back from their packfile.
pub proof fn lemma_packed_back(
    objects: Seq<ToPack>,
    pack: Seq<u8>,
    idx: Seq<u8>,
    sha_hex: Seq<char>,
)
    requires
        pack_writer::is_packed(objects, pack, idx, sha_hex),
        forall|i: int| 0 <= i < objects.len() ==> builder::is_named(#[trigger] objects[i]),
    ensures
        is_read_back(objects, pack, idx),
{
    let p = pack_writer::packing(objects)->Ok_0;
    assert(pack_laws::all_base(objects));
    pack_laws::lemma_packing_names(objects);
    assert(pack_laws::indexable(p.entries));
}

} // verus!
