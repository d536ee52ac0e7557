//! The operations of the file system: on the tree of nodes and the edits, with what is to be
//! logged of each edit. Where an operation needs a blob that has to be fetched, it comes in two
//! parts, and the second is given the blob.

use vstd::prelude::*;

use crate::bytes;
use crate::git::engine::{EngineView, GitEngine};
use crate::git::tree::TreeEntryMode;
use crate::staging;
use crate::staging::{StagingStore, StagingView};
use crate::text;
use crate::vfs::filter;
use crate::vfs::inode;
use crate::vfs::inode::{NodeView, VfsManager, VfsNode, VfsView, ROOT_INODE};
use crate::wal::proto::{
    CreateFileMutation, MkdirMutation, PayloadView, RemoveMutation, RenameMutation,
    TruncateMutation, WalPayload, WriteMutation,
};
use crate::wal::recovery;
use crate::wal::recovery::{RecoverError, RecoveredPackResult, ReplayView};

verus! {

/// Why an operation was refused.
#[derive(Debug, Clone, Copy, PartialEq, Eq, Structural)]
pub enum NfsStatus {
    /// There is no such file or directory.
    NoEnt,
    /// The operation failed on the way to the data.
    Io,
    /// It is a directory.
    IsDir,
    /// It is no directory.
    NotDir,
    /// It is no symbolic link.
    Inval,
    /// That cannot be created here.
    ReadOnly,
}

#[derive(Debug, Clone, Copy, PartialEq, Eq, Structural)]
pub enum FileType {
    Directory,
    Symlink,
    Regular,
}

/// The attributes of a file. All its times are the time at which the file system came up.
#[derive(Debug, Clone, Copy, PartialEq, Eq, Structural)]
pub struct FileAttr {
    pub ftype: FileType,
    pub mode: u32,
    pub nlink: u32,
    pub uid: u32,
    pub gid: u32,
    pub size: u64,
    pub used: u64,
    pub fileid: u64,
    pub seconds: u32,
}

/// The file system.
#[verifier::ext_equal]
pub struct FsView {
    pub vfs: VfsView,
    pub staging: StagingView,
    pub uid: u32,
    pub gid: u32,
    pub epoch: u32,
    /// When the last edit was made.
    pub last_mutation: u64,
    /// Whether there are edits that are in no commit yet.
    pub uncommitted: bool,
}

/// The attributes of a node, with a size.
pub open spec fn attr_of(node: NodeView, size: u64, uid: u32, gid: u32, epoch: u32) -> FileAttr {
    FileAttr {
        ftype: if node.is_dir {
            FileType::Directory
        } else if node.mode == TreeEntryMode::Symlink {
            FileType::Symlink
        } else {
            FileType::Regular
        },
        mode: node.mode.posix() & 0o777,
        nlink: if node.is_dir {
            2
        } else {
            1
        },
        uid,
        gid,
        size,
        used: size,
        fileid: node.id,
        seconds: epoch,
    }
}

impl FsView {
    /// With the repository in another state.
    pub open spec fn with_engine(self, engine: EngineView) -> FsView {
        FsView { vfs: VfsView { engine, ..self.vfs }, ..self }
    }

    /// Whether a node is there: it is live, and not among the edits as removed.
    pub open spec fn is_there(self, id: u64) -> bool {
        !self.staging.deleted.contains(id) && self.vfs.is_live(id)
    }

    /// The attributes of a node. Its size is that of its edited contents, or else that of its
    /// blob where that is known, or else what the node shows.
    pub open spec fn attr(self, id: u64) -> (FsView, FileAttr) {
        let node = self.vfs.node(id);
        if self.staging.staged.contains_key(id) {
            (
                self,
                attr_of(
                    node,
                    self.staging.staged[id].len() as u64,
                    self.uid,
                    self.gid,
                    self.epoch,
                ),
            )
        } else {
            (
                self.with_engine(self.vfs.engine.asked(node.oid)),
                attr_of(
                    node,
                    match self.vfs.engine.known_size(node.oid) {
                        Some(len) => len,
                        None => node.size,
                    },
                    self.uid,
                    self.gid,
                    self.epoch,
                ),
            )
        }
    }

    /// The attributes of a node, as a result.
    pub open spec fn attr_given(self, id: u64) -> (FsView, Result<FileAttr, NfsStatus>) {
        let (next, attr) = self.attr(id);
        (next, Ok(attr))
    }

    /// With a path that was edited at a time.
    pub open spec fn edited(self, path: Seq<char>, now: u64) -> FsView {
        FsView {
            staging: self.staging.with_changed(path),
            last_mutation: now,
            uncommitted: true,
            ..self
        }
    }

    /// With the size of a file.
    pub open spec fn resized(self, id: u64, size: u64) -> FsView {
        FsView { vfs: self.vfs.resized(id, size), ..self }
    }

    /// The blob that an edit of a file starts from, where there is one that was not edited yet.
    pub open spec fn base_wanted(self, id: u64) -> Option<Seq<char>> {
        let oid = self.vfs.node(id).oid;
        if self.staging.staged.contains_key(id) || oid.len() == 0 {
            None
        } else {
            Some(oid)
        }
    }

    /// Looking a name up. Names of macOS metadata are answered at once: there is no such file.
    pub open spec fn found(self, dir: u64, name: Seq<char>) -> (FsView, Result<u64, NfsStatus>) {
        if filter::apple_metadata(name) {
            (self, Err(NfsStatus::NoEnt))
        } else {
            let (vfs, r) = self.vfs.looked_up(dir, name);
            (
                FsView { vfs, ..self },
                match r {
                    Ok(id) => if self.staging.deleted.contains(id) {
                        Err(NfsStatus::NoEnt)
                    } else {
                        Ok(id)
                    },
                    Err(_) => Err(NfsStatus::NoEnt),
                },
            )
        }
    }

    /// Asking for attributes: given at once, or once a blob was fetched.
    pub open spec fn attr_asked(self, id: u64) -> (FsView, StepView<FileAttr>) {
        if !self.is_there(id) {
            (self, StepView::Done(Err(NfsStatus::NoEnt)))
        } else {
            let node = self.vfs.node(id);
            if node.is_dir || self.staging.staged.contains_key(id) || node.oid.len() == 0 {
                let (next, attr) = self.attr(id);
                (next, StepView::Done(Ok(attr)))
            } else {
                let asked = self.with_engine(self.vfs.engine.asked(node.oid));
                match self.vfs.engine.known_size(node.oid) {
                    Some(len) => {
                        let (next, attr) = asked.resized(id, len).attr(id);
                        (next, StepView::Done(Ok(attr)))
                    },
                    None => (asked, StepView::Fetch(node.oid)),
                }
            }
        }
    }

    /// The attributes, once the blob was fetched or could not be.
    pub open spec fn attr_fetched(self, id: u64, len: Option<u64>) -> (
        FsView,
        Result<FileAttr, NfsStatus>,
    ) {
        match len {
            Some(len) => self.resized(id, len).attr_given(id),
            None => self.attr_given(id),
        }
    }

    /// Starting to write to a file: it has to be there, and no directory.
    pub open spec fn write_asked(self, id: u64) -> Result<Option<Seq<char>>, NfsStatus> {
        if !self.is_there(id) {
            Err(NfsStatus::NoEnt)
        } else if self.vfs.node(id).is_dir {
            Err(NfsStatus::IsDir)
        } else {
            Ok(self.base_wanted(id))
        }
    }

    /// Once the contents of a file were edited: the path is noted, and what is to be logged.
    pub open spec fn noted(self, id: u64, now: u64) -> (FsView, Option<Seq<char>>) {
        match self.vfs.path_of(id) {
            Ok(path) => (self.edited(path, now), Some(path)),
            Err(_) => (self, None),
        }
    }

    /// Writing to a file.
    pub open spec fn written(
        self,
        id: u64,
        offset: u64,
        data: Seq<u8>,
        base: Option<Seq<u8>>,
        now: u64,
    ) -> (FsView, Result<(FileAttr, Option<PayloadView>), NfsStatus>) {
        if StagingView::can_write(offset, data.len()) {
            let contents = staging::written(self.staging.base(id, base), offset as int, data);
            let wrote = FsView {
                staging: self.staging.with(id, contents),
                ..self
            }.resized(id, contents.len() as u64);
            let (noted, path) = wrote.noted(id, now);
            let (next, attr) = noted.attr(id);
            (
                next,
                Ok(
                    (
                        attr,
                        match path {
                            Some(path) => Some(PayloadView::Write { path, offset, data }),
                            None => None,
                        },
                    ),
                ),
            )
        } else {
            (self, Err(NfsStatus::Io))
        }
    }

    /// Cutting a file off, or filling it up.
    pub open spec fn truncated(self, id: u64, new_size: u64, base: Option<Seq<u8>>, now: u64) -> (
        FsView,
        Result<(FileAttr, Option<PayloadView>), NfsStatus>,
    ) {
        if new_size <= isize::MAX {
            let contents = staging::resized(self.staging.base(id, base), new_size as nat);
            let cut = FsView {
                staging: self.staging.with(id, contents),
                ..self
            }.resized(id, new_size);
            let (noted, path) = cut.noted(id, now);
            let (next, attr) = noted.attr(id);
            (
                next,
                Ok(
                    (
                        attr,
                        match path {
                            Some(path) => Some(PayloadView::Truncate { path, new_size }),
                            None => None,
                        },
                    ),
                ),
            )
        } else {
            (self, Err(NfsStatus::Io))
        }
    }

    /// Creating a file.
    pub open spec fn created(self, dir: u64, name: Seq<char>, now: u64) -> (
        FsView,
        Result<(u64, Seq<char>), NfsStatus>,
    ) {
        match self.vfs.created(dir, name, TreeEntryMode::RegularFile) {
            (vfs, Err(_)) => (FsView { vfs, ..self }, Err(NfsStatus::Io)),
            (vfs, Ok(id)) => {
                let path = vfs.path_in(dir, name);
                (
                    FsView {
                        vfs,
                        staging: self.staging.with(id, Seq::empty()),
                        ..self
                    }.edited(path, now),
                    Ok((id, path)),
                )
            },
        }
    }

    /// Creating a directory.
    pub open spec fn made_dir(self, dir: u64, name: Seq<char>, now: u64) -> (
        FsView,
        Result<(u64, Seq<char>), NfsStatus>,
    ) {
        match self.vfs.made_dir(dir, name) {
            (vfs, Err(_)) => (FsView { vfs, ..self }, Err(NfsStatus::Io)),
            (vfs, Ok(id)) => {
                let path = vfs.path_in(dir, name);
                (FsView { vfs, ..self }.edited(path, now), Ok((id, path)))
            },
        }
    }

    /// Removing a file or directory.
    pub open spec fn removed(self, dir: u64, name: Seq<char>, now: u64) -> (
        FsView,
        Result<Seq<char>, NfsStatus>,
    ) {
        match self.vfs.removed(dir, name) {
            (vfs, Err(_)) => (FsView { vfs, ..self }, Err(NfsStatus::NoEnt)),
            (vfs, Ok(id)) => {
                let path = vfs.path_in(dir, name);
                (
                    FsView {
                        vfs,
                        staging: self.staging.with_deleted(id),
                        ..self
                    }.edited(path, now),
                    Ok(path),
                )
            },
        }
    }

    /// Renaming a file or directory.
    pub open spec fn renamed(
        self,
        from_dir: u64,
        from_name: Seq<char>,
        to_dir: u64,
        to_name: Seq<char>,
        now: u64,
    ) -> (FsView, Result<(Seq<char>, Seq<char>), NfsStatus>) {
        let from_path = self.vfs.path_in(from_dir, from_name);
        let to_path = self.vfs.path_in(to_dir, to_name);
        match self.vfs.renamed(from_dir, from_name, to_dir, to_name) {
            (vfs, Err(_)) => (FsView { vfs, ..self }, Err(NfsStatus::Io)),
            (vfs, Ok(_)) => (
                FsView {
                    vfs,
                    staging: self.staging.with_touched(from_dir).with_touched(to_dir),
                    ..self
                }.edited(from_path, now).edited(to_path, now),
                Ok((from_path, to_path)),
            ),
        }
    }

    /// Starting to read from a file: from its edited contents, or once its blob was fetched. A
    /// blob that is neither in memory nor on disk is fetched with the others of its directory.
    pub open spec fn read_asked(self, id: u64, offset: u64, count: u32) -> (FsView, ReadView) {
        if !self.is_there(id) {
            (self, ReadView::Done(Err(NfsStatus::NoEnt)))
        } else {
            let node = self.vfs.node(id);
            if node.is_dir {
                (self, ReadView::Done(Err(NfsStatus::IsDir)))
            } else if self.staging.staged.contains_key(id) {
                (
                    self,
                    ReadView::Done(
                        Ok(
                            staging::read_from(
                                self.staging.staged[id],
                                offset as int,
                                count as int,
                            ),
                        ),
                    ),
                )
            } else if node.oid.len() == 0 {
                (self, ReadView::Done(Ok((Seq::empty(), true))))
            } else {
                let absent = self.vfs.engine.cache.lookup(node.oid) is None
                    && !self.vfs.engine.disk.sizes.contains_key(node.oid);
                (
                    self.with_engine(self.vfs.engine.asked(node.oid)),
                    ReadView::Fetch {
                        oid: node.oid,
                        prefetch: if absent && self.vfs.is_live(node.parent) {
                            Some(self.vfs.node(node.parent).oid)
                        } else {
                            None
                        },
                    },
                )
            }
        }
    }

    /// Reading from a file, once its blob was fetched or could not be.
    pub open spec fn read_fetched(
        self,
        id: u64,
        offset: u64,
        count: u32,
        blob: Option<Seq<u8>>,
    ) -> (FsView, Result<(Seq<u8>, bool), NfsStatus>) {
        match blob {
            None => (self, Err(NfsStatus::Io)),
            Some(data) => (
                self.resized(id, data.len() as u64),
                Ok(staging::read_from(data, offset as int, count as int)),
            ),
        }
    }

    /// An entry of a directory: with the attributes of a node.
    pub open spec fn entry(self, fileid: u64, name: Seq<u8>, id: u64) -> (FsView, EntryView) {
        let (next, attr) = self.attr(id);
        (next, EntryView { fileid, name, attr })
    }

    /// The entries of nodes that were not removed, behind others.
    pub open spec fn entries(self, nodes: Seq<NodeView>, before: Seq<EntryView>) -> (
        FsView,
        Seq<EntryView>,
    )
        decreases nodes.len(),
    {
        if nodes.len() == 0 {
            (self, before)
        } else {
            let (next, listed) = self.entries(nodes.drop_last(), before);
            let node = nodes.last();
            if self.staging.deleted.contains(node.id) {
                (next, listed)
            } else {
                let (after, entry) = next.entry(
                    node.id,
                    vstd::utf8::encode_utf8(node.name),
                    node.id,
                );
                (after, listed.push(entry))
            }
        }
    }

    /// All entries of a directory: itself, its parent and its children.
    pub open spec fn all_entries(self, dir: u64) -> (FsView, Seq<EntryView>) {
        let node = self.vfs.node(dir);
        let (first, this) = self.entry(dir, seq![46u8], dir);
        let (second, up) = first.entry(
            node.parent,
            seq![46u8, 46],
            if self.vfs.is_live(node.parent) {
                node.parent
            } else {
                dir
            },
        );
        second.entries(self.vfs.listed(dir), seq![this, up])
    }

    /// Listing a directory from behind an entry on.
    pub open spec fn dir_read(self, dir: u64, start_after: u64, max_entries: usize) -> (
        FsView,
        Result<PageView, NfsStatus>,
    ) {
        if !self.vfs.is_live(dir) {
            (self, Err(NfsStatus::NoEnt))
        } else if !self.vfs.node(dir).is_dir {
            (self, Err(NfsStatus::NotDir))
        } else {
            match self.vfs.opened(dir) {
                Err(_) => (self, Err(NfsStatus::Io)),
                Ok(vfs) => {
                    let (next, all) = FsView { vfs, ..self }.all_entries(dir);
                    let from = if start_after == 0 {
                        0
                    } else {
                        place_behind(all, start_after, 0)
                    };
                    let to = if from + max_entries < all.len() {
                        from + max_entries
                    } else {
                        all.len() as int
                    };
                    (
                        next,
                        Ok(
                            PageView {
                                entries: all.subrange(from, to),
                                end: to >= all.len(),
                                prefetch: if start_after == 0 {
                                    Some(vfs.node(dir).oid)
                                } else {
                                    None
                                },
                            },
                        ),
                    )
                },
            }
        }
    }
}

/// The place behind the first entry of a number from `i` on; the start where there is none.
pub open spec fn place_behind(entries: Seq<EntryView>, fileid: u64, i: int) -> int
    decreases entries.len() - i,
{
    if i >= entries.len() {
        0
    } else if entries[i].fileid == fileid {
        i + 1
    } else {
        place_behind(entries, fileid, i + 1)
    }
}

/// An operation that is done, or waits for a blob.
pub enum StepView<T> {
    Done(Result<T, NfsStatus>),
    Fetch(Seq<char>),
}

/// A read that is done, or waits for a blob; before it is fetched, the blobs of a directory are.
pub enum ReadView {
    Done(Result<(Seq<u8>, bool), NfsStatus>),
    Fetch { oid: Seq<char>, prefetch: Option<Seq<char>> },
}

/// An entry of a directory.
#[verifier::ext_equal]
pub struct EntryView {
    pub fileid: u64,
    pub name: Seq<u8>,
    pub attr: FileAttr,
}

/// A part of the entries of a directory, whether it reaches their end, and the directory whose
/// blobs are worth fetching in the background.
#[verifier::ext_equal]
pub struct PageView {
    pub entries: Seq<EntryView>,
    pub end: bool,
    pub prefetch: Option<Seq<char>>,
}

#[derive(Debug)]
pub enum AttrStep {
    Done(Result<FileAttr, NfsStatus>),
    Fetch(String),
}

impl View for AttrStep {
    type V = StepView<FileAttr>;

    open spec fn view(&self) -> StepView<FileAttr> {
        match self {
            AttrStep::Done(r) => StepView::Done(*r),
            AttrStep::Fetch(oid) => StepView::Fetch(oid@),
        }
    }
}

#[derive(Debug)]
pub enum ReadStep {
    Done(Result<(Vec<u8>, bool), NfsStatus>),
    Fetch { oid: String, prefetch: Option<String> },
}

impl View for ReadStep {
    type V = ReadView;

    open spec fn view(&self) -> ReadView {
        match self {
            ReadStep::Done(Ok((data, eof))) => ReadView::Done(Ok((data@, *eof))),
            ReadStep::Done(Err(e)) => ReadView::Done(Err(*e)),
            ReadStep::Fetch { oid, prefetch } => ReadView::Fetch {
                oid: oid@,
                prefetch: crate::git::engine::maybe(*prefetch),
            },
        }
    }
}

#[derive(Debug)]
pub struct DirEntry {
    pub fileid: u64,
    pub name: Vec<u8>,
    pub attr: FileAttr,
}

impl View for DirEntry {
    type V = EntryView;

    open spec fn view(&self) -> EntryView {
        EntryView { fileid: self.fileid, name: self.name@, attr: self.attr }
    }
}

/// The views of entries.
pub open spec fn entry_views(entries: Seq<DirEntry>) -> Seq<EntryView> {
    entries.map_values(|e: DirEntry| e@)
}

#[derive(Debug)]
pub struct DirPage {
    pub entries: Vec<DirEntry>,
    pub end: bool,
    pub prefetch: Option<String>,
}

impl View for DirPage {
    type V = PageView;

    open spec fn view(&self) -> PageView {
        PageView {
            entries: entry_views(self.entries@),
            end: self.end,
            prefetch: crate::git::engine::maybe(self.prefetch),
        }
    }
}

/// The payload that may be logged.
pub open spec fn logged(p: Option<WalPayload>) -> Option<PayloadView> {
    match p {
        Some(p) => Some(p@),
        None => None,
    }
}

pub struct GitNfsFileSystem {
    vfs: VfsManager,
    staging: StagingStore,
    uid: u32,
    gid: u32,
    epoch_seconds: u32,
    last_mutation_time: u64,
    has_uncommitted_changes: bool,
}

impl View for GitNfsFileSystem {
    type V = FsView;

    closed spec fn view(&self) -> FsView {
        FsView {
            vfs: self.vfs@,
            staging: self.staging@,
            uid: self.uid,
            gid: self.gid,
            epoch: self.epoch_seconds,
            last_mutation: self.last_mutation_time,
            uncommitted: self.has_uncommitted_changes,
        }
    }
}

impl GitNfsFileSystem {
    pub closed spec fn wf(&self) -> bool {
        self.vfs.wf() && self.staging.wf()
    }

    /// The file system of a tree and edits, for a user, from a time in seconds on.
    pub fn new(vfs: VfsManager, staging: StagingStore, uid: u32, gid: u32, epoch_seconds: u32) -> (
        fs: Self)
        requires
            vfs.wf(),
            staging.wf(),
        ensures
            fs.wf(),
            fs@ == (FsView {
                vfs: vfs@,
                staging: staging@,
                uid,
                gid,
                epoch: epoch_seconds,
                last_mutation: 0,
                uncommitted: false,
            }),
    {
        GitNfsFileSystem {
            vfs,
            staging,
            uid,
            gid,
            epoch_seconds,
            last_mutation_time: 0,
            has_uncommitted_changes: false,
        }
    }

    pub fn vfs(&self) -> (vfs: &VfsManager)
        requires
            self.wf(),
        ensures
            vfs.wf(),
            vfs@ == self@.vfs,
    {
        &self.vfs
    }

    pub fn staging(&self) -> (staging: &StagingStore)
        requires
            self.wf(),
        ensures
            staging.wf(),
            staging@ == self@.staging,
    {
        &self.staging
    }

    /// Lends the repository, to be read from.
    pub fn engine_mut(&mut self) -> (engine: &mut GitEngine)
        requires
            old(self).wf(),
        ensures
            engine@ == old(self)@.vfs.engine,
            engine.wf(),
            final(engine).wf() ==> final(self).wf() && final(self)@ == old(self)@.with_engine(
                final(engine)@,
            ),
    {
        self.vfs.engine_mut()
    }

    pub fn root_dir(&self) -> (id: u64)
        ensures
            id == ROOT_INODE,
    {
        ROOT_INODE
    }

    pub fn last_mutation_time(&self) -> (seconds: u64)
        ensures
            seconds == self@.last_mutation,
    {
        self.last_mutation_time
    }

    pub fn has_uncommitted_changes(&self) -> (r: bool)
        ensures
            r == self@.uncommitted,
    {
        self.has_uncommitted_changes
    }

    fn record_mutation(&mut self, path: &str, now: u64)
        requires
            old(self).wf(),
        ensures
            final(self).wf(),
            final(self)@ == old(self)@.edited(path@, now),
    {
        self.staging.record_changed_path(path);
        self.last_mutation_time = now;
        self.has_uncommitted_changes = true;
    }

    fn resize(&mut self, id: u64, size: u64)
        requires
            old(self).wf(),
        ensures
            final(self).wf(),
            final(self)@ == old(self)@.resized(id, size),
    {
        self.vfs.update_file_size(id, size);
    }

    fn known_size(&mut self, oid: &str) -> (r: Option<u64>)
        requires
            old(self).wf(),
        ensures
            final(self).wf(),
            final(self)@ == old(self)@.with_engine(old(self)@.vfs.engine.asked(oid@)),
            r == old(self)@.vfs.engine.known_size(oid@),
    {
        let r = self.vfs.engine_mut().known_size(oid);
        r
    }

    /// The attributes of a node, whether it was removed or not.
    fn node_to_fattr3(&mut self, node: &VfsNode) -> (attr: FileAttr)
        requires
            old(self).wf(),
            old(self)@.vfs.has(node@.id),
            node@ == old(self)@.vfs.node(node@.id),
        ensures
            final(self).wf(),
            (final(self)@, attr) == old(self)@.attr(node@.id),
    {
        let ftype = if node.is_dir {
            FileType::Directory
        } else if node.mode.is_symlink() {
            FileType::Symlink
        } else {
            FileType::Regular
        };
        let size: u64 = match self.staging.get_size(node.id) {
            Some(len) => len,
            None => match self.known_size(node.oid.as_str()) {
                Some(len) => len,
                None => node.size,
            },
        };
        FileAttr {
            ftype,
            mode: node.mode.posix_mode() & 0o777,
            nlink: if node.is_dir {
                2
            } else {
                1
            },
            uid: self.uid,
            gid: self.gid,
            size,
            used: size,
            fileid: node.id,
            seconds: self.epoch_seconds,
        }
    }

    /// The node of that number where it is there.
    fn there(&self, id: u64) -> (r: Option<VfsNode>)
        requires
            self.wf(),
        ensures
            match r {
                Some(node) => self@.is_there(id) && node@ == self@.vfs.node(id) && node@.id == id,
                None => !self@.is_there(id),
            },
    {
        proof {
            self.vfs.lemma_wf();
            if self.vfs@.has(id) {
                assert(self.vfs@.node_ok(id - 1));
            }
        }
        if self.staging.is_deleted(id) {
            return None;
        }
        self.vfs.get_node(id)
    }

    fn attr(&mut self, id: u64) -> (attr: FileAttr)
        requires
            old(self).wf(),
            old(self)@.vfs.has(id),
        ensures
            final(self).wf(),
            (final(self)@, attr) == old(self)@.attr(id),
    {
        let node = self.vfs.any_node(id);
        proof {
            self.vfs.lemma_wf();
            assert(self.vfs@.node_ok(id - 1));
        }
        self.node_to_fattr3(&node)
    }

    fn is_oid(oid: &str) -> (r: bool)
        ensures
            r == (oid@.len() > 0),
    {
        text::chars_of(oid).len() > 0
    }

    pub fn lookup(&mut self, dirid: u64, filename: &[u8]) -> (r: Result<u64, NfsStatus>)
        requires
            old(self).wf(),
        ensures
            final(self).wf(),
            (final(self)@, r) == old(self)@.found(dirid, text::lossy(filename@)),
            filter::apple_metadata(text::lossy(filename@)) ==> r == Err::<u64, _>(
                NfsStatus::NoEnt,
            ) && final(self)@ == old(self)@,
    {
        let name = text::from_utf8_lossy(filename);
        if filter::is_apple_metadata(name.as_str()) {
            return Err(NfsStatus::NoEnt);
        }
        match self.vfs.lookup(dirid, name.as_str()) {
            Ok(id) => if self.staging.is_deleted(id) {
                Err(NfsStatus::NoEnt)
            } else {
                Ok(id)
            },
            Err(_) => Err(NfsStatus::NoEnt),
        }
    }

    /// The attributes of a file, or the blob that has to be fetched to know its size.
    pub fn getattr(&mut self, id: u64) -> (step: AttrStep)
        requires
            old(self).wf(),
        ensures
            final(self).wf(),
            (final(self)@, step@) == old(self)@.attr_asked(id),
    {
        let node = match self.there(id) {
            Some(n) => n,
            None => {
                return AttrStep::Done(Err(NfsStatus::NoEnt));
            },
        };
        if !node.is_dir && !self.staging.is_staged(id) && Self::is_oid(node.oid.as_str()) {
            match self.known_size(node.oid.as_str()) {
                Some(len) => {
                    self.resize(id, len);
                },
                None => {
                    return AttrStep::Fetch(node.oid);
                },
            }
        }
        AttrStep::Done(Ok(self.attr(id)))
    }

    /// The attributes of a file, with the length of its blob, where that could be fetched.
    pub fn getattr_fetched(&mut self, id: u64, len: Option<u64>) -> (r: Result<
        FileAttr,
        NfsStatus,
    >)
        requires
            old(self).wf(),
            old(self)@.vfs.has(id),
        ensures
            final(self).wf(),
            (final(self)@, r) == old(self)@.attr_fetched(id, len),
    {
        match len {
            Some(n) => {
                self.resize(id, n);
            },
            None => {},
        }
        Ok(self.attr(id))
    }

    /// Sets attributes, of which only the size counts: gives the attributes where none is set,
    /// and otherwise the blob that the file starts from, for `setattr_size`.
    pub fn setattr(&mut self, id: u64, size: Option<u64>) -> (r: Result<SetAttr, NfsStatus>)
        requires
            old(self).wf(),
        ensures
            final(self).wf(),
            match size {
                None => match r {
                    Ok(SetAttr::Done(attr)) => old(self)@.is_there(id) && (final(self)@, attr)
                        == old(self)@.attr(id),
                    Ok(_) => false,
                    Err(e) => !old(self)@.is_there(id) && e == NfsStatus::NoEnt && final(self)@
                        == old(self)@,
                },
                Some(_) => final(self)@ == old(self)@ && match r {
                    Ok(SetAttr::Resize(oid)) => old(self)@.write_asked(id) == Ok::<_, NfsStatus>(
                        crate::git::engine::maybe(oid),
                    ),
                    Ok(_) => false,
                    Err(e) => old(self)@.write_asked(id) == Err::<Option<Seq<char>>, _>(e),
                },
            },
    {
        match size {
            None => match self.there(id) {
                Some(_) => Ok(SetAttr::Done(self.attr(id))),
                None => Err(NfsStatus::NoEnt),
            },
            Some(_) => match self.write(id) {
                Ok(oid) => Ok(SetAttr::Resize(oid)),
                Err(e) => Err(e),
            },
        }
    }

    /// Cuts a file off at a size, or fills it up, from what its blob holds, where that could be
    /// had. Gives the attributes, and what is to be logged.
    pub fn setattr_size(&mut self, id: u64, new_size: u64, base_data: Option<&[u8]>, now: u64) -> (
        r: Result<(FileAttr, Option<WalPayload>), NfsStatus>)
        requires
            old(self).wf(),
            old(self)@.vfs.has(id),
        ensures
            final(self).wf(),
            ({
                let (next, done) = old(self)@.truncated(
                    id,
                    new_size,
                    staging::maybe(base_data),
                    now,
                );
                &&& final(self)@ == next
                &&& match r {
                    Ok((attr, payload)) => done == Ok::<_, NfsStatus>((attr, logged(payload))),
                    Err(e) => done == Err::<(FileAttr, Option<PayloadView>), _>(e),
                }
            }),
    {
        match self.staging.truncate(id, new_size, base_data) {
            Ok(_) => {},
            Err(_) => {
                return Err(NfsStatus::Io);
            },
        }
        self.resize(id, new_size);
        let payload: Option<WalPayload> = match self.vfs.get_path(id) {
            Ok(path) => {
                self.record_mutation(path.as_str(), now);
                Some(WalPayload::Truncate(TruncateMutation { path, new_size }))
            },
            Err(_) => None,
        };
        let attr = self.attr(id);
        Ok((attr, payload))
    }

    /// Starts writing to a file: gives the blob that it starts from, for `write_data`.
    pub fn write(&self, id: u64) -> (r: Result<Option<String>, NfsStatus>)
        requires
            self.wf(),
        ensures
            match r {
                Ok(oid) => self@.write_asked(id) == Ok::<_, NfsStatus>(
                    crate::git::engine::maybe(oid),
                ),
                Err(e) => self@.write_asked(id) == Err::<Option<Seq<char>>, _>(e),
            },
    {
        let node = match self.there(id) {
            Some(n) => n,
            None => {
                return Err(NfsStatus::NoEnt);
            },
        };
        if node.is_dir {
            return Err(NfsStatus::IsDir);
        }
        if self.staging.is_staged(id) || !Self::is_oid(node.oid.as_str()) {
            Ok(None)
        } else {
            Ok(Some(node.oid))
        }
    }

    /// Writes to a file, from what its blob holds, where that could be had. Gives the
    /// attributes, and what is to be logged.
    pub fn write_data(
        &mut self,
        id: u64,
        offset: u64,
        data: &[u8],
        base_data: Option<&[u8]>,
        now: u64,
    ) -> (r: Result<(FileAttr, Option<WalPayload>), NfsStatus>)
        requires
            old(self).wf(),
            old(self)@.vfs.has(id),
        ensures
            final(self).wf(),
            ({
                let (next, done) = old(self)@.written(
                    id,
                    offset,
                    data@,
                    staging::maybe(base_data),
                    now,
                );
                &&& final(self)@ == next
                &&& match r {
                    Ok((attr, payload)) => done == Ok::<_, NfsStatus>((attr, logged(payload))),
                    Err(e) => done == Err::<(FileAttr, Option<PayloadView>), _>(e),
                }
            }),
    {
        let new_len: u64 = match self.staging.write_at(id, offset, data, base_data) {
            Ok(n) => n,
            Err(_) => {
                return Err(NfsStatus::Io);
            },
        };
        self.resize(id, new_len);
        let payload: Option<WalPayload> = match self.vfs.get_path(id) {
            Ok(path) => {
                self.record_mutation(path.as_str(), now);
                Some(WalPayload::Write(WriteMutation { path, offset, data: bytes::copy(data) }))
            },
            Err(_) => None,
        };
        let attr = self.attr(id);
        Ok((attr, payload))
    }

    /// Starts reading from a file: gives the bytes and whether they reach the end, or the blob
    /// that has to be fetched, for `read_blob`.
    pub fn read(&mut self, id: u64, offset: u64, count: u32) -> (step: ReadStep)
        requires
            old(self).wf(),
        ensures
            final(self).wf(),
            (final(self)@, step@) == old(self)@.read_asked(id, offset, count),
    {
        let node = match self.there(id) {
            Some(n) => n,
            None => {
                return ReadStep::Done(Err(NfsStatus::NoEnt));
            },
        };
        if node.is_dir {
            return ReadStep::Done(Err(NfsStatus::IsDir));
        }
        match self.staging.read_at(id, offset, count) {
            Some((data, eof)) => {
                return ReadStep::Done(Ok((data, eof)));
            },
            None => {},
        }
        if !Self::is_oid(node.oid.as_str()) {
            let none: Vec<u8> = Vec::new();
            assert(none@ =~= Seq::<u8>::empty());
            return ReadStep::Done(Ok((none, true)));
        }
        let ghost before = self@;
        let absent = self.known_size(node.oid.as_str()).is_none();
        assert(absent == (before.vfs.engine.cache.lookup(node.oid@) is None
            && !before.vfs.engine.disk.sizes.contains_key(node.oid@)));
        let prefetch: Option<String> = if absent {
            match self.vfs.get_node(node.parent_id) {
                Some(parent) => Some(parent.oid),
                None => None,
            }
        } else {
            None
        };
        ReadStep::Fetch { oid: node.oid, prefetch }
    }

    /// Reads from a file, with its blob, where that could be fetched.
    pub fn read_blob(&mut self, id: u64, offset: u64, count: u32, blob: Option<&[u8]>) -> (r:
        Result<(Vec<u8>, bool), NfsStatus>)
        requires
            old(self).wf(),
        ensures
            final(self).wf(),
            ({
                let (next, done) = old(self)@.read_fetched(
                    id,
                    offset,
                    count,
                    staging::maybe(blob),
                );
                &&& final(self)@ == next
                &&& match r {
                    Ok((data, eof)) => done == Ok::<_, NfsStatus>((data@, eof)),
                    Err(e) => done == Err::<(Seq<u8>, bool), _>(e),
                }
            }),
    {
        match blob {
            None => Err(NfsStatus::Io),
            Some(data) => {
                self.resize(id, data.len() as u64);
                Ok(staging::read_slice(data, offset, count))
            },
        }
    }

    fn path_in(&self, dirid: u64, name: &str) -> (path: String)
        requires
            self.wf(),
        ensures
            path@ == self@.vfs.path_in(dirid, name@),
    {
        match self.vfs.get_path(dirid) {
            Ok(parent) => {
                let mut path = text::chars_of(parent.as_str());
                if path.len() == 0 {
                    name.to_string()
                } else {
                    text::push_str(&mut path, "/");
                    text::push_str(&mut path, name);
                    text::from_chars(path)
                }
            },
            Err(_) => name.to_string(),
        }
    }

    fn create_file(&mut self, dirid: u64, name: &str, now: u64) -> (r: Result<
        (u64, String),
        NfsStatus,
    >)
        requires
            old(self).wf(),
        ensures
            final(self).wf(),
            ({
                let (next, made) = old(self)@.created(dirid, name@, now);
                &&& final(self)@ == next
                &&& match r {
                    Ok((id, path)) => made == Ok::<_, NfsStatus>((id, path@)) && next.vfs.has(id),
                    Err(e) => made == Err::<(u64, Seq<char>), _>(e),
                }
            }),
    {
        let node = match self.vfs.create_file(dirid, name, TreeEntryMode::RegularFile) {
            Ok(n) => n,
            Err(_) => {
                return Err(NfsStatus::Io);
            },
        };
        self.staging.create_file(node.id);
        let path = self.path_in(dirid, name);
        self.record_mutation(path.as_str(), now);
        Ok((node.id, path))
    }

    /// Creates a file. Gives it with its attributes, and what is to be logged.
    pub fn create(&mut self, dirid: u64, filename: &[u8], now: u64) -> (r: Result<
        (u64, FileAttr, WalPayload),
        NfsStatus,
    >)
        requires
            old(self).wf(),
        ensures
            final(self).wf(),
            match old(self)@.created(dirid, text::lossy(filename@), now) {
                (next, Ok((id, path))) => r matches Ok((i, attr, payload)) && i == id
                    && payload@ == file_created(path) && (final(self)@, attr) == next.attr(id),
                (next, Err(e)) => r == Err::<(u64, FileAttr, WalPayload), _>(e) && final(self)@
                    == next,
            },
    {
        let name = text::from_utf8_lossy(filename);
        match self.create_file(dirid, name.as_str(), now) {
            Ok((id, path)) => {
                let attr = self.attr(id);
                Ok((id, attr, creation(path)))
            },
            Err(e) => Err(e),
        }
    }

    /// Creates a file. Gives it without its attributes, and what is to be logged.
    pub fn create_exclusive(&mut self, dirid: u64, filename: &[u8], now: u64) -> (r: Result<
        (u64, WalPayload),
        NfsStatus,
    >)
        requires
            old(self).wf(),
        ensures
            final(self).wf(),
            match old(self)@.created(dirid, text::lossy(filename@), now) {
                (next, Ok((id, path))) => r matches Ok((i, payload)) && i == id && payload@
                    == file_created(path) && final(self)@ == next,
                (next, Err(e)) => r == Err::<(u64, WalPayload), _>(e) && final(self)@ == next,
            },
    {
        let name = text::from_utf8_lossy(filename);
        match self.create_file(dirid, name.as_str(), now) {
            Ok((id, path)) => Ok((id, creation(path))),
            Err(e) => Err(e),
        }
    }

    /// Creates a directory. Gives it with its attributes, and what is to be logged.
    pub fn mkdir(&mut self, dirid: u64, dirname: &[u8], now: u64) -> (r: Result<
        (u64, FileAttr, WalPayload),
        NfsStatus,
    >)
        requires
            old(self).wf(),
        ensures
            final(self).wf(),
            match old(self)@.made_dir(dirid, text::lossy(dirname@), now) {
                (next, Ok((id, path))) => r matches Ok((i, attr, payload)) && i == id
                    && payload@ == (PayloadView::Mkdir { path }) && (final(self)@, attr)
                    == next.attr(id),
                (next, Err(e)) => r == Err::<(u64, FileAttr, WalPayload), _>(e) && final(self)@
                    == next,
            },
    {
        let name = text::from_utf8_lossy(dirname);
        let node = match self.vfs.mkdir(dirid, name.as_str()) {
            Ok(n) => n,
            Err(_) => {
                return Err(NfsStatus::Io);
            },
        };
        let path = self.path_in(dirid, name.as_str());
        self.record_mutation(path.as_str(), now);
        let attr = self.attr(node.id);
        Ok((node.id, attr, WalPayload::Mkdir(MkdirMutation { path })))
    }

    /// Removes a file or directory. Gives what is to be logged.
    pub fn remove(&mut self, dirid: u64, filename: &[u8], now: u64) -> (r: Result<
        WalPayload,
        NfsStatus,
    >)
        requires
            old(self).wf(),
        ensures
            final(self).wf(),
            match old(self)@.removed(dirid, text::lossy(filename@), now) {
                (next, Ok(path)) => r matches Ok(payload) && payload@ == (PayloadView::Remove {
                    path,
                }) && final(self)@ == next,
                (next, Err(e)) => r == Err::<WalPayload, _>(e) && final(self)@ == next,
            },
    {
        let name = text::from_utf8_lossy(filename);
        let node = match self.vfs.remove(dirid, name.as_str()) {
            Ok(n) => n,
            Err(_) => {
                return Err(NfsStatus::NoEnt);
            },
        };
        self.staging.mark_deleted(node.id);
        let path = self.path_in(dirid, name.as_str());
        self.record_mutation(path.as_str(), now);
        Ok(WalPayload::Remove(RemoveMutation { path }))
    }

    /// Renames a file or directory; what is in its new place is removed. Gives what is to be
    /// logged.
    pub fn rename(
        &mut self,
        from_dirid: u64,
        from_filename: &[u8],
        to_dirid: u64,
        to_filename: &[u8],
        now: u64,
    ) -> (r: Result<WalPayload, NfsStatus>)
        requires
            old(self).wf(),
        ensures
            final(self).wf(),
            match old(self)@.renamed(
                from_dirid,
                text::lossy(from_filename@),
                to_dirid,
                text::lossy(to_filename@),
                now,
            ) {
                (next, Ok((from_path, to_path))) => r matches Ok(payload) && payload@ == (
                PayloadView::Rename { from_path, to_path }) && final(self)@ == next,
                (next, Err(e)) => r == Err::<WalPayload, _>(e) && final(self)@ == next,
            },
    {
        let from_name = text::from_utf8_lossy(from_filename);
        let to_name = text::from_utf8_lossy(to_filename);
        let from_path = self.path_in(from_dirid, from_name.as_str());
        let to_path = self.path_in(to_dirid, to_name.as_str());
        match self.vfs.rename(from_dirid, from_name.as_str(), to_dirid, to_name.as_str()) {
            Ok(_) => {},
            Err(_) => {
                return Err(NfsStatus::Io);
            },
        }
        self.staging.mark_touched(from_dirid);
        self.staging.mark_touched(to_dirid);
        self.record_mutation(from_path.as_str(), now);
        self.record_mutation(to_path.as_str(), now);
        Ok(WalPayload::Rename(RenameMutation { from_path, to_path }))
    }

    fn push_entry(&mut self, all: &mut Vec<DirEntry>, fileid: u64, name: Vec<u8>, id: u64)
        requires
            old(self).wf(),
            old(self)@.vfs.has(id),
        ensures
            final(self).wf(),
            ({
                let (next, entry) = old(self)@.entry(fileid, name@, id);
                &&& final(self)@ == next
                &&& entry_views(final(all)@) == entry_views(old(all)@).push(entry)
            }),
    {
        let attr = self.attr(id);
        let ghost n = name@;
        let ghost before = all@;
        all.push(DirEntry { fileid, name, attr });
        assert(entry_views(all@) =~= entry_views(before).push(
            EntryView { fileid, name: n, attr },
        ));
    }

    /// All entries of a directory that was looked at.
    fn all_entries(&mut self, dir_node: &VfsNode, children: &Vec<VfsNode>) -> (all: Vec<DirEntry>)
        requires
            old(self).wf(),
            old(self)@.vfs.has(dir_node@.id),
            dir_node@ == old(self)@.vfs.node(dir_node@.id),
            inode::node_views(children@) == old(self)@.vfs.listed(dir_node@.id),
        ensures
            final(self).wf(),
            (final(self)@, entry_views(all@)) == old(self)@.all_entries(dir_node@.id),
    {
        let dirid: u64 = dir_node.id;
        let ghost start = self@;
        let ghost nodes = inode::node_views(children@);
        proof {
            self.vfs.lemma_wf();
            assert(start.vfs.node_ok(dirid - 1));
            lemma_listed(start.vfs, start.vfs.listing(dirid));
        }
        let up: u64 = match self.vfs.get_node(dir_node.parent_id) {
            Some(_) => dir_node.parent_id,
            None => dirid,
        };
        let mut all: Vec<DirEntry> = Vec::new();
        let dot: Vec<u8> = vec![46];
        let dots: Vec<u8> = vec![46, 46];
        assert(dot@ =~= seq![46u8]);
        assert(dots@ =~= seq![46u8, 46]);
        self.push_entry(&mut all, dirid, dot, dirid);
        self.push_entry(&mut all, dir_node.parent_id, dots, up);
        let ghost second = self@;
        let ghost first_two = entry_views(all@);
        proof {
            let (first, this) = start.entry(dirid, seq![46u8], dirid);
            let (_, parent) = first.entry(dir_node.parent_id, seq![46u8, 46], up);
            assert(first_two =~= seq![this, parent]);
        }
        let mut i: usize = 0;
        assert(nodes.take(0) =~= Seq::<NodeView>::empty());
        while i < children.len()
            invariant
                self.wf(),
                i <= children@.len(),
                nodes == inode::node_views(children@),
                self@.vfs.nodes == start.vfs.nodes,
                self@.staging == second.staging,
                (self@, entry_views(all@)) == second.entries(nodes.take(i as int), first_two),
                forall|k: int|
                    0 <= k < nodes.len() ==> start.vfs.has((#[trigger] nodes[k]).id),
            decreases children@.len() - i,
        {
            let child = &children[i];
            proof {
                assert(nodes.take(i as int + 1).drop_last() =~= nodes.take(i as int));
                assert(nodes.take(i as int + 1).last() == child@);
                assert(nodes[i as int] == child@);
            }
            if !self.staging.is_deleted(child.id) {
                let name = text::bytes_of(child.name.as_str());
                self.push_entry(&mut all, child.id, name, child.id);
            }
            i += 1;
        }
        assert(nodes.take(i as int) =~= nodes);
        all
    }

    /// Lists a directory from behind an entry on, so many entries at most; from the start where
    /// that is zero. Says whether that reaches the end, and what to fetch in the background.
    pub fn readdir(&mut self, dirid: u64, start_after: u64, max_entries: usize) -> (r: Result<
        DirPage,
        NfsStatus,
    >)
        requires
            old(self).wf(),
        ensures
            final(self).wf(),
            ({
                let (next, page) = old(self)@.dir_read(dirid, start_after, max_entries);
                &&& final(self)@ == next
                &&& match r {
                    Ok(p) => page == Ok::<_, NfsStatus>(p@),
                    Err(e) => page == Err::<PageView, _>(e),
                }
            }),
    {
        let found = self.vfs.get_node(dirid);
        match found {
            None => {
                return Err(NfsStatus::NoEnt);
            },
            Some(node) => {
                if !node.is_dir {
                    return Err(NfsStatus::NotDir);
                }
            },
        }
        let children = match self.vfs.list_dir(dirid) {
            Ok(c) => c,
            Err(_) => {
                return Err(NfsStatus::Io);
            },
        };
        proof {
            old(self).vfs.lemma_wf();
            crate::vfs::laws::lemma_opened_once(old(self)@.vfs, dirid);
            self.vfs.lemma_wf();
            assert(self.vfs@.node_ok(dirid - 1));
        }
        let dir_node = self.vfs.any_node(dirid);
        let all = self.all_entries(&dir_node, &children);
        let ghost entries = entry_views(all@);
        let total: usize = all.len();
        let mut from: usize = 0;
        if start_after != 0 {
            let mut i: usize = 0;
            while i < total && all[i].fileid != start_after
                invariant
                    i <= total == all@.len(),
                    entries == entry_views(all@),
                    place_behind(entries, start_after, 0) == place_behind(
                        entries,
                        start_after,
                        i as int,
                    ),
                decreases total - i,
            {
                assert(entries[i as int] == all@[i as int]@);
                i += 1;
            }
            if i < total {
                assert(entries[i as int] == all@[i as int]@);
                from = i + 1;
            }
        }
        let to: usize = if max_entries < total - from {
            from + max_entries
        } else {
            total
        };
        let prefetch: Option<String> = if start_after == 0 {
            Some(dir_node.oid)
        } else {
            None
        };
        let page = take_range(all, from, to);
        Ok(DirPage { entries: page, end: to >= total, prefetch })
    }

    /// Symbolic links cannot be created.
    pub fn symlink(&self) -> (r: Result<u64, NfsStatus>)
        ensures
            r == Err::<u64, _>(NfsStatus::ReadOnly),
    {
        Err(NfsStatus::ReadOnly)
    }

    /// The blob with the target of a symbolic link.
    pub fn readlink(&self, id: u64) -> (r: Result<String, NfsStatus>)
        requires
            self.wf(),
        ensures
            match r {
                Ok(oid) => self@.vfs.is_live(id) && self@.vfs.node(id).mode
                    == TreeEntryMode::Symlink && oid@ == self@.vfs.node(id).oid,
                Err(NfsStatus::NoEnt) => !self@.vfs.is_live(id),
                Err(NfsStatus::Inval) => self@.vfs.is_live(id) && self@.vfs.node(id).mode
                    != TreeEntryMode::Symlink,
                Err(_) => false,
            },
    {
        match self.vfs.get_node(id) {
            None => Err(NfsStatus::NoEnt),
            Some(node) => if node.mode.is_symlink() {
                Ok(node.oid)
            } else {
                Err(NfsStatus::Inval)
            },
        }
    }

    /// Makes the commit of the edits, on top of a base commit, and its packfile.
    pub fn build_pack(
        &mut self,
        base_commit_oid: &str,
        author: &str,
        commit_message: &str,
        timestamp: u64,
    ) -> (r: Result<Option<RecoveredPackResult>, RecoverError>)
        requires
            old(self).wf(),
        ensures
            final(self).wf(),
            final(self)@ == (FsView { vfs: final(self)@.vfs, ..old(self)@ }),
            recovery::is_built(
                ReplayView { vfs: old(self)@.vfs, staging: old(self)@.staging },
                final(self)@.vfs,
                base_commit_oid@,
                author@,
                commit_message@,
                timestamp,
                r,
            ),
    {
        recovery::build_pack_from_recovered_state(
            &mut self.vfs,
            &self.staging,
            base_commit_oid,
            author,
            commit_message,
            timestamp,
        )
    }

    /// Whether edits are to be committed: there are some, and the last is half a minute ago.
    pub fn is_commit_due(&self, now: u64) -> (r: bool)
        ensures
            r == (self@.uncommitted && now - self@.last_mutation >= 30),
    {
        self.has_uncommitted_changes && now >= self.last_mutation_time && now
            - self.last_mutation_time >= 30
    }

    /// Notes that the edits are in a commit. They stay visible, and the next commit is made of
    /// them and of those that follow.
    pub fn mark_committed(&mut self)
        requires
            old(self).wf(),
        ensures
            final(self).wf(),
            final(self)@ == (FsView {
                staging: StagingView { changed: Seq::empty(), ..old(self)@.staging },
                uncommitted: false,
                ..old(self)@
            }),
    {
        self.staging.forget_changed_paths();
        self.has_uncommitted_changes = false;
    }
}

/// The nodes that are listed are there, under their numbers.
proof fn lemma_listed(v: VfsView, ids: Seq<u64>)
    requires
        v.wf(),
    ensures
        forall|k: int|
            0 <= k < v.live_nodes(ids).len() ==> v.has((#[trigger] v.live_nodes(ids)[k]).id),
    decreases ids.len(),
{
    if ids.len() > 0 {
        lemma_listed(v, ids.drop_last());
        if v.is_live(ids.last()) {
            assert(v.node_ok(ids.last() - 1));
        }
    }
}

fn take_range(all: Vec<DirEntry>, from: usize, to: usize) -> (part: Vec<DirEntry>)
    requires
        from <= to <= all@.len(),
    ensures
        entry_views(part@) == entry_views(all@).subrange(from as int, to as int),
{
    let mut part: Vec<DirEntry> = Vec::new();
    let mut i: usize = from;
    while i < to
        invariant
            from <= i <= to <= all@.len(),
            part@.len() == i - from,
            forall|j: int| 0 <= j < part@.len() ==> (#[trigger] part@[j])@ == all@[from + j]@,
        decreases to - i,
    {
        let e = &all[i];
        part.push(
            DirEntry { fileid: e.fileid, name: bytes::copy(e.name.as_slice()), attr: e.attr },
        );
        i += 1;
    }
    assert(entry_views(part@) =~= entry_views(all@).subrange(from as int, to as int));
    part
}

/// What is logged of a file that was created.
pub open spec fn file_created(path: Seq<char>) -> PayloadView {
    PayloadView::CreateFile { path, inode_type: 0, mode: 0o100644 }
}

fn creation(path: String) -> (payload: WalPayload)
    ensures
        payload@ == file_created(path@),
{
    WalPayload::CreateFile(CreateFileMutation { path, inode_type: 0, mode: 0o100644 })
}

/// What `setattr` leads to.
#[derive(Debug)]
pub enum SetAttr {
    Done(FileAttr),
    /// The size is to be set, from a blob where there is one that was not edited yet.
    Resize(Option<String>),
}

} // verus!
