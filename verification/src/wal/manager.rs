//! The log of a session, and the recovery of sessions that crashed.

use vstd::prelude::*;

use crate::git::engine::{EngineView, GitEngine};
use crate::maps::TextMap;
use crate::staging::{StagingStore, StagingView};
use crate::text;
use crate::vfs::inode::{VfsManager, VfsView};
use crate::wal::backend::{LogNames, StoredFile};
use crate::wal::proto;
use crate::wal::proto::{
    EntryView, HeaderView, PayloadView, WalEntry, WalHeader, WalPayload,
};
use crate::wal::recovery;
use crate::wal::recovery::{
    RecoverError, RecoveredPackResult, ReplayError, ReplayView,
};

verus! {

/// The log of a session: its number, and that of the next entry.
#[derive(Debug, Clone, Copy, PartialEq, Eq, Structural)]
pub struct WalManager {
    active_seq: u64,
    entry_seq: u64,
}

impl WalManager {
    /// The number of the log.
    pub closed spec fn log(&self) -> u64 {
        self.active_seq
    }

    /// The number of the next entry.
    pub closed spec fn next_entry(&self) -> u64 {
        self.entry_seq
    }

    pub fn new(active_seq: u64) -> (manager: Self)
        ensures
            manager.log() == active_seq,
            manager.next_entry() == 1,
    {
        WalManager { active_seq, entry_seq: 1 }
    }

    pub fn active_seq(&self) -> (seq: u64)
        ensures
            seq == self.log(),
    {
        self.active_seq
    }

    /// Goes on to the next log, whose entries are counted from one again.
    pub fn advance_seq(&mut self) -> (seq: u64)
        requires
            old(self).log() < u64::MAX,
        ensures
            seq == old(self).log() + 1,
            final(self).log() == seq,
            final(self).next_entry() == 1,
    {
        self.entry_seq = 1;
        self.active_seq = self.active_seq + 1;
        self.active_seq
    }

    fn take_entry_seq(&mut self) -> (seq: u64)
        ensures
            seq == old(self).next_entry(),
            final(self).log() == old(self).log(),
            final(self).next_entry() == (if seq == u64::MAX {
                0u64
            } else {
                (seq + 1) as u64
            }),
    {
        let seq: u64 = self.entry_seq;
        self.entry_seq = if seq == u64::MAX {
            0
        } else {
            seq + 1
        };
        seq
    }

    /// The entry that a log starts with: what the session is about, and when it started.
    pub fn start_active_wal(
        &mut self,
        repo_url: &str,
        base_commit_oid: &str,
        author: &str,
        commit_message: &str,
        now_secs: u64,
        now_nanos: u64,
    ) -> (entry: WalEntry)
        ensures
            entry@ == (EntryView {
                seq: old(self).next_entry(),
                timestamp: now_nanos,
                payload: Some(
                    PayloadView::Header(
                        HeaderView {
                            repo_url: repo_url@,
                            base_commit_oid: base_commit_oid@,
                            author: author@,
                            commit_message: commit_message@,
                            started_at: now_secs,
                            wal_seq: old(self).log(),
                        },
                    ),
                ),
            }),
            final(self).log() == old(self).log(),
            final(self).next_entry() == following(old(self).next_entry()),
    {
        let seq = self.take_entry_seq();
        WalEntry {
            seq,
            timestamp_unix_nanos: now_nanos,
            payload: Some(
                WalPayload::Header(
                    WalHeader {
                        repo_url: repo_url.to_string(),
                        base_commit_oid: base_commit_oid.to_string(),
                        author: author.to_string(),
                        commit_message: commit_message.to_string(),
                        started_at_unix_secs: now_secs,
                        wal_seq: self.active_seq,
                    },
                ),
            ),
        }
    }

    /// The entry for an edit.
    pub fn log_mutation(&mut self, payload: WalPayload, now_nanos: u64) -> (entry: WalEntry)
        ensures
            entry@ == (EntryView {
                seq: old(self).next_entry(),
                timestamp: now_nanos,
                payload: Some(payload@),
            }),
            final(self).log() == old(self).log(),
            final(self).next_entry() == following(old(self).next_entry()),
    {
        let seq = self.take_entry_seq();
        WalEntry { seq, timestamp_unix_nanos: now_nanos, payload: Some(payload) }
    }

    /// Recovers the edits of logs that were not done with, one log behind the other, with the
    /// blobs that can be had, and makes one commit of them with its packfile. Hands the
    /// repository back.
    pub fn recover_and_replay_uncommitted(
        logs: &Vec<Vec<u8>>,
        git_engine: GitEngine,
        root_oid: &str,
        default_base_commit_oid: &str,
        default_author: &str,
        default_commit_message: &str,
        blobs: &TextMap<Vec<u8>>,
        timestamp: u64,
    ) -> (r: (GitEngine, Result<Option<RecoveredPackResult>, RecoverError>))
        requires
            git_engine.wf(),
            blobs.wf(),
        ensures
            r.0.wf(),
            ({
                let start = ReplayView {
                    vfs: VfsView::fresh(git_engine@, root_oid@),
                    staging: StagingView::empty(),
                };
                let notes = CommitNotes {
                    base_commit: default_base_commit_oid@,
                    author: default_author@,
                    message: default_commit_message@,
                };
                is_outcome(
                    logs_replayed(start, notes, log_views(logs@), 0, blobs@),
                    timestamp,
                    r.0@,
                    r.1,
                )
            }),
    {
        let mut recovery = Recovery::new(
            git_engine,
            root_oid,
            default_base_commit_oid,
            default_author,
            default_commit_message,
        );
        let ghost start = recovery@;
        let done = recovery.replay_all(logs, blobs);
        let ghost replayed = (recovery@.state, recovery@.notes, done);
        let r = match done {
            Ok(_) => recovery.finish(timestamp),
            Err(e) => Err(RecoverError::Replay(e)),
        };
        let ghost after = recovery@.state.vfs;
        let engine = recovery.into_engine();
        assert(is_outcome(replayed, timestamp, engine@, r)) by {
            if done is Ok {
                assert(is_made(replayed.0, replayed.1, timestamp, after, engine@, r));
            }
        }
        (engine, r)
    }

    /// The logs that were not done with: those of the numbers whose markers are not there.
    pub fn uncommitted(seqs: &Vec<u64>, done: &Vec<bool>) -> (left: Vec<u64>)
        requires
            seqs@.len() == done@.len(),
        ensures
            left@ == not_done(seqs@, done@),
    {
        let mut left: Vec<u64> = Vec::new();
        let mut i: usize = 0;
        assert(seqs@.take(0) =~= Seq::<u64>::empty());
        while i < seqs.len()
            invariant
                i <= seqs@.len() == done@.len(),
                left@ == not_done(seqs@.take(i as int), done@.take(i as int)),
            decreases seqs@.len() - i,
        {
            assert(seqs@.take(i as int + 1).drop_last() =~= seqs@.take(i as int));
            assert(done@.take(i as int + 1).drop_last() =~= done@.take(i as int));
            if !done[i] {
                left.push(seqs[i]);
            }
            i += 1;
        }
        assert(seqs@.take(i as int) =~= seqs@);
        assert(done@.take(i as int) =~= done@);
        left
    }
}

/// The number behind another; zero is behind the last.
pub open spec fn following(seq: u64) -> u64 {
    if seq == u64::MAX {
        0
    } else {
        (seq + 1) as u64
    }
}

/// The numbers whose flags are not set.
pub open spec fn not_done(seqs: Seq<u64>, done: Seq<bool>) -> Seq<u64>
    decreases seqs.len(),
{
    if seqs.len() == 0 {
        seqs
    } else {
        let before = not_done(seqs.drop_last(), done.drop_last());
        if done.last() {
            before
        } else {
            before.push(seqs.last())
        }
    }
}

// ---------------------------------------------------------------------------------------------
// Recovery

/// What a recovered commit says of itself.
#[verifier::ext_equal]
pub struct CommitNotes {
    pub base_commit: Seq<char>,
    pub author: Seq<char>,
    pub message: Seq<char>,
}

impl CommitNotes {
    /// As the head of a log says, where it says anything.
    pub open spec fn with_header(self, h: HeaderView) -> CommitNotes {
        CommitNotes {
            base_commit: if h.base_commit_oid.len() > 0 {
                h.base_commit_oid
            } else {
                self.base_commit
            },
            author: if h.author.len() > 0 {
                h.author
            } else {
                self.author
            },
            message: if h.commit_message.len() > 0 {
                "Recovered from crash: "@ + h.commit_message
            } else {
                self.message
            },
        }
    }

    /// As an entry of a log says.
    pub open spec fn with_entry(self, e: EntryView) -> CommitNotes {
        match e.payload {
            Some(PayloadView::Header(h)) => self.with_header(h),
            _ => self,
        }
    }

    /// As the entries of a log say: the last one that says anything counts.
    pub open spec fn with_entries(self, entries: Seq<EntryView>) -> CommitNotes
        decreases entries.len(),
    {
        if entries.len() == 0 {
            self
        } else {
            self.with_entries(entries.drop_last()).with_entry(entries.last())
        }
    }
}

/// The bytes of logs.
pub open spec fn log_views(logs: Seq<Vec<u8>>) -> Seq<Seq<u8>> {
    logs.map_values(|l: Vec<u8>| l@)
}

/// The edits of the logs from the `i`-th on, and what they say of the commit.
pub open spec fn logs_replayed(
    state: ReplayView,
    notes: CommitNotes,
    logs: Seq<Seq<u8>>,
    i: int,
    blobs: Map<Seq<char>, Seq<u8>>,
) -> (ReplayView, CommitNotes, Result<(), ReplayError>)
    decreases logs.len() - i,
{
    if i >= logs.len() {
        (state, notes, Ok(()))
    } else {
        let entries = proto::log_read(logs[i]).0;
        let said = notes.with_entries(entries);
        match state.replayed_from(entries, 0, blobs) {
            (next, Err(e)) => (next, said, Err(e)),
            (next, Ok(_)) => logs_replayed(next, said, logs, i + 1, blobs),
        }
    }
}

/// Whether a result is the commit of the edits, and the repository what it is then.
pub open spec fn is_made(
    state: ReplayView,
    notes: CommitNotes,
    timestamp: u64,
    after: VfsView,
    engine: EngineView,
    r: Result<Option<RecoveredPackResult>, RecoverError>,
) -> bool {
    &&& engine == after.engine
    &&& recovery::is_built(
        state,
        after,
        notes.base_commit,
        notes.author,
        notes.message,
        timestamp,
        r,
    )
}

/// Whether a result is the commit of the edits of logs, or says why an edit could not be made.
pub open spec fn is_outcome(
    replayed: (ReplayView, CommitNotes, Result<(), ReplayError>),
    timestamp: u64,
    engine: EngineView,
    r: Result<Option<RecoveredPackResult>, RecoverError>,
) -> bool {
    match replayed.2 {
        Err(e) => r == Err::<Option<RecoveredPackResult>, _>(RecoverError::Replay(e)) && engine
            == replayed.0.vfs.engine,
        Ok(_) => exists|after: VfsView| #[trigger]
            is_made(replayed.0, replayed.1, timestamp, after, engine, r),
    }
}

/// A recovery: the tree of nodes and the edits so far, what the commit will say, the entries of
/// the log that is being read, how many of them are done with, and the file that an edit waits
/// for.
#[verifier::ext_equal]
pub struct RecoveryView {
    pub state: ReplayView,
    pub notes: CommitNotes,
    pub entries: Seq<EntryView>,
    pub at: nat,
    pub waiting: Option<u64>,
}

impl RecoveryView {
    /// With the entries of a log to be gone through.
    pub open spec fn with_log(self, data: Seq<u8>) -> RecoveryView {
        let entries = proto::log_read(data).0;
        RecoveryView {
            notes: self.notes.with_entries(entries),
            entries,
            at: 0,
            waiting: None,
            ..self
        }
    }

    /// Once the edits were made up to the first that waits for a blob, or cannot be made.
    pub open spec fn advanced(self) -> (RecoveryView, Result<Option<Seq<char>>, ReplayError>)
        decreases self.entries.len() - self.at,
    {
        if self.at >= self.entries.len() {
            (self, Ok(None))
        } else {
            let skipped = RecoveryView { at: self.at + 1, ..self };
            match self.entries[self.at as int].payload {
                None => skipped.advanced(),
                Some(p) => match self.state.begun(p) {
                    (state, Err(e)) => (RecoveryView { state, ..self }, Err(e)),
                    (state, Ok(None)) => (RecoveryView { state, ..skipped }).advanced(),
                    (state, Ok(Some(file))) => match file.oid {
                        Some(oid) => (
                            RecoveryView { state, waiting: Some(file.node), ..self },
                            Ok(Some(oid)),
                        ),
                        None => match state.finished(p, file.node, None) {
                            (next, Err(e)) => (RecoveryView { state: next, ..self }, Err(e)),
                            (next, Ok(_)) => (RecoveryView { state: next, ..skipped }).advanced(),
                        },
                    },
                },
            }
        }
    }

    /// Once the edit that waits was made, with its blob, where that could be had.
    pub open spec fn supplied(self, base: Option<Seq<u8>>) -> (
        RecoveryView,
        Result<(), ReplayError>,
    ) {
        match (self.waiting, self.entries[self.at as int].payload) {
            (Some(node), Some(p)) => match self.state.finished(p, node, base) {
                (state, Err(e)) => (RecoveryView { state, waiting: None, ..self }, Err(e)),
                (state, Ok(_)) => (
                    RecoveryView { state, waiting: None, at: self.at + 1, ..self },
                    Ok(()),
                ),
            },
            _ => (self, Ok(())),
        }
    }
}

/// A recovery from logs. Each is read with `read_log` and gone through with `advance`; where that
/// gives the name of a blob, the recovery goes on once it was given to `supply`.
pub struct Recovery {
    vfs: VfsManager,
    staging: StagingStore,
    base_commit_oid: String,
    author: String,
    commit_message: String,
    entries: Vec<WalEntry>,
    at: usize,
    waiting: Option<u64>,
}

impl View for Recovery {
    type V = RecoveryView;

    closed spec fn view(&self) -> RecoveryView {
        RecoveryView {
            state: recovery::replay_view(self.vfs@, self.staging@),
            notes: CommitNotes {
                base_commit: self.base_commit_oid@,
                author: self.author@,
                message: self.commit_message@,
            },
            entries: proto::entry_views(self.entries@),
            at: self.at as nat,
            waiting: self.waiting,
        }
    }
}

impl Recovery {
    pub closed spec fn wf(&self) -> bool {
        &&& self.vfs.wf()
        &&& self.staging.wf()
        &&& self.at <= self.entries@.len()
        &&& self.waiting is Some ==> self.at < self.entries@.len()
            && self.entries@[self.at as int].payload is Some
    }

    /// A recovery on top of a repository, and what the commit says where no log says otherwise.
    pub fn new(
        git_engine: GitEngine,
        root_oid: &str,
        default_base_commit_oid: &str,
        default_author: &str,
        default_commit_message: &str,
    ) -> (recovery: Self)
        requires
            git_engine.wf(),
        ensures
            recovery.wf(),
            recovery@ == (RecoveryView {
                state: ReplayView {
                    vfs: VfsView::fresh(git_engine@, root_oid@),
                    staging: StagingView::empty(),
                },
                notes: CommitNotes {
                    base_commit: default_base_commit_oid@,
                    author: default_author@,
                    message: default_commit_message@,
                },
                entries: Seq::empty(),
                at: 0,
                waiting: None,
            }),
    {
        let recovery = Recovery {
            vfs: VfsManager::new(git_engine, root_oid),
            staging: StagingStore::new(),
            base_commit_oid: default_base_commit_oid.to_string(),
            author: default_author.to_string(),
            commit_message: default_commit_message.to_string(),
            entries: Vec::new(),
            at: 0,
            waiting: None,
        };
        assert(recovery@.entries =~= Seq::<EntryView>::empty());
        recovery
    }

    /// Lends the repository, to be read from.
    pub fn engine_mut(&mut self) -> (engine: &mut GitEngine)
        requires
            old(self).wf(),
        ensures
            engine@ == old(self)@.state.vfs.engine,
            engine.wf(),
            final(engine).wf() ==> final(self).wf() && final(self)@ == (RecoveryView {
                state: ReplayView {
                    vfs: VfsView { engine: final(engine)@, ..old(self)@.state.vfs },
                    ..old(self)@.state
                },
                ..old(self)@
            }),
    {
        self.vfs.engine_mut()
    }

    /// Hands the repository back.
    pub fn into_engine(self) -> (engine: GitEngine)
        requires
            self.wf(),
        ensures
            engine@ == self@.state.vfs.engine,
            engine.wf(),
    {
        self.vfs.into_engine()
    }

    fn take_header(&mut self, h: &WalHeader)
        requires
            old(self).wf(),
        ensures
            final(self).wf(),
            final(self)@ == (RecoveryView {
                notes: old(self)@.notes.with_header(h@),
                ..old(self)@
            }),
    {
        if text::chars_of(h.base_commit_oid.as_str()).len() > 0 {
            self.base_commit_oid = h.base_commit_oid.clone();
        }
        if text::chars_of(h.author.as_str()).len() > 0 {
            self.author = h.author.clone();
        }
        if text::chars_of(h.commit_message.as_str()).len() > 0 {
            let mut message = text::chars_of("Recovered from crash: ");
            text::push_str(&mut message, h.commit_message.as_str());
            self.commit_message = text::from_chars(message);
        }
    }

    /// Reads a log up to where it was cut off, and takes what it says of the commit. Gives the
    /// number of its entries, and of the bytes that they are.
    pub fn read_log(&mut self, log_bytes: &[u8]) -> (r: (usize, usize))
        requires
            old(self).wf(),
        ensures
            final(self).wf(),
            final(self)@ == old(self)@.with_log(log_bytes@),
            r.0 == proto::log_read(log_bytes@).0.len(),
            r.1 == proto::log_read(log_bytes@).1,
    {
        let (entries, consumed) = WalEntry::decode_all_framed(log_bytes);
        let ghost all = proto::entry_views(entries@);
        let count: usize = entries.len();
        self.waiting = None;
        self.at = 0;
        self.entries = Vec::new();
        let ghost start = self@;
        let mut i: usize = 0;
        assert(all.take(0) =~= Seq::<EntryView>::empty());
        while i < entries.len()
            invariant
                self.wf(),
                i <= entries@.len(),
                all == proto::entry_views(entries@),
                self@ == (RecoveryView {
                    notes: start.notes.with_entries(all.take(i as int)),
                    ..start
                }),
            decreases entries@.len() - i,
        {
            assert(all.take(i as int + 1).drop_last() =~= all.take(i as int));
            assert(all.take(i as int + 1).last() == entries@[i as int]@);
            match &entries[i].payload {
                Some(WalPayload::Header(h)) => {
                    self.take_header(h);
                },
                _ => {},
            }
            i += 1;
        }
        assert(all.take(i as int) =~= all);
        self.entries = entries;
        assert(self@ =~= old(self)@.with_log(log_bytes@));
        (count, consumed)
    }

    /// Makes all edits of the log, with the blobs that can be had.
    pub fn replay(&mut self, blobs: &TextMap<Vec<u8>>) -> (r: Result<(), ReplayError>)
        requires
            old(self).wf(),
            blobs.wf(),
        ensures
            final(self).wf(),
            final(self)@ == (RecoveryView { state: final(self)@.state, ..old(self)@ }),
            (final(self)@.state, r) == old(self)@.state.replayed_from(
                old(self)@.entries,
                0,
                blobs@,
            ),
    {
        recovery::replay_wal_entries(
            self.entries.as_slice(),
            &mut self.vfs,
            &mut self.staging,
            blobs,
        )
    }

    /// Reads logs and makes all their edits, with the blobs that can be had.
    pub fn replay_all(&mut self, logs: &Vec<Vec<u8>>, blobs: &TextMap<Vec<u8>>) -> (r: Result<
        (),
        ReplayError,
    >)
        requires
            old(self).wf(),
            blobs.wf(),
        ensures
            final(self).wf(),
            (final(self)@.state, final(self)@.notes, r) == logs_replayed(
                old(self)@.state,
                old(self)@.notes,
                log_views(logs@),
                0,
                blobs@,
            ),
    {
        let ghost all = log_views(logs@);
        let ghost whole = logs_replayed(self@.state, self@.notes, all, 0, blobs@);
        let mut i: usize = 0;
        while i < logs.len()
            invariant
                self.wf(),
                blobs.wf(),
                i <= logs@.len(),
                all == log_views(logs@),
                whole == logs_replayed(self@.state, self@.notes, all, i as int, blobs@),
                whole == logs_replayed(old(self)@.state, old(self)@.notes, all, 0, blobs@),
            decreases logs@.len() - i,
        {
            assert(all[i as int] == logs@[i as int]@);
            let _ = self.read_log(logs[i].as_slice());
            match self.replay(blobs) {
                Ok(_) => {},
                Err(e) => {
                    return Err(e);
                },
            }
            i += 1;
        }
        Ok(())
    }

    /// Makes the edits of the log up to the first that starts from a blob, and gives the blob's
    /// name; nothing where the log is done with.
    pub fn advance(&mut self) -> (r: Result<Option<String>, ReplayError>)
        requires
            old(self).wf(),
            old(self)@.waiting is None,
        ensures
            final(self).wf(),
            ({
                let (next, wanted) = old(self)@.advanced();
                &&& final(self)@ == next
                &&& match r {
                    Ok(oid) => wanted == Ok::<_, ReplayError>(crate::git::engine::maybe(oid)),
                    Err(e) => wanted == Err::<Option<Seq<char>>, _>(e),
                }
            }),
    {
        let ghost whole = self@.advanced();
        while self.at < self.entries.len()
            invariant
                self.wf(),
                self.waiting is None,
                whole == self@.advanced(),
                whole == old(self)@.advanced(),
            decreases self.entries@.len() - self.at,
        {
            let ghost before = self@;
            assert(before.entries[before.at as int] == self.entries@[self.at as int]@);
            match &self.entries[self.at].payload {
                None => {},
                Some(payload) => match recovery::begin_edit(
                    payload,
                    &mut self.vfs,
                    &mut self.staging,
                ) {
                    Err(e) => {
                        return Err(e);
                    },
                    Ok(None) => {},
                    Ok(Some(file)) => match file.base_oid {
                        Some(oid) => {
                            self.waiting = Some(file.node_id);
                            return Ok(Some(oid));
                        },
                        None => match recovery::finish_edit(
                            payload,
                            file.node_id,
                            None,
                            &mut self.vfs,
                            &mut self.staging,
                        ) {
                            Ok(_) => {},
                            Err(e) => {
                                return Err(e);
                            },
                        },
                    },
                },
            }
            self.at = self.at + 1;
        }
        Ok(None)
    }

    /// Makes the edit that waits for its blob, with the blob, where that could be had.
    pub fn supply(&mut self, base_data: Option<&[u8]>) -> (r: Result<(), ReplayError>)
        requires
            old(self).wf(),
        ensures
            final(self).wf(),
            (final(self)@, r) == old(self)@.supplied(crate::staging::maybe(base_data)),
            r is Ok ==> final(self)@.waiting is None,
    {
        let node_id: u64 = match self.waiting {
            Some(id) => id,
            None => {
                return Ok(());
            },
        };
        assert(self@.entries[self@.at as int] == self.entries@[self.at as int]@);
        match &self.entries[self.at].payload {
            None => Ok(()),
            Some(payload) => {
                let r = recovery::finish_edit(
                    payload,
                    node_id,
                    base_data,
                    &mut self.vfs,
                    &mut self.staging,
                );
                self.waiting = None;
                let count: usize = self.entries.len();
                if r.is_ok() && self.at < count {
                    self.at = self.at + 1;
                }
                r
            },
        }
    }

    /// Makes the commit of all edits that were recovered, and its packfile.
    pub fn finish(&mut self, timestamp: u64) -> (r: Result<
        Option<RecoveredPackResult>,
        RecoverError,
    >)
        requires
            old(self).wf(),
        ensures
            final(self).wf(),
            recovery::is_built(
                old(self)@.state,
                final(self)@.state.vfs,
                old(self)@.notes.base_commit,
                old(self)@.notes.author,
                old(self)@.notes.message,
                timestamp,
                r,
            ),
            final(self)@ == (RecoveryView {
                state: ReplayView { vfs: final(self)@.state.vfs, ..old(self)@.state },
                ..old(self)@
            }),
    {
        recovery::build_pack_from_recovered_state(
            &mut self.vfs,
            &self.staging,
            self.base_commit_oid.as_str(),
            self.author.as_str(),
            self.commit_message.as_str(),
            timestamp,
        )
    }
}

/// The files that mark a log as done once its edits were recovered: with the commit and its
/// packfile, or as empty where there were no edits.
pub fn mark_recovered(names: &LogNames, seq: u64, result: &Option<RecoveredPackResult>) -> (files:
    Vec<StoredFile>)
    ensures
        crate::wal::backend::file_views(files@) == (match result {
            Some(res) => crate::wal::backend::done_files(
                names@,
                seq,
                res.commit_oid@,
                Some(res.pack_data@),
                Some(res.idx_data@),
            ),
            None => crate::wal::backend::done_files(names@, seq, "empty"@, None, None),
        }),
{
    match result {
        Some(res) => names.mark_log_done(
            seq,
            res.commit_oid.as_str(),
            Some(res.pack_data.as_slice()),
            Some(res.idx_data.as_slice()),
        ),
        None => names.mark_log_done(seq, "empty", None, None),
    }
}

// ---------------------------------------------------------------------------------------------
// What holds of recovery

/// Going through a log step by step, with the blobs fetched as they are asked for, makes the
/// same edits as going through it at once with all of them.
pub proof fn lemma_advanced(r: RecoveryView, blobs: Map<Seq<char>, Seq<u8>>)
    requires
        r.waiting is None,
    ensures
        ({
            let whole = r.state.replayed_from(r.entries, r.at as int, blobs);
            match r.advanced() {
                (next, Err(e)) => whole == (next.state, Err::<(), _>(e)),
                (next, Ok(None)) => whole == (next.state, Ok::<_, ReplayError>(())),
                (next, Ok(Some(oid))) => {
                    let base = if blobs.contains_key(oid) {
                        Some(blobs[oid])
                    } else {
                        None
                    };
                    match next.supplied(base) {
                        (then, Err(e)) => whole == (then.state, Err::<(), _>(e)),
                        (then, Ok(_)) => whole == then.state.replayed_from(
                            then.entries,
                            then.at as int,
                            blobs,
                        ) && then.entries == r.entries && then.waiting is None,
                    }
                },
            }
        }),
    decreases r.entries.len() - r.at,
{
    if r.at < r.entries.len() {
        let skipped = RecoveryView { at: r.at + 1, ..r };
        match r.entries[r.at as int].payload {
            None => {
                lemma_advanced(skipped, blobs);
            },
            Some(p) => match r.state.begun(p) {
                (_, Err(_)) => {},
                (state, Ok(None)) => {
                    lemma_advanced(RecoveryView { state, ..skipped }, blobs);
                },
                (state, Ok(Some(file))) => match file.oid {
                    Some(_) => {},
                    None => match state.finished(p, file.node, None) {
                        (_, Err(_)) => {},
                        (next, Ok(_)) => {
                            lemma_advanced(RecoveryView { state: next, ..skipped }, blobs);
                        },
                    },
                },
            },
        }
    }
}

/// Logs that were all done with leave nothing to recover.
pub proof fn lemma_all_done(seqs: Seq<u64>, done: Seq<bool>)
    requires
        seqs.len() == done.len(),
        forall|i: int| 0 <= i < done.len() ==> #[trigger] done[i],
    ensures
        not_done(seqs, done) == Seq::<u64>::empty(),
    decreases seqs.len(),
{
    if seqs.len() > 0 {
        assert(done[done.len() - 1]);
        lemma_all_done(seqs.drop_last(), done.drop_last());
    }
}

} // verus!
