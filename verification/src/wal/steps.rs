//! The order of a recovery: what is sealed, read, published and marked, one after the other.

use vstd::prelude::*;

use crate::git::engine::GitEngine;
use crate::vfs::inode::VfsView;
use crate::wal::manager;
use crate::wal::manager::{Recovery, RecoveryView, WalManager};
use crate::wal::recovery;
use crate::wal::recovery::{RecoverError, RecoveredPackResult, ReplayError, ReplayView};

verus! {

/// How far a recovery has come.
#[derive(Debug, Clone, Copy, PartialEq, Eq, Structural)]
pub enum RecoveryStage {
    /// The logs are being listed.
    Listing,
    /// All logs are being sealed.
    Locking,
    /// It is being found out which logs are done.
    Checking,
    /// A log is being read.
    Reading,
    /// A blob is being fetched that an edit starts from.
    Fetching,
    /// The commit of the recovered edits is being published.
    Publishing,
    /// The logs are being marked as done.
    Marking,
    Over,
}

/// A recovery and its order: the logs that are there, which of them are done as far as that is
/// known, the place of the log that is read or marked among those that are not, the edits so
/// far, and the commit of them.
#[verifier::ext_equal]
pub struct StepsView {
    pub stage: RecoveryStage,
    pub seqs: Seq<u64>,
    pub done: Seq<bool>,
    pub at: nat,
    pub replay: RecoveryView,
    pub result: Option<RecoveredPackResult>,
}

impl StepsView {
    /// The logs that are not done.
    pub open spec fn left(self) -> Seq<u64> {
        manager::not_done(self.seqs, self.done)
    }
}

/// What came of the work that was asked for.
pub enum RecoveryEvent {
    Listed(Seq<u64>),
    LockedOut,
    Checked(bool),
    Log(Seq<u8>),
    Blob(Option<Seq<u8>>),
    Published,
    Marked,
}

/// What has to be done next in a recovery.
pub enum RecoveryActionView {
    Lockout(Seq<u64>),
    CheckDone(u64),
    ReadLog(u64),
    FetchBlob(Seq<char>),
    Publish,
    MarkDone(u64),
    Finish,
    Fail(RecoverError),
}

/// Whether this is where a recovery goes once the commit was made, or could not be.
pub open spec fn is_concluded(
    before: StepsView,
    replayed: RecoveryView,
    made: Result<Option<RecoveredPackResult>, RecoverError>,
    vfs: VfsView,
    after: StepsView,
    action: RecoveryActionView,
) -> bool {
    let kept = StepsView {
        replay: RecoveryView { state: ReplayView { vfs, ..replayed.state }, ..replayed },
        ..before
    };
    match made {
        Err(e) => after == (StepsView { stage: RecoveryStage::Over, ..kept }) && action
            == RecoveryActionView::Fail(e),
        Ok(None) => after == (StepsView { stage: RecoveryStage::Marking, at: 0, ..kept })
            && action == RecoveryActionView::MarkDone(before.left()[0]),
        Ok(Some(result)) => after == (StepsView {
            stage: RecoveryStage::Publishing,
            result: Some(result),
            ..kept
        }) && action == RecoveryActionView::Publish,
    }
}

/// Whether a commit is that of the edits that were made.
#[verifier::opaque]
pub open spec fn is_commit_of(
    replayed: RecoveryView,
    timestamp: u64,
    made: Result<Option<RecoveredPackResult>, RecoverError>,
    vfs: VfsView,
) -> bool {
    recovery::is_built(
        replayed.state,
        vfs,
        replayed.notes.base_commit,
        replayed.notes.author,
        replayed.notes.message,
        timestamp,
        made,
    )
}

/// A recovery once a log was read and its edits were made, up to the first that waits for a
/// blob, or cannot be made.
#[verifier::opaque]
pub open spec fn log_taken(replay: RecoveryView, data: Seq<u8>) -> (
    RecoveryView,
    Result<Option<Seq<char>>, ReplayError>,
) {
    replay.with_log(data).advanced()
}

/// A recovery once the edit that waits was made, with its blob, and those behind it.
#[verifier::opaque]
pub open spec fn blob_taken(replay: RecoveryView, blob: Option<Seq<u8>>) -> (
    RecoveryView,
    Result<Option<Seq<char>>, ReplayError>,
) {
    match replay.supplied(blob) {
        (next, Err(e)) => (next, Err(e)),
        (next, Ok(_)) => next.advanced(),
    }
}

/// Whether this is where a recovery goes once edits were made: to the blob that the next edit
/// starts from, to the next log, or to the commit.
pub open spec fn is_replayed(
    before: StepsView,
    replayed: (RecoveryView, Result<Option<Seq<char>>, ReplayError>),
    timestamp: u64,
    after: StepsView,
    action: RecoveryActionView,
) -> bool {
    match replayed {
        (next, Err(e)) => after == (StepsView { stage: RecoveryStage::Over, replay: next, ..before })
            && action == RecoveryActionView::Fail(RecoverError::Replay(e)),
        (next, Ok(Some(oid))) => after == (StepsView {
            stage: RecoveryStage::Fetching,
            replay: next,
            ..before
        }) && action == RecoveryActionView::FetchBlob(oid),
        (next, Ok(None)) => if before.at + 1 < before.left().len() {
            after == (StepsView {
                stage: RecoveryStage::Reading,
                at: before.at + 1,
                replay: next,
                ..before
            }) && action == RecoveryActionView::ReadLog(before.left()[before.at as int + 1])
        } else {
            exists|made: Result<Option<RecoveredPackResult>, RecoverError>, vfs: VfsView|
                #![trigger is_commit_of(next, timestamp, made, vfs)]
                is_commit_of(next, timestamp, made, vfs) && is_concluded(
                    before,
                    next,
                    made,
                    vfs,
                    after,
                    action,
                )
        },
    }
}

/// Whether this is the step of a recovery on an event: all logs are sealed before any is looked
/// at, all that are not done are read before anything is published, and they are marked only
/// once the commit was published, where there is one.
pub open spec fn is_next(
    before: StepsView,
    event: RecoveryEvent,
    timestamp: u64,
    after: StepsView,
    action: RecoveryActionView,
) -> bool {
    let over = StepsView { stage: RecoveryStage::Over, ..before };
    match (before.stage, event) {
        (RecoveryStage::Listing, RecoveryEvent::Listed(seqs)) => if seqs.len() == 0 {
            after == over && action == RecoveryActionView::Finish
        } else {
            after == (StepsView { stage: RecoveryStage::Locking, seqs, ..before }) && action
                == RecoveryActionView::Lockout(seqs)
        },
        (RecoveryStage::Locking, RecoveryEvent::LockedOut) => after == (StepsView {
            stage: RecoveryStage::Checking,
            ..before
        }) && action == RecoveryActionView::CheckDone(before.seqs[0]),
        (RecoveryStage::Checking, RecoveryEvent::Checked(is_done)) => {
            let told = StepsView { done: before.done.push(is_done), ..before };
            if told.done.len() < before.seqs.len() {
                after == told && action == RecoveryActionView::CheckDone(
                    before.seqs[told.done.len() as int],
                )
            } else if told.left().len() == 0 {
                after == (StepsView { stage: RecoveryStage::Over, ..told }) && action
                    == RecoveryActionView::Finish
            } else {
                after == (StepsView { stage: RecoveryStage::Reading, at: 0, ..told }) && action
                    == RecoveryActionView::ReadLog(told.left()[0])
            }
        },
        (RecoveryStage::Reading, RecoveryEvent::Log(data)) => is_replayed(
            before,
            log_taken(before.replay, data),
            timestamp,
            after,
            action,
        ),
        (RecoveryStage::Fetching, RecoveryEvent::Blob(blob)) => is_replayed(
            before,
            blob_taken(before.replay, blob),
            timestamp,
            after,
            action,
        ),
        (RecoveryStage::Publishing, RecoveryEvent::Published) => after == (StepsView {
            stage: RecoveryStage::Marking,
            at: 0,
            ..before
        }) && action == RecoveryActionView::MarkDone(before.left()[0]),
        (RecoveryStage::Marking, RecoveryEvent::Marked) => if before.at + 1 < before.left().len() {
            after == (StepsView { at: before.at + 1, ..before }) && action
                == RecoveryActionView::MarkDone(before.left()[before.at as int + 1])
        } else {
            after == over && action == RecoveryActionView::Finish
        },
        _ => false,
    }
}

/// What has to be done next in a recovery.
#[derive(Debug)]
pub enum RecoveryAction {
    /// All logs are to be sealed; `locked_out` follows.
    Lockout(Vec<u64>),
    /// Whether a log is done is to be found out; `checked` follows.
    CheckDone(u64),
    /// A log is to be read; `log_read` follows.
    ReadLog(u64),
    /// A blob is to be fetched; `blob_fetched` follows.
    FetchBlob(String),
    /// The commit is to be published; `published` follows.
    Publish,
    /// A log is to be marked as done; `marked` follows.
    MarkDone(u64),
    Finish,
    Fail(RecoverError),
}

impl View for RecoveryAction {
    type V = RecoveryActionView;

    open spec fn view(&self) -> RecoveryActionView {
        match self {
            RecoveryAction::Lockout(seqs) => RecoveryActionView::Lockout(seqs@),
            RecoveryAction::CheckDone(seq) => RecoveryActionView::CheckDone(*seq),
            RecoveryAction::ReadLog(seq) => RecoveryActionView::ReadLog(*seq),
            RecoveryAction::FetchBlob(oid) => RecoveryActionView::FetchBlob(oid@),
            RecoveryAction::Publish => RecoveryActionView::Publish,
            RecoveryAction::MarkDone(seq) => RecoveryActionView::MarkDone(*seq),
            RecoveryAction::Finish => RecoveryActionView::Finish,
            RecoveryAction::Fail(e) => RecoveryActionView::Fail(*e),
        }
    }
}

/// A recovery that says what is to be done, and takes what came of it.
pub struct RecoverySteps {
    stage: RecoveryStage,
    seqs: Vec<u64>,
    done: Vec<bool>,
    left: Vec<u64>,
    at: usize,
    recovery: Recovery,
    result: Option<RecoveredPackResult>,
}

impl View for RecoverySteps {
    type V = StepsView;

    closed spec fn view(&self) -> StepsView {
        StepsView {
            stage: self.stage,
            seqs: self.seqs@,
            done: self.done@,
            at: self.at as nat,
            replay: self.recovery@,
            result: self.result,
        }
    }
}

impl RecoverySteps {
    pub closed spec fn wf(&self) -> bool {
        &&& self.recovery.wf()
        &&& match self.stage {
            RecoveryStage::Listing => self.done@.len() == 0,
            RecoveryStage::Locking => self.done@.len() == 0 && self.seqs@.len() > 0,
            RecoveryStage::Checking => self.done@.len() < self.seqs@.len(),
            RecoveryStage::Reading | RecoveryStage::Fetching | RecoveryStage::Publishing
            | RecoveryStage::Marking => self.left@ == self@.left() && self.at < self.left@.len(),
            RecoveryStage::Over => true,
        }
    }

    /// The order of a recovery, which starts with the logs that are there.
    pub fn new(recovery: Recovery) -> (steps: Self)
        requires
            recovery.wf(),
        ensures
            steps.wf(),
            steps@ == (StepsView {
                stage: RecoveryStage::Listing,
                seqs: Seq::empty(),
                done: Seq::empty(),
                at: 0,
                replay: recovery@,
                result: None,
            }),
    {
        let steps = RecoverySteps {
            stage: RecoveryStage::Listing,
            seqs: Vec::new(),
            done: Vec::new(),
            left: Vec::new(),
            at: 0,
            recovery,
            result: None,
        };
        assert(steps@.seqs =~= Seq::<u64>::empty());
        assert(steps@.done =~= Seq::<bool>::empty());
        steps
    }

    pub fn stage(&self) -> (stage: RecoveryStage)
        ensures
            stage == self@.stage,
    {
        self.stage
    }

    /// The commit of the recovered edits, where there were any.
    pub fn result(&self) -> (result: &Option<RecoveredPackResult>)
        ensures
            *result == self@.result,
    {
        &self.result
    }

    /// Lends the repository, to be read from.
    pub fn engine_mut(&mut self) -> (engine: &mut GitEngine)
        requires
            old(self).wf(),
        ensures
            engine@ == old(self)@.replay.state.vfs.engine,
            engine.wf(),
            final(engine).wf() ==> final(self).wf() && final(self)@ == (StepsView {
                replay: RecoveryView {
                    state: ReplayView {
                        vfs: VfsView {
                            engine: final(engine)@,
                            ..old(self)@.replay.state.vfs
                        },
                        ..old(self)@.replay.state
                    },
                    ..old(self)@.replay
                },
                ..old(self)@
            }),
    {
        self.recovery.engine_mut()
    }

    /// Hands the repository back, and the commit.
    pub fn into_parts(self) -> (r: (GitEngine, Option<RecoveredPackResult>))
        requires
            self.wf(),
        ensures
            r.0.wf(),
            r.0@ == self@.replay.state.vfs.engine,
            r.1 == self@.result,
    {
        (self.recovery.into_engine(), self.result)
    }

    /// Once the logs were listed.
    pub fn listed(&mut self, seqs: Vec<u64>) -> (action: RecoveryAction)
        requires
            old(self).wf(),
            old(self)@.stage == RecoveryStage::Listing,
        ensures
            final(self).wf(),
            is_next(old(self)@, RecoveryEvent::Listed(seqs@), 0, final(self)@, action@),
    {
        if seqs.len() == 0 {
            self.stage = RecoveryStage::Over;
            return RecoveryAction::Finish;
        }
        let mut all: Vec<u64> = Vec::new();
        let mut i: usize = 0;
        while i < seqs.len()
            invariant
                i <= seqs@.len(),
                all@ == seqs@.take(i as int),
            decreases seqs@.len() - i,
        {
            assert(seqs@.take(i as int + 1) =~= seqs@.take(i as int).push(seqs@[i as int]));
            all.push(seqs[i]);
            i += 1;
        }
        assert(seqs@.take(i as int) =~= seqs@);
        self.stage = RecoveryStage::Locking;
        self.seqs = seqs;
        RecoveryAction::Lockout(all)
    }

    /// Once all logs were sealed.
    pub fn locked_out(&mut self) -> (action: RecoveryAction)
        requires
            old(self).wf(),
            old(self)@.stage == RecoveryStage::Locking,
        ensures
            final(self).wf(),
            is_next(old(self)@, RecoveryEvent::LockedOut, 0, final(self)@, action@),
    {
        self.stage = RecoveryStage::Checking;
        RecoveryAction::CheckDone(self.seqs[0])
    }

    /// Once it was found out whether a log is done.
    pub fn checked(&mut self, is_done: bool) -> (action: RecoveryAction)
        requires
            old(self).wf(),
            old(self)@.stage == RecoveryStage::Checking,
        ensures
            final(self).wf(),
            is_next(old(self)@, RecoveryEvent::Checked(is_done), 0, final(self)@, action@),
    {
        self.done.push(is_done);
        let told: usize = self.done.len();
        if told < self.seqs.len() {
            return RecoveryAction::CheckDone(self.seqs[told]);
        }
        self.left = WalManager::uncommitted(&self.seqs, &self.done);
        if self.left.len() == 0 {
            self.stage = RecoveryStage::Over;
            return RecoveryAction::Finish;
        }
        self.stage = RecoveryStage::Reading;
        self.at = 0;
        RecoveryAction::ReadLog(self.left[0])
    }

    fn go_on(&mut self, timestamp: u64) -> (action: RecoveryAction)
        requires
            old(self).wf(),
            old(self)@.stage == RecoveryStage::Reading || old(self)@.stage
                == RecoveryStage::Fetching,
            old(self)@.replay.waiting is None,
        ensures
            final(self).wf(),
            is_replayed(
                old(self)@,
                old(self)@.replay.advanced(),
                timestamp,
                final(self)@,
                action@,
            ),
    {
        let ghost before = self@;
        match self.recovery.advance() {
            Err(e) => {
                self.stage = RecoveryStage::Over;
                return RecoveryAction::Fail(RecoverError::Replay(e));
            },
            Ok(Some(oid)) => {
                self.stage = RecoveryStage::Fetching;
                return RecoveryAction::FetchBlob(oid);
            },
            Ok(None) => {},
        }
        if self.left.len() - self.at > 1 {
            self.stage = RecoveryStage::Reading;
            self.at = self.at + 1;
            return RecoveryAction::ReadLog(self.left[self.at]);
        }
        let ghost replayed = self.recovery@;
        let made = self.recovery.finish(timestamp);
        reveal(is_commit_of);
        let ghost vfs = self.recovery@.state.vfs;
        assert(is_commit_of(replayed, timestamp, made, vfs));
        match made {
            Err(e) => {
                self.stage = RecoveryStage::Over;
                assert(is_concluded(before, replayed, made, vfs, self@, RecoveryActionView::Fail(e)));
                RecoveryAction::Fail(e)
            },
            Ok(None) => {
                self.stage = RecoveryStage::Marking;
                self.at = 0;
                assert(is_concluded(
                    before,
                    replayed,
                    made,
                    vfs,
                    self@,
                    RecoveryActionView::MarkDone(before.left()[0]),
                ));
                RecoveryAction::MarkDone(self.left[0])
            },
            Ok(Some(result)) => {
                self.stage = RecoveryStage::Publishing;
                self.result = Some(result);
                assert(is_concluded(
                    before,
                    replayed,
                    made,
                    vfs,
                    self@,
                    RecoveryActionView::Publish,
                ));
                RecoveryAction::Publish
            },
        }
    }

    /// Once a log was read.
    pub fn log_read(&mut self, log_bytes: &[u8], timestamp: u64) -> (action: RecoveryAction)
        requires
            old(self).wf(),
            old(self)@.stage == RecoveryStage::Reading,
        ensures
            final(self).wf(),
            is_next(
                old(self)@,
                RecoveryEvent::Log(log_bytes@),
                timestamp,
                final(self)@,
                action@,
            ),
    {
        reveal(log_taken);
        let _ = self.recovery.read_log(log_bytes);
        self.go_on(timestamp)
    }

    /// Once a blob was fetched, or could not be.
    pub fn blob_fetched(&mut self, blob: Option<&[u8]>, timestamp: u64) -> (action: RecoveryAction)
        requires
            old(self).wf(),
            old(self)@.stage == RecoveryStage::Fetching,
        ensures
            final(self).wf(),
            is_next(
                old(self)@,
                RecoveryEvent::Blob(crate::staging::maybe(blob)),
                timestamp,
                final(self)@,
                action@,
            ),
    {
        reveal(blob_taken);
        match self.recovery.supply(blob) {
            Err(e) => {
                self.stage = RecoveryStage::Over;
                RecoveryAction::Fail(RecoverError::Replay(e))
            },
            Ok(_) => self.go_on(timestamp),
        }
    }

    /// Once the commit was published.
    pub fn published(&mut self) -> (action: RecoveryAction)
        requires
            old(self).wf(),
            old(self)@.stage == RecoveryStage::Publishing,
        ensures
            final(self).wf(),
            is_next(old(self)@, RecoveryEvent::Published, 0, final(self)@, action@),
    {
        self.stage = RecoveryStage::Marking;
        self.at = 0;
        RecoveryAction::MarkDone(self.left[0])
    }

    /// Once a log was marked as done.
    pub fn marked(&mut self) -> (action: RecoveryAction)
        requires
            old(self).wf(),
            old(self)@.stage == RecoveryStage::Marking,
        ensures
            final(self).wf(),
            is_next(old(self)@, RecoveryEvent::Marked, 0, final(self)@, action@),
    {
        if self.left.len() - self.at > 1 {
            self.at = self.at + 1;
            return RecoveryAction::MarkDone(self.left[self.at]);
        }
        self.stage = RecoveryStage::Over;
        RecoveryAction::Finish
    }
}

// ---------------------------------------------------------------------------------------------
// What holds of the order

/// A step of a recovery, with what was known before and after it.
pub struct RecoveryStep {
    pub before: StepsView,
    pub event: RecoveryEvent,
    pub timestamp: u64,
    pub after: StepsView,
    pub action: RecoveryActionView,
}

/// Whether one state is another but for what the repository has read since.
pub open spec fn is_lent(a: StepsView, b: StepsView) -> bool {
    let vfs = VfsView { engine: b.replay.state.vfs.engine, ..a.replay.state.vfs };
    b == (StepsView {
        replay: RecoveryView { state: ReplayView { vfs, ..a.replay.state }, ..a.replay },
        ..a
    })
}

/// Whether steps follow one another from the listing of the logs on.
pub open spec fn is_recovery(steps: Seq<RecoveryStep>) -> bool {
    &&& steps.len() > 0
    &&& steps[0].before.stage == RecoveryStage::Listing
    &&& steps[0].before.done.len() == 0
    &&& steps[0].before.seqs.len() == 0
    &&& steps[0].before.result is None
    &&& forall|i: int|
        0 <= i < steps.len() ==> is_next(
            (#[trigger] steps[i]).before,
            steps[i].event,
            steps[i].timestamp,
            steps[i].after,
            steps[i].action,
        )
    &&& forall|i: int, j: int|
        0 <= i < steps.len() && j == i + 1 && j < steps.len() ==> is_lent(
            (#[trigger] steps[i]).after,
            (#[trigger] steps[j]).before,
        )
}

/// The logs that were asked about, in order.
pub open spec fn checks(steps: Seq<RecoveryStep>) -> Seq<u64>
    decreases steps.len(),
{
    if steps.len() == 0 {
        Seq::empty()
    } else {
        match steps.last().action {
            RecoveryActionView::CheckDone(seq) => checks(steps.drop_last()).push(seq),
            _ => checks(steps.drop_last()),
        }
    }
}

/// The answers to that, in order.
pub open spec fn answers(steps: Seq<RecoveryStep>) -> Seq<bool>
    decreases steps.len(),
{
    if steps.len() == 0 {
        Seq::empty()
    } else {
        match steps.last().event {
            RecoveryEvent::Checked(is_done) => answers(steps.drop_last()).push(is_done),
            _ => answers(steps.drop_last()),
        }
    }
}

/// The logs that were read, in order.
pub open spec fn reads(steps: Seq<RecoveryStep>) -> Seq<u64>
    decreases steps.len(),
{
    if steps.len() == 0 {
        Seq::empty()
    } else {
        match steps.last().action {
            RecoveryActionView::ReadLog(seq) => reads(steps.drop_last()).push(seq),
            _ => reads(steps.drop_last()),
        }
    }
}

/// The logs that were marked as done, in order.
pub open spec fn marks(steps: Seq<RecoveryStep>) -> Seq<u64>
    decreases steps.len(),
{
    if steps.len() == 0 {
        Seq::empty()
    } else {
        match steps.last().action {
            RecoveryActionView::MarkDone(seq) => marks(steps.drop_last()).push(seq),
            _ => marks(steps.drop_last()),
        }
    }
}

/// How often the logs were sealed.
pub open spec fn lockouts(steps: Seq<RecoveryStep>) -> nat
    decreases steps.len(),
{
    if steps.len() == 0 {
        0
    } else {
        lockouts(steps.drop_last()) + if steps.last().action is Lockout {
            1nat
        } else {
            0
        }
    }
}

/// Whether a commit was published.
pub open spec fn has_published(steps: Seq<RecoveryStep>) -> bool {
    exists|i: int| 0 <= i < steps.len() && (#[trigger] steps[i]).event is Published
}

/// The logs that a recovery started from.
pub open spec fn listing(steps: Seq<RecoveryStep>) -> Seq<u64> {
    match steps[0].event {
        RecoveryEvent::Listed(seqs) => seqs,
        _ => Seq::empty(),
    }
}

/// A state without the edits.
struct Shape {
    stage: RecoveryStage,
    seqs: Seq<u64>,
    done: Seq<bool>,
    at: nat,
    has_result: bool,
}

impl Shape {
    spec fn of(v: StepsView) -> Shape {
        Shape {
            stage: v.stage,
            seqs: v.seqs,
            done: v.done,
            at: v.at,
            has_result: v.result is Some,
        }
    }

    spec fn left(self) -> Seq<u64> {
        manager::not_done(self.seqs, self.done)
    }
}

/// What has been asked for and answered so far.
struct Trail {
    checks: Seq<u64>,
    reads: Seq<u64>,
    marks: Seq<u64>,
    published: bool,
}

spec fn trail_of(steps: Seq<RecoveryStep>) -> Trail {
    Trail {
        checks: checks(steps),
        reads: reads(steps),
        marks: marks(steps),
        published: has_published(steps),
    }
}

spec fn is_trail_next(t: Trail, event: RecoveryEvent, action: RecoveryActionView, u: Trail) -> bool {
    &&& u.checks == (match action {
        RecoveryActionView::CheckDone(seq) => t.checks.push(seq),
        _ => t.checks,
    })
    &&& u.reads == (match action {
        RecoveryActionView::ReadLog(seq) => t.reads.push(seq),
        _ => t.reads,
    })
    &&& u.marks == (match action {
        RecoveryActionView::MarkDone(seq) => t.marks.push(seq),
        _ => t.marks,
    })
    &&& t.published || event is Published ==> u.published
}

spec fn is_shape_next(
    a: Shape,
    event: RecoveryEvent,
    b: Shape,
    action: RecoveryActionView,
) -> bool {
    &&& b.seqs == a.seqs
    &&& b.done == (match event {
        RecoveryEvent::Checked(is_done) => a.done.push(is_done),
        _ => a.done,
    })
    &&& match a.stage {
        RecoveryStage::Listing | RecoveryStage::Over => false,
        RecoveryStage::Locking => b.stage is Checking && !(event is Checked) && action
            == RecoveryActionView::CheckDone(a.seqs[0]) && b.has_result == a.has_result,
        RecoveryStage::Checking => event is Checked && b.has_result == a.has_result && if (
        b.done.len() < a.seqs.len()) {
            b.stage is Checking && action == RecoveryActionView::CheckDone(
                a.seqs[b.done.len() as int],
            )
        } else if b.left().len() == 0 {
            b.stage is Over && action is Finish
        } else {
            b.stage is Reading && b.at == 0 && action == RecoveryActionView::ReadLog(b.left()[0])
        },
        RecoveryStage::Reading | RecoveryStage::Fetching => !(event is Checked) && match b.stage {
            RecoveryStage::Over => action is Fail && b.has_result == a.has_result,
            RecoveryStage::Fetching => action is FetchBlob && b.at == a.at && b.has_result
                == a.has_result,
            RecoveryStage::Reading => b.at == a.at + 1 && b.at < a.left().len() && action
                == RecoveryActionView::ReadLog(a.left()[b.at as int]) && b.has_result
                == a.has_result,
            RecoveryStage::Marking => a.at + 1 >= a.left().len() && b.at == 0 && action
                == RecoveryActionView::MarkDone(a.left()[0]) && b.has_result == a.has_result,
            RecoveryStage::Publishing => a.at + 1 >= a.left().len() && action is Publish
                && b.has_result,
            _ => false,
        },
        RecoveryStage::Publishing => event is Published && b.stage is Marking && b.at == 0
            && action == RecoveryActionView::MarkDone(a.left()[0]) && b.has_result
            == a.has_result,
        RecoveryStage::Marking => !(event is Checked) && b.has_result == a.has_result && if a.at + 1
            < a.left().len() {
            b.stage is Marking && b.at == a.at + 1 && action == RecoveryActionView::MarkDone(
                a.left()[b.at as int],
            )
        } else {
            b.stage is Over && action is Finish
        },
    }
}

proof fn lemma_shape_next(
    a: StepsView,
    lent: StepsView,
    event: RecoveryEvent,
    timestamp: u64,
    after: StepsView,
    action: RecoveryActionView,
)
    requires
        !(a.stage is Listing),
        is_lent(a, lent),
        is_next(lent, event, timestamp, after, action),
    ensures
        is_shape_next(Shape::of(a), event, Shape::of(after), action),
{
}

spec fn is_in_order(end: Shape, action: RecoveryActionView, t: Trail) -> bool {
    let left = end.left();
    let none = Seq::<u64>::empty();
    match end.stage {
        RecoveryStage::Listing => false,
        RecoveryStage::Locking => end.seqs.len() > 0 && t.checks == none && t.reads == none
            && t.marks == none && end.done.len() == 0 && !end.has_result && action is Lockout,
        RecoveryStage::Checking => end.done.len() < end.seqs.len() && t.checks == end.seqs.take(
            end.done.len() as int + 1,
        ) && t.reads == none && t.marks == none && !end.has_result && action is CheckDone,
        RecoveryStage::Reading | RecoveryStage::Fetching => end.done.len() == end.seqs.len()
            && t.checks == end.seqs && end.at < left.len() && t.reads == left.take(
            end.at as int + 1,
        ) && t.marks == none && !end.has_result && !(action is Publish) && !(action is Finish)
            && !(action is Fail),
        RecoveryStage::Publishing => end.done.len() == end.seqs.len() && t.checks == end.seqs
            && left.len() > 0 && t.reads == left && t.marks == none && end.has_result && !(
        action is Finish) && !(action is Fail),
        RecoveryStage::Marking => end.done.len() == end.seqs.len() && t.checks == end.seqs
            && t.reads == left && end.at < left.len() && t.marks == left.take(end.at as int + 1)
            && (end.has_result ==> t.published) && action is MarkDone,
        RecoveryStage::Over => end.done.len() == end.seqs.len() && t.checks == end.seqs
            && match action {
            RecoveryActionView::Finish => t.reads == left && t.marks == left && (end.has_result
                ==> t.published) && (left.len() == 0 ==> !end.has_result),
            RecoveryActionView::Fail(_) => left.len() > 0 && t.marks == none && !end.has_result
                && exists|n: int| 0 < n <= left.len() && t.reads == #[trigger] left.take(n),
            _ => false,
        },
    }
}

proof fn lemma_stays_in_order(
    a: Shape,
    asked: RecoveryActionView,
    t: Trail,
    event: RecoveryEvent,
    b: Shape,
    action: RecoveryActionView,
    u: Trail,
)
    requires
        is_in_order(a, asked, t),
        is_shape_next(a, event, b, action),
        is_trail_next(t, event, action, u),
    ensures
        is_in_order(b, action, u),
{
    let left = b.left();
    match a.stage {
        RecoveryStage::Locking => {
            assert(u.checks =~= a.seqs.take(1));
        },
        RecoveryStage::Checking => {
            let n = a.done.len() as int;
            if n + 1 < a.seqs.len() {
                assert(u.checks =~= a.seqs.take(n + 2));
            } else {
                assert(u.checks =~= a.seqs);
                if left.len() > 0 {
                    assert(u.reads =~= left.take(1));
                } else {
                    assert(left =~= Seq::<u64>::empty());
                }
            }
        },
        RecoveryStage::Reading | RecoveryStage::Fetching => {
            let at = a.at as int;
            assert(left == a.left());
            if b.stage is Reading {
                assert(u.reads =~= left.take(at + 2));
            } else if b.stage is Marking || b.stage is Publishing {
                assert(left.take(at + 1) =~= left);
                assert(b.stage is Marking ==> u.marks =~= left.take(1));
            }
        },
        RecoveryStage::Publishing => {
            assert(left == a.left());
            assert(u.marks =~= left.take(1));
        },
        RecoveryStage::Marking => {
            let at = a.at as int;
            assert(left == a.left());
            if at + 1 < left.len() {
                assert(u.marks =~= left.take(at + 2));
            } else {
                assert(left.take(at + 1) =~= left);
            }
        },
        _ => {},
    }
}

proof fn lemma_in_order(steps: Seq<RecoveryStep>)
    requires
        is_recovery(steps),
    ensures
        is_in_order(Shape::of(steps.last().after), steps.last().action, trail_of(steps)),
        steps.last().after.seqs == listing(steps),
        steps.last().after.done == answers(steps),
        listing(steps).len() > 0 ==> lockouts(steps) == 1 && steps[0].action
            == RecoveryActionView::Lockout(listing(steps)),
    decreases steps.len(),
{
    let last = steps.last();
    assert(steps[steps.len() - 1] == last);
    let first = steps.drop_last();
    if steps.len() == 1 {
        assert(first =~= Seq::<RecoveryStep>::empty());
        assert(checks(first) =~= Seq::<u64>::empty() && reads(first) =~= Seq::<u64>::empty()
            && marks(first) =~= Seq::<u64>::empty() && lockouts(first) == 0);
        assert(last.event is Listed);
        assert(answers(first) =~= Seq::<bool>::empty());
        assert(last.after.done =~= answers(steps));
        if listing(steps).len() == 0 {
            assert(last.after.seqs =~= listing(steps));
            assert(last.after.left() =~= Seq::<u64>::empty());
        }
    } else {
        assert forall|i: int| 0 <= i < first.len() implies #[trigger] first[i] == steps[i] by {}
        lemma_in_order(first);
        let prev = first.last();
        assert(prev == steps[steps.len() - 2]);
        assert(is_lent(steps[steps.len() - 2].after, steps[steps.len() - 1].before));
        lemma_shape_next(
            prev.after,
            last.before,
            last.event,
            last.timestamp,
            last.after,
            last.action,
        );
        assert(is_trail_next(trail_of(first), last.event, last.action, trail_of(steps))) by {
            if has_published(first) {
                let i = choose|i: int|
                    0 <= i < first.len() && (#[trigger] first[i]).event is Published;
                assert(steps[i].event is Published);
            }
        }
        lemma_stays_in_order(
            Shape::of(prev.after),
            prev.action,
            trail_of(first),
            last.event,
            Shape::of(last.after),
            last.action,
            trail_of(steps),
        );
        assert(!(last.action is Lockout));
    }
}

/// A recovery seals all logs, once, before it does anything else. It asks about each, in order,
/// and only then reads those that are not done, in order. It marks logs as done only once all of
/// those were read and their commit was published, where there is one; it marks each of them
/// once and no other by the time it finishes, and none where it fails.
pub proof fn lemma_recovery_order(steps: Seq<RecoveryStep>)
    requires
        is_recovery(steps),
    ensures
        ({
            let seqs = listing(steps);
            let left = manager::not_done(seqs, answers(steps));
            let end = steps.last();
            &&& seqs.len() > 0 ==> steps[0].action == RecoveryActionView::Lockout(seqs)
                && lockouts(steps) == 1
            &&& checks(steps).is_prefix_of(seqs)
            &&& reads(steps).len() > 0 ==> checks(steps) == seqs && answers(steps).len()
                == seqs.len() && reads(steps).is_prefix_of(left)
            &&& end.action is Publish ==> reads(steps) == left && marks(steps).len() == 0
            &&& marks(steps).len() > 0 ==> reads(steps) == left && marks(steps).is_prefix_of(left)
                && (end.after.result is Some ==> has_published(steps))
            &&& end.action is Finish ==> reads(steps) == left && marks(steps) == left
            &&& end.action is Fail ==> marks(steps).len() == 0
        }),
{
    lemma_in_order(steps);
    let end = steps.last().after;
    let seqs = listing(steps);
    if seqs.len() == 0 {
        assert(manager::not_done(seqs, answers(steps)) =~= Seq::<u64>::empty());
    }
}

proof fn lemma_done_when_marked(seqs: Seq<u64>, done: Seq<bool>, i: int)
    requires
        seqs.len() == done.len(),
        0 <= i < seqs.len(),
    ensures
        done[i] || manager::not_done(seqs, done).contains(seqs[i]),
    decreases seqs.len(),
{
    let before = manager::not_done(seqs.drop_last(), done.drop_last());
    let all = manager::not_done(seqs, done);
    if i == seqs.len() - 1 {
        if !done[i] {
            assert(all[all.len() - 1] == seqs[i]);
        }
    } else {
        lemma_done_when_marked(seqs.drop_last(), done.drop_last(), i);
        if before.contains(seqs[i]) {
            let k = choose|k: int| 0 <= k < before.len() && before[k] == seqs[i];
            assert(all[k] == seqs[i]);
        }
    }
}

/// Whether a log is done after a recovery: it was before, or the recovery marked it.
pub open spec fn is_done_after(steps: Seq<RecoveryStep>, seq: u64) -> bool {
    marks(steps).contains(seq) || exists|i: int|
        0 <= i < answers(steps).len() && (#[trigger] listing(steps)[i]) == seq && answers(steps)[i]
}

proof fn lemma_nothing_left(end: Shape, action: RecoveryActionView, t: Trail)
    requires
        is_in_order(end, action, t),
        end.done.len() == end.seqs.len() ==> end.left().len() == 0,
    ensures
        t.reads.len() == 0,
        t.marks.len() == 0,
        !(action is Fail),
        !(end.stage is Publishing),
        action is Finish ==> !end.has_result,
{
}

/// A recovery that follows one that finished, and is told what that left behind, finds nothing
/// more: it reads, publishes and marks nothing, and ends without a commit.
pub proof fn lemma_second_recovery(steps: Seq<RecoveryStep>, again: Seq<RecoveryStep>)
    requires
        is_recovery(steps),
        steps.last().action is Finish,
        is_recovery(again),
        listing(again) == listing(steps),
        forall|i: int|
            0 <= i < answers(again).len() && i < listing(steps).len() ==> #[trigger] answers(
                again,
            )[i] == is_done_after(steps, listing(steps)[i]),
    ensures
        reads(again).len() == 0,
        marks(again).len() == 0,
        !(again.last().action is Publish),
        !(again.last().action is Fail),
        again.last().action is Finish ==> again.last().after.result is None,
{
    lemma_in_order(steps);
    lemma_in_order(again);
    let seqs = listing(steps);
    let told = answers(again);
    if told.len() == seqs.len() {
        assert forall|i: int| 0 <= i < told.len() implies #[trigger] told[i] by {
            lemma_done_when_marked(seqs, answers(steps), i);
            assert(answers(again)[i] == is_done_after(steps, seqs[i]));
            if answers(steps)[i] {
                assert(listing(steps)[i] == seqs[i]);
            }
        }
        manager::lemma_all_done(seqs, told);
    }
    lemma_nothing_left(
        Shape::of(again.last().after),
        again.last().action,
        trail_of(again),
    );
}

} // verus!
