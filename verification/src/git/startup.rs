//! What is read of a repository before it is shown: its commit and all its trees.

use vstd::prelude::*;

use crate::git::engine;
use crate::git::engine::{EngineError, EngineView, GitEngine, TreeLoader};
use crate::git::tree;
use crate::git::tree::{TreeEntryMode, TreeItem};

verus! {

/// How far the start has come.
#[derive(Debug, Clone, Copy, PartialEq, Eq, Structural)]
pub enum StartupStage {
    /// The commit is being resolved.
    Head,
    /// The packfile with the trees is being looked for on disk.
    TreePack,
    /// The packfile with the trees is being fetched.
    FetchTrees,
    /// The commit is being read.
    Commit,
    /// A tree is being read.
    Tree,
    /// The start is over.
    Over,
}

/// What has happened since the last step of the start.
pub enum StartupEvent {
    /// The commit was resolved.
    Resolved(String),
    /// What was asked for was read, or could not be.
    Read(Option<Vec<u8>>),
}

/// What has to be done next.
pub enum StartupAction {
    /// Look for the packfile with the trees of a commit on disk.
    ReadTreePack(String),
    /// Fetch the packfile with the trees of a commit from the server, and keep it on disk.
    FetchTrees(String),
    /// Read an object from the bucket.
    ReadObject(String),
    /// The root tree is there.
    Done(String),
    Fail(EngineError),
}

/// What has happened, by the characters and bytes.
pub enum StartupEventView {
    Resolved(Seq<char>),
    Read(Option<Seq<u8>>),
}

/// What has to be done, by the characters.
pub enum StartupActionView {
    ReadTreePack(Seq<char>),
    FetchTrees(Seq<char>),
    ReadObject(Seq<char>),
    Done(Seq<char>),
    Fail(EngineError),
}

impl View for StartupEvent {
    type V = StartupEventView;

    open spec fn view(&self) -> StartupEventView {
        match self {
            StartupEvent::Resolved(oid) => StartupEventView::Resolved(oid@),
            StartupEvent::Read(Some(data)) => StartupEventView::Read(Some(data@)),
            StartupEvent::Read(None) => StartupEventView::Read(None),
        }
    }
}

impl View for StartupAction {
    type V = StartupActionView;

    open spec fn view(&self) -> StartupActionView {
        match self {
            StartupAction::ReadTreePack(oid) => StartupActionView::ReadTreePack(oid@),
            StartupAction::FetchTrees(oid) => StartupActionView::FetchTrees(oid@),
            StartupAction::ReadObject(oid) => StartupActionView::ReadObject(oid@),
            StartupAction::Done(oid) => StartupActionView::Done(oid@),
            StartupAction::Fail(e) => StartupActionView::Fail(*e),
        }
    }
}

/// Where the repository lies, how far the start has come, the commit and the root tree once they
/// are known, the tree that is being read, and those behind it.
#[verifier::ext_equal]
pub struct StartupView {
    pub in_bucket: bool,
    pub stage: StartupStage,
    pub commit: Seq<char>,
    pub root: Seq<char>,
    pub pending: Seq<char>,
    pub queue: Seq<Seq<char>>,
}

impl StartupView {
    /// Whether an event can come now.
    pub open spec fn is_due(self, event: StartupEventView) -> bool {
        match self.stage {
            StartupStage::Head => event is Resolved,
            StartupStage::Over => false,
            _ => event is Read,
        }
    }

    /// On to the next tree that is not known, or to the end where there is none.
    pub open spec fn advanced(self, engine: EngineView) -> (
        EngineView,
        StartupView,
        StartupActionView,
    ) {
        let rest = engine::unknown_from(self.queue, engine.trees);
        if rest.len() > 0 {
            (
                engine,
                StartupView {
                    stage: StartupStage::Tree,
                    pending: rest[0],
                    queue: rest.drop_first(),
                    ..self
                },
                StartupActionView::ReadObject(rest[0]),
            )
        } else {
            (
                EngineView { root_tree: Some(self.root), ..engine },
                StartupView { stage: StartupStage::Over, queue: rest, ..self },
                StartupActionView::Done(self.root),
            )
        }
    }

    /// The start, over.
    pub open spec fn ended(self) -> StartupView {
        StartupView { stage: StartupStage::Over, ..self }
    }

    /// Whether a step leads from a repository and a start to others, with an action. On a server
    /// the trees come in one packfile, from disk or else from the server. In a bucket they are
    /// read one by one, from the root on, and those that cannot be read are passed over. A tag
    /// that is read in place of a commit leads to the commit that it stands for.
    pub open spec fn is_step(
        self,
        before: EngineView,
        event: StartupEventView,
        after: EngineView,
        next: StartupView,
        action: StartupActionView,
    ) -> bool {
        match event {
            StartupEventView::Resolved(oid) => {
                &&& after == EngineView { commit: Some(oid), ..before }
                &&& next == StartupView {
                    commit: oid,
                    stage: if self.in_bucket {
                        StartupStage::Commit
                    } else {
                        StartupStage::TreePack
                    },
                    ..self
                }
                &&& action == if self.in_bucket {
                    StartupActionView::ReadObject(oid)
                } else {
                    StartupActionView::ReadTreePack(oid)
                }
            },
            StartupEventView::Read(read) => match self.stage {
                StartupStage::Tree => {
                    let (engine, queue) = engine::fed(before, self.queue, self.pending, read);
                    (after, next, action) == (StartupView { queue, ..self }).advanced(engine)
                },
                StartupStage::Commit => match read {
                    None => {
                        &&& after == before
                        &&& next == self.ended()
                        &&& action == StartupActionView::Fail(EngineError::Fetch)
                    },
                    Some(commit) => match engine::tag_target(commit) {
                        Some(oid) => {
                            &&& after == EngineView { commit: Some(oid), ..before }
                            &&& next == StartupView { commit: oid, ..self }
                            &&& action == StartupActionView::ReadObject(oid)
                        },
                        None => match engine::root_tree_of(commit) {
                            None => {
                                &&& after == before
                                &&& next == self.ended()
                                &&& action == StartupActionView::Fail(EngineError::NoRootTree)
                            },
                            Some(root) => (after, next, action) == (StartupView {
                                root,
                                queue: seq![root],
                                ..self
                            }).advanced(before),
                        },
                    },
                },
                _ => match read {
                    None => {
                        &&& after == before
                        &&& if self.stage == StartupStage::TreePack {
                            next == (StartupView { stage: StartupStage::FetchTrees, ..self })
                                && action == StartupActionView::FetchTrees(self.commit)
                        } else {
                            next == self.ended() && action == StartupActionView::Fail(
                                EngineError::Fetch,
                            )
                        }
                    },
                    Some(pack) => {
                        &&& next == self.ended()
                        &&& match action {
                            StartupActionView::Done(root) => engine::is_load(
                                before,
                                after,
                                self.commit,
                                pack,
                                Ok(root),
                            ),
                            StartupActionView::Fail(e) => engine::is_load(
                                before,
                                after,
                                self.commit,
                                pack,
                                Err(e),
                            ),
                            _ => false,
                        }
                    },
                },
            },
        }
    }
}

/// The start of a repository.
pub struct Startup {
    in_bucket: bool,
    stage: StartupStage,
    commit: String,
    root: String,
    pending: String,
    loader: TreeLoader,
}

impl View for Startup {
    type V = StartupView;

    closed spec fn view(&self) -> StartupView {
        StartupView {
            in_bucket: self.in_bucket,
            stage: self.stage,
            commit: self.commit@,
            root: self.root@,
            pending: self.pending@,
            queue: self.loader@,
        }
    }
}

impl Startup {
    pub closed spec fn wf(&self) -> bool {
        self.loader.wf()
    }

    /// The start of a repository in a bucket, or on a server.
    pub fn new(in_bucket: bool) -> (startup: Self)
        ensures
            startup.wf(),
            startup@.in_bucket == in_bucket,
            startup@.stage == StartupStage::Head,
    {
        Startup {
            in_bucket,
            stage: StartupStage::Head,
            commit: String::new(),
            root: String::new(),
            pending: String::new(),
            loader: TreeLoader::new(""),
        }
    }

    /// How far the start has come.
    pub fn stage(&self) -> (stage: StartupStage)
        ensures
            stage == self@.stage,
    {
        self.stage
    }

    fn advance(&mut self, engine: &mut GitEngine) -> (action: StartupAction)
        requires
            old(self).wf(),
            old(engine).wf(),
        ensures
            final(self).wf(),
            final(engine).wf(),
            (final(engine)@, final(self)@, action@) == old(self)@.advanced(old(engine)@),
    {
        match self.loader.next(engine) {
            Some(oid) => {
                self.stage = StartupStage::Tree;
                self.pending = oid.clone();
                StartupAction::ReadObject(oid)
            },
            None => {
                self.stage = StartupStage::Over;
                engine.set_root_tree(self.root.as_str());
                StartupAction::Done(self.root.clone())
            },
        }
    }

    fn load(&mut self, engine: &mut GitEngine, pack: &[u8]) -> (action: StartupAction)
        requires
            old(self).wf(),
            old(engine).wf(),
        ensures
            final(self).wf(),
            final(engine).wf(),
            final(self)@ == old(self)@.ended(),
            match action@ {
                StartupActionView::Done(root) => engine::is_load(
                    old(engine)@,
                    final(engine)@,
                    old(self)@.commit,
                    pack@,
                    Ok(root),
                ),
                StartupActionView::Fail(e) => engine::is_load(
                    old(engine)@,
                    final(engine)@,
                    old(self)@.commit,
                    pack@,
                    Err(e),
                ),
                _ => false,
            },
    {
        self.stage = StartupStage::Over;
        match engine.load_trees(self.commit.as_str(), pack) {
            Ok(root) => StartupAction::Done(root),
            Err(e) => StartupAction::Fail(e),
        }
    }
}

impl GitEngine {
    /// Takes the next step of the start: from what has happened to what has to be done.
    pub fn initialize(&mut self, startup: &mut Startup, event: StartupEvent) -> (action:
        StartupAction)
        requires
            old(self).wf(),
            old(startup).wf(),
            old(startup)@.is_due(event@),
        ensures
            final(self).wf(),
            final(startup).wf(),
            old(startup)@.is_step(
                old(self)@,
                event@,
                final(self)@,
                final(startup)@,
                action@,
            ),
    {
        match event {
            StartupEvent::Resolved(oid) => {
                self.set_commit(oid.as_str());
                startup.commit = oid.clone();
                if startup.in_bucket {
                    startup.stage = StartupStage::Commit;
                    StartupAction::ReadObject(oid)
                } else {
                    startup.stage = StartupStage::TreePack;
                    StartupAction::ReadTreePack(oid)
                }
            },
            StartupEvent::Read(read) => match startup.stage {
                StartupStage::Tree => {
                    let raw: Option<&[u8]> = match &read {
                        Some(data) => Some(data.as_slice()),
                        None => None,
                    };
                    startup.loader.feed(self, startup.pending.as_str(), raw);
                    startup.advance(self)
                },
                StartupStage::Commit => match read {
                    None => {
                        startup.stage = StartupStage::Over;
                        StartupAction::Fail(EngineError::Fetch)
                    },
                    Some(commit) => {
                        match engine::find_tag_target(commit.as_slice()) {
                            Some(oid) => {
                                self.set_commit(oid.as_str());
                                startup.commit = oid.clone();
                                return StartupAction::ReadObject(oid);
                            },
                            None => {},
                        }
                        match engine::find_root_tree(commit.as_slice()) {
                            None => {
                                startup.stage = StartupStage::Over;
                                StartupAction::Fail(EngineError::NoRootTree)
                            },
                            Some(root) => {
                                startup.loader = TreeLoader::new(root.as_str());
                                startup.root = root;
                                startup.advance(self)
                            },
                        }
                    },
                },
                _ => match read {
                    None => {
                        if matches!(startup.stage, StartupStage::TreePack) {
                            startup.stage = StartupStage::FetchTrees;
                            StartupAction::FetchTrees(startup.commit.clone())
                        } else {
                            startup.stage = StartupStage::Over;
                            StartupAction::Fail(EngineError::Fetch)
                        }
                    },
                    Some(pack) => startup.load(self, pack.as_slice()),
                },
            },
        }
    }
}

impl StartupView {
    /// The trees that are still to come: the one that is being read, and those behind it.
    pub open spec fn waiting(self) -> Seq<Seq<char>> {
        if self.stage == StartupStage::Tree {
            self.queue.push(self.pending)
        } else {
            self.queue
        }
    }

    /// Whether a tree is known, or still to come, or was passed over.
    pub open spec fn accounts_for(
        self,
        engine: EngineView,
        passed_over: Set<Seq<char>>,
        oid: Seq<char>,
    ) -> bool {
        engine.trees.contains_key(oid) || self.waiting().contains(oid) || passed_over.contains(oid)
    }

    /// Whether the root, and each directory in a tree that is known, is known, or still to come,
    /// or was passed over.
    pub open spec fn covers(self, engine: EngineView, passed_over: Set<Seq<char>>) -> bool {
        &&& self.accounts_for(engine, passed_over, self.root)
        &&& forall|oid: Seq<char>, i: int|
            #![trigger engine.trees[oid][i]]
            engine.trees.contains_key(oid) && 0 <= i < engine.trees[oid].len()
                && engine.trees[oid][i].mode == TreeEntryMode::Directory ==> self.accounts_for(
                engine,
                passed_over,
                engine.trees[oid][i].oid,
            )
    }
}

/// The trees that were passed over, with the one that was being read where it could not be.
pub open spec fn with_passed(
    passed_over: Set<Seq<char>>,
    pending: Seq<char>,
    read: Option<Seq<u8>>,
) -> Set<Seq<char>> {
    match read {
        Some(data) => match tree::tree_from(data, 0) {
            Ok(_) => passed_over,
            Err(_) => passed_over.insert(pending),
        },
        None => passed_over.insert(pending),
    }
}

proof fn lemma_unknown_from(queue: Seq<Seq<char>>, trees: Map<Seq<char>, Seq<TreeItem>>)
    ensures
        forall|oid: Seq<char>| #[trigger]
            queue.contains(oid) ==> trees.contains_key(oid) || engine::unknown_from(
                queue,
                trees,
            ).contains(oid),
    decreases queue.len(),
{
    if queue.len() > 0 && trees.contains_key(queue[0]) {
        lemma_unknown_from(queue.drop_first(), trees);
        assert forall|oid: Seq<char>| #[trigger] queue.contains(oid) implies trees.contains_key(
            oid,
        ) || engine::unknown_from(queue, trees).contains(oid) by {
            let i = choose|i: int| 0 <= i < queue.len() && queue[i] == oid;
            if i > 0 {
                assert(queue.drop_first()[i - 1] == oid);
                assert(queue.drop_first().contains(oid));
            }
        }
    }
}

proof fn lemma_unknown_dirs(items: Seq<TreeItem>, trees: Map<Seq<char>, Seq<TreeItem>>)
    ensures
        forall|i: int|
            0 <= i < items.len() && (#[trigger] items[i]).mode == TreeEntryMode::Directory
                ==> trees.contains_key(items[i].oid) || engine::unknown_dirs(
                items,
                trees,
            ).contains(items[i].oid),
    decreases items.len(),
{
    if items.len() > 0 {
        let rest = items.drop_last();
        lemma_unknown_dirs(rest, trees);
        let before = engine::unknown_dirs(rest, trees);
        let all = engine::unknown_dirs(items, trees);
        assert forall|i: int|
            0 <= i < items.len() && (#[trigger] items[i]).mode
                == TreeEntryMode::Directory implies trees.contains_key(items[i].oid)
            || all.contains(items[i].oid) by {
            if i < rest.len() {
                assert(rest[i] == items[i]);
                if before.contains(items[i].oid) {
                    let k = choose|k: int| 0 <= k < before.len() && before[k] == items[i].oid;
                    assert(all[k] == items[i].oid);
                }
            } else if !trees.contains_key(items[i].oid) {
                assert(all[before.len() as int] == items[i].oid);
            }
        }
    }
}

proof fn lemma_advanced(v: StartupView, engine: EngineView, passed_over: Set<Seq<char>>)
    requires
        v.stage != StartupStage::Tree,
        v.covers(engine, passed_over),
    ensures
        ({
            let (after, next, action) = v.advanced(engine);
            next.covers(after, passed_over) && (action is Done ==> next.waiting().len() == 0)
        }),
{
    let (after, next, action) = v.advanced(engine);
    let rest = engine::unknown_from(v.queue, engine.trees);
    lemma_unknown_from(v.queue, engine.trees);
    assert forall|oid: Seq<char>| v.accounts_for(engine, passed_over, oid) implies #[trigger]
        next.accounts_for(after, passed_over, oid) by {
        if v.queue.contains(oid) && !engine.trees.contains_key(oid) {
            let k = choose|k: int| 0 <= k < rest.len() && rest[k] == oid;
            if k > 0 {
                assert(next.waiting()[k - 1] == oid);
            } else {
                assert(next.waiting()[next.queue.len() as int] == oid);
            }
        }
    }
    assert forall|oid: Seq<char>, i: int|
        #![trigger after.trees[oid][i]]
        after.trees.contains_key(oid) && 0 <= i < after.trees[oid].len()
            && after.trees[oid][i].mode == TreeEntryMode::Directory implies next.accounts_for(
        after,
        passed_over,
        after.trees[oid][i].oid,
    ) by {
        assert(engine.trees[oid][i] == after.trees[oid][i]);
        assert(v.accounts_for(engine, passed_over, engine.trees[oid][i].oid));
    }
    assert(next.accounts_for(after, passed_over, next.root));
}

/// In a bucket, once the commit was read, the root tree is the one that is read first, and nothing
/// else is missing of a repository of which no tree was known.
pub proof fn lemma_root_first(
    v: StartupView,
    before: EngineView,
    commit: Seq<u8>,
    after: EngineView,
    next: StartupView,
    action: StartupActionView,
)
    requires
        v.stage == StartupStage::Commit,
        before.trees == Map::<Seq<char>, Seq<TreeItem>>::empty(),
        engine::tag_target(commit) is None,
        engine::root_tree_of(commit) is Some,
        v.is_step(before, StartupEventView::Read(Some(commit)), after, next, action),
    ensures
        next.root == engine::root_tree_of(commit)->0,
        next.stage == StartupStage::Tree,
        action == StartupActionView::ReadObject(next.root),
        next.covers(after, Set::empty()),
{
    let root = engine::root_tree_of(commit)->0;
    let started = StartupView { root, queue: seq![root], ..v };
    assert(started.waiting()[0] == root);
    assert(started.covers(before, Set::empty()));
    lemma_advanced(started, before, Set::empty());
}

/// Reading the trees of a repository in a bucket loses none: after each step, the root and each
/// directory in a tree that is known is known too, or still to come, or could not be read. In the
/// end, none is still to come.
pub proof fn lemma_trees_covered(
    v: StartupView,
    before: EngineView,
    read: Option<Seq<u8>>,
    after: EngineView,
    next: StartupView,
    action: StartupActionView,
    passed_over: Set<Seq<char>>,
)
    requires
        v.stage == StartupStage::Tree,
        v.covers(before, passed_over),
        v.is_step(before, StartupEventView::Read(read), after, next, action),
    ensures
        next.root == v.root,
        next.covers(after, with_passed(passed_over, v.pending, read)),
        action is Done ==> next.waiting().len() == 0 && after.root_tree == Some(v.root),
{
    let passed = with_passed(passed_over, v.pending, read);
    let (engine, queue) = engine::fed(before, v.queue, v.pending, read);
    let fed = StartupView { queue, ..v };
    let idle = StartupView { stage: StartupStage::Over, ..fed };
    let parsed = match read {
        Some(data) => match tree::tree_from(data, 0) {
            Ok(items) => Some(items),
            Err(_) => None,
        },
        None => None,
    };
    if parsed is Some {
        lemma_unknown_dirs(parsed->0, before.trees);
    }
    assert forall|oid: Seq<char>| v.accounts_for(before, passed_over, oid) implies #[trigger]
        idle.accounts_for(engine, passed, oid) by {
        if v.waiting().contains(oid) {
            let k = choose|k: int| 0 <= k < v.waiting().len() && v.waiting()[k] == oid;
            if k < v.queue.len() {
                assert(idle.waiting()[k] == oid);
            }
        }
    }
    assert forall|oid: Seq<char>, i: int|
        #![trigger engine.trees[oid][i]]
        engine.trees.contains_key(oid) && 0 <= i < engine.trees[oid].len()
            && engine.trees[oid][i].mode == TreeEntryMode::Directory implies idle.accounts_for(
        engine,
        passed,
        engine.trees[oid][i].oid,
    ) by {
        let dir = engine.trees[oid][i].oid;
        if parsed is Some && oid == v.pending {
            let found = engine::unknown_dirs(parsed->0, before.trees);
            assert(parsed->0[i] == engine.trees[oid][i]);
            if found.contains(dir) {
                let k = choose|k: int| 0 <= k < found.len() && found[k] == dir;
                assert(idle.waiting()[v.queue.len() + k] == dir);
            }
        } else {
            assert(before.trees[oid][i] == engine.trees[oid][i]);
            assert(v.accounts_for(before, passed_over, dir));
        }
    }
    assert(idle.accounts_for(engine, passed, idle.root));
    lemma_advanced(idle, engine, passed);
}

} // verus!
