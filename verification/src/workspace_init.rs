//! Creating a tandem workspace on disk: the stages it goes through, and where the
//! new workspace starts.
use vstd::prelude::*;
use vstd::string::*;

use crate::hex::{hex_text, to_hex};
use crate::order::copied;
use crate::text::models;

verus! {

/// A stage of `tandem init`.
#[derive(Debug, PartialEq, Eq)]
pub enum InitStage {
    CreateDirectory,
    ResolvePath,
    /// Read the user's settings, where they were not given.
    CreateSettings,
    CreateSigner,
    InitStores,
    LoadHead,
    /// Load the commit the server's default workspace is on, where it has one.
    LoadSource,
    /// Load this parent of it.
    LoadParent(Vec<u8>),
    MergeTrees,
    CreateCommit,
    MoveWorkspace,
    RebaseDescendants,
    PublishOperation,
    CheckOut,
}

impl InitStage {
    pub open spec fn text(self) -> Seq<char> {
        match self {
            InitStage::CreateDirectory => "cannot create workspace directory"@,
            InitStage::ResolvePath => "cannot resolve workspace path"@,
            InitStage::CreateSettings => "cannot create settings"@,
            InitStage::CreateSigner => "cannot create signer"@,
            InitStage::InitStores => "workspace init failed"@,
            InitStage::LoadHead => "workspace init failed: cannot load repository head"@,
            InitStage::LoadSource => "workspace init failed: cannot load source workspace commit"@,
            InitStage::LoadParent(id) =>
                "workspace init failed: cannot load source workspace parent "@ + hex_text(id@),
            InitStage::MergeTrees =>
                "workspace init failed: cannot merge source workspace parents"@,
            InitStage::CreateCommit =>
                "workspace init failed: cannot create initial working-copy commit"@,
            InitStage::MoveWorkspace =>
                "workspace init failed: cannot move workspace to source context"@,
            InitStage::RebaseDescendants =>
                "workspace init failed: cannot rebase rewritten descendants"@,
            InitStage::PublishOperation =>
                "workspace init failed: cannot publish initial operation"@,
            InitStage::CheckOut => "workspace init failed: cannot update working copy checkout"@,
        }
    }

    /// The sentence for a stage that failed.
    pub fn message(&self) -> (s: String)
        ensures
            s@ == self.text(),
    {
        match self {
            InitStage::CreateDirectory => "cannot create workspace directory".to_owned(),
            InitStage::ResolvePath => "cannot resolve workspace path".to_owned(),
            InitStage::CreateSettings => "cannot create settings".to_owned(),
            InitStage::CreateSigner => "cannot create signer".to_owned(),
            InitStage::InitStores => "workspace init failed".to_owned(),
            InitStage::LoadHead => {
                "workspace init failed: cannot load repository head".to_owned()
            },
            InitStage::LoadSource => {
                "workspace init failed: cannot load source workspace commit".to_owned()
            },
            InitStage::LoadParent(id) => {
                let mut s =
                    "workspace init failed: cannot load source workspace parent ".to_owned();
                s.append(to_hex(id.as_slice()).as_str());
                s
            },
            InitStage::MergeTrees => {
                "workspace init failed: cannot merge source workspace parents".to_owned()
            },
            InitStage::CreateCommit => {
                "workspace init failed: cannot create initial working-copy commit".to_owned()
            },
            InitStage::MoveWorkspace => {
                "workspace init failed: cannot move workspace to source context".to_owned()
            },
            InitStage::RebaseDescendants => {
                "workspace init failed: cannot rebase rewritten descendants".to_owned()
            },
            InitStage::PublishOperation => {
                "workspace init failed: cannot publish initial operation".to_owned()
            },
            InitStage::CheckOut => {
                "workspace init failed: cannot update working copy checkout".to_owned()
            },
        }
    }
}

/// A stage, by what it stands for.
pub enum StageModel {
    CreateDirectory,
    ResolvePath,
    CreateSettings,
    CreateSigner,
    InitStores,
    LoadHead,
    LoadSource,
    LoadParent(Seq<u8>),
    MergeTrees,
    CreateCommit,
    MoveWorkspace,
    RebaseDescendants,
    PublishOperation,
    CheckOut,
}

impl View for InitStage {
    type V = StageModel;

    open spec fn view(&self) -> StageModel {
        match self {
            InitStage::CreateDirectory => StageModel::CreateDirectory,
            InitStage::ResolvePath => StageModel::ResolvePath,
            InitStage::CreateSettings => StageModel::CreateSettings,
            InitStage::CreateSigner => StageModel::CreateSigner,
            InitStage::InitStores => StageModel::InitStores,
            InitStage::LoadHead => StageModel::LoadHead,
            InitStage::LoadSource => StageModel::LoadSource,
            InitStage::LoadParent(id) => StageModel::LoadParent(id@),
            InitStage::MergeTrees => StageModel::MergeTrees,
            InitStage::CreateCommit => StageModel::CreateCommit,
            InitStage::MoveWorkspace => StageModel::MoveWorkspace,
            InitStage::RebaseDescendants => StageModel::RebaseDescendants,
            InitStage::PublishOperation => StageModel::PublishOperation,
            InitStage::CheckOut => StageModel::CheckOut,
        }
    }
}

/// What a stage that went well brought to light.
#[derive(Debug, PartialEq, Eq)]
pub enum Learned {
    Nothing,
    /// The default workspace is on a commit.
    DefaultWorkspace,
    /// The commit has these parents.
    Parents(Vec<Vec<u8>>),
}

pub enum LearnedModel {
    Nothing,
    DefaultWorkspace,
    Parents(Seq<Seq<u8>>),
}

impl View for Learned {
    type V = LearnedModel;

    open spec fn view(&self) -> LearnedModel {
        match self {
            Learned::Nothing => LearnedModel::Nothing,
            Learned::DefaultWorkspace => LearnedModel::DefaultWorkspace,
            Learned::Parents(parents) => LearnedModel::Parents(models(parents@)),
        }
    }
}

/// How far an init has come, and what it has learned.
#[derive(Debug, PartialEq, Eq)]
pub struct InitRun {
    /// The stage that comes next, unless everything is done.
    pub stage: Option<InitStage>,
    /// The parents of the commit the default workspace is on, where there is
    /// one, and how many of them were loaded.
    pub source: Option<Vec<Vec<u8>>>,
    pub loaded: usize,
}

#[verifier::ext_equal]
pub struct RunModel {
    pub stage: Option<StageModel>,
    pub source: Option<Seq<Seq<u8>>>,
    pub loaded: nat,
}

impl View for InitRun {
    type V = RunModel;

    open spec fn view(&self) -> RunModel {
        RunModel {
            stage: match self.stage {
                Some(stage) => Some(stage@),
                None => None,
            },
            source: match self.source {
                Some(parents) => Some(models(parents@)),
                None => None,
            },
            loaded: self.loaded as nat,
        }
    }
}

/// An init that is about to begin.
pub open spec fn beginning() -> RunModel {
    RunModel { stage: Some(StageModel::CreateDirectory), source: None, loaded: 0 }
}

/// The stage once so many of the parents were loaded: the next parent, or else the
/// merge of them all.
pub open spec fn loading(parents: Seq<Seq<u8>>, loaded: nat) -> StageModel {
    if loaded < parents.len() {
        StageModel::LoadParent(parents[loaded as int])
    } else {
        StageModel::MergeTrees
    }
}

/// An init once its stage went well.
pub open spec fn went_well(run: RunModel, learned: LearnedModel) -> RunModel {
    match run.stage {
        None => run,
        Some(stage) => match stage {
            StageModel::LoadSource => {
                let parents = if let LearnedModel::Parents(parents) = learned {
                    parents
                } else {
                    Seq::empty()
                };
                RunModel { stage: Some(loading(parents, 0)), source: Some(parents), loaded: 0 }
            },
            StageModel::LoadParent(_) => {
                let parents = match run.source {
                    Some(parents) => parents,
                    None => Seq::empty(),
                };
                if run.loaded < parents.len() {
                    RunModel {
                        stage: Some(loading(parents, run.loaded + 1)),
                        source: run.source,
                        loaded: run.loaded + 1,
                    }
                } else {
                    RunModel { stage: Some(StageModel::MergeTrees), ..run }
                }
            },
            StageModel::LoadHead => RunModel {
                stage: Some(
                    if learned is DefaultWorkspace {
                        StageModel::LoadSource
                    } else {
                        StageModel::MergeTrees
                    },
                ),
                ..run
            },
            _ => RunModel { stage: following(stage), ..run },
        },
    }
}

/// The stage that follows one whatever it brings to light.
pub open spec fn following(stage: StageModel) -> Option<StageModel> {
    match stage {
        StageModel::CreateDirectory => Some(StageModel::ResolvePath),
        StageModel::ResolvePath => Some(StageModel::CreateSettings),
        StageModel::CreateSettings => Some(StageModel::CreateSigner),
        StageModel::CreateSigner => Some(StageModel::InitStores),
        StageModel::InitStores => Some(StageModel::LoadHead),
        StageModel::MergeTrees => Some(StageModel::CreateCommit),
        StageModel::CreateCommit => Some(StageModel::MoveWorkspace),
        StageModel::MoveWorkspace => Some(StageModel::RebaseDescendants),
        StageModel::RebaseDescendants => Some(StageModel::PublishOperation),
        StageModel::PublishOperation => Some(StageModel::CheckOut),
        _ => None,
    }
}

fn stage_of_loading(parents: &Vec<Vec<u8>>, loaded: usize) -> (r: InitStage)
    ensures
        r@ == loading(models(parents@), loaded as nat),
{
    if loaded < parents.len() {
        InitStage::LoadParent(copied(parents[loaded].as_slice()))
    } else {
        InitStage::MergeTrees
    }
}

impl InitRun {
    pub fn new() -> (r: Self)
        ensures
            r@ == beginning(),
    {
        InitRun { stage: Some(InitStage::CreateDirectory), source: None, loaded: 0 }
    }

    /// The stage went well: on to the next one.
    pub fn succeeded(self, learned: Learned) -> (r: Self)
        ensures
            r@ == went_well(self@, learned@),
    {
        let InitRun { stage, source, loaded } = self;
        let stage = match stage {
            Some(stage) => stage,
            None => {
                return InitRun { stage: None, source, loaded };
            },
        };
        let next = match stage {
            InitStage::CreateDirectory => Some(InitStage::ResolvePath),
            InitStage::ResolvePath => Some(InitStage::CreateSettings),
            InitStage::CreateSettings => Some(InitStage::CreateSigner),
            InitStage::CreateSigner => Some(InitStage::InitStores),
            InitStage::InitStores => Some(InitStage::LoadHead),
            InitStage::LoadHead => match learned {
                Learned::DefaultWorkspace => Some(InitStage::LoadSource),
                _ => Some(InitStage::MergeTrees),
            },
            InitStage::LoadSource => {
                let parents = match learned {
                    Learned::Parents(parents) => parents,
                    _ => Vec::new(),
                };
                assert(learned@ is Parents || models(parents@) =~= Seq::<Seq<u8>>::empty());
                let stage = stage_of_loading(&parents, 0);
                return InitRun { stage: Some(stage), source: Some(parents), loaded: 0 };
            },
            InitStage::LoadParent(_) => {
                if let Some(parents) = &source {
                    if loaded < parents.len() {
                        let stage = stage_of_loading(parents, loaded + 1);
                        return InitRun { stage: Some(stage), source, loaded: loaded + 1 };
                    }
                }
                Some(InitStage::MergeTrees)
            },
            InitStage::MergeTrees => Some(InitStage::CreateCommit),
            InitStage::CreateCommit => Some(InitStage::MoveWorkspace),
            InitStage::MoveWorkspace => Some(InitStage::RebaseDescendants),
            InitStage::RebaseDescendants => Some(InitStage::PublishOperation),
            InitStage::PublishOperation => Some(InitStage::CheckOut),
            InitStage::CheckOut => None,
        };
        InitRun { stage: next, source, loaded }
    }
}

/// An init after stages that brought these things to light.
pub open spec fn init_run(learned: Seq<LearnedModel>) -> RunModel
    decreases learned.len(),
{
    if learned.len() == 0 {
        beginning()
    } else {
        went_well(init_run(learned.drop_last()), learned.last())
    }
}

/// Where a stage stands in the order of stages; what is done stands last.
pub open spec fn place(stage: Option<StageModel>) -> nat {
    match stage {
        None => 14,
        Some(stage) => match stage {
            StageModel::CreateDirectory => 0,
            StageModel::ResolvePath => 1,
            StageModel::CreateSettings => 2,
            StageModel::CreateSigner => 3,
            StageModel::InitStores => 4,
            StageModel::LoadHead => 5,
            StageModel::LoadSource => 6,
            StageModel::LoadParent(_) => 7,
            StageModel::MergeTrees => 8,
            StageModel::CreateCommit => 9,
            StageModel::MoveWorkspace => 10,
            StageModel::RebaseDescendants => 11,
            StageModel::PublishOperation => 12,
            StageModel::CheckOut => 13,
        },
    }
}

/// Every parent of the commit the default workspace is on is loaded, one after the
/// other, before anything is merged, written or published.
pub proof fn every_parent_is_loaded_first(learned: Seq<LearnedModel>)
    ensures
        ({
            let run = init_run(learned);
            &&& run.stage matches Some(StageModel::LoadParent(id)) ==> {
                &&& run.source is Some
                &&& run.loaded < run.source->0.len()
                &&& id == run.source->0[run.loaded as int]
            }
            &&& place(run.stage) <= 6 ==> run.source is None
            &&& place(run.stage) >= 8 && run.source is Some ==> run.loaded == run.source->0.len()
        }),
    decreases learned.len(),
{
    if learned.len() > 0 {
        every_parent_is_loaded_first(learned.drop_last());
    }
}

/// An init moves on with every stage that goes well: to a later stage, or to the
/// next parent.
pub proof fn an_init_moves_on(learned: Seq<LearnedModel>, next: LearnedModel)
    requires
        init_run(learned).stage is Some,
    ensures
        ({
            let before = init_run(learned);
            let after = went_well(before, next);
            ||| place(after.stage) > place(before.stage)
            ||| {
                &&& before.stage->0 is LoadParent
                &&& after.stage->0 is LoadParent
                &&& after.source == before.source
                &&& after.loaded == before.loaded + 1
                &&& after.loaded < after.source->0.len()
            }
        }),
{
    every_parent_is_loaded_first(learned);
}

/// No stage is left out: each leads to the next in their order, but that there is no commit
/// to load where the server has no default workspace, and as many parents are loaded as the
/// commit has.
pub proof fn no_stage_is_left_out(run: RunModel, learned: LearnedModel)
    requires
        run.stage is Some,
    ensures
        ({
            let after = went_well(run, learned);
            let at = place(run.stage);
            &&& at != 5 && at != 6 && at != 7 ==> place(after.stage) == at + 1 && after.source
                == run.source && after.loaded == run.loaded
            &&& at == 5 ==> place(after.stage) == (if learned is DefaultWorkspace {
                6nat
            } else {
                8
            })
            &&& at == 6 ==> (learned matches LearnedModel::Parents(parents) ==> after.source == Some(
                parents,
            ) && after.loaded == 0 && place(after.stage) == (if parents.len() > 0 {
                7nat
            } else {
                8
            }) && (parents.len() > 0 ==> after.stage == Some(StageModel::LoadParent(parents[0]))))
            &&& at == 7 ==> (run.source matches Some(parents) ==> run.loaded + 1 < parents.len()
                ==> after.stage == Some(
                StageModel::LoadParent(parents[(run.loaded + 1) as int]),
            ))
            &&& at == 7 ==> (run.source matches Some(parents) ==> run.loaded + 1 >= parents.len()
                ==> after.stage is Some && after.stage->0 is MergeTrees)
        }),
        place(beginning().stage) == 0,
{
}

/// The parents of the first commit of a new workspace. It starts where the
/// server's default workspace already is, not at the root commit: otherwise every
/// agent would begin on its own island and the first publish would look like a
/// fork.
pub open spec fn starting_parents(source: Option<Seq<Seq<u8>>>, root: Seq<u8>) -> Seq<Seq<u8>> {
    match source {
        Some(parents) => if parents.len() == 0 {
            seq![root]
        } else {
            parents
        },
        None => seq![root],
    }
}

pub fn initial_parents(source: Option<Vec<Vec<u8>>>, root_commit_id: Vec<u8>) -> (r: Vec<Vec<u8>>)
    ensures
        models(r@) == starting_parents(
            match source {
                Some(parents) => Some(models(parents@)),
                None => None,
            },
            root_commit_id@,
        ),
{
    match source {
        Some(parents) => {
            if parents.len() > 0 {
                return parents;
            }
        },
        None => {},
    }
    let mut r: Vec<Vec<u8>> = Vec::new();
    r.push(root_commit_id);
    assert(models(r@) =~= seq![root_commit_id@]);
    r
}

/// A new workspace never starts without a parent, and where the default workspace
/// is on a commit with parents it starts beside it.
pub proof fn a_new_workspace_has_a_parent(source: Option<Seq<Seq<u8>>>, root: Seq<u8>)
    ensures
        starting_parents(source, root).len() > 0,
        source matches Some(parents) && parents.len() > 0 ==> starting_parents(source, root)
            == source->0,
        source is None || source->0.len() == 0 ==> starting_parents(source, root) == seq![root],
{
}

/// What the first operation of a new workspace is described as.
pub fn init_description(workspace_name: &str) -> (s: String)
    ensures
        s@ == "create initial working-copy commit in workspace "@ + workspace_name@,
{
    let mut s = "create initial working-copy commit in workspace ".to_owned();
    s.append(workspace_name);
    s
}

/// What `tandem init` says once it is done.
pub fn initialized_message(workspace_name: &str, path: &str, server_addr: &str) -> (s: String)
    ensures
        s@ == "Initialized tandem workspace '"@ + workspace_name@ + "' at "@ + path@
            + " (server: "@ + server_addr@ + ")"@,
{
    let mut s = "Initialized tandem workspace '".to_owned();
    s.append(workspace_name);
    s.append("' at ");
    s.append(path);
    s.append(" (server: ");
    s.append(server_addr);
    s.append(")");
    s
}

} // verus!
