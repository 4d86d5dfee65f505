//! Checking the scope of a publish, one step at a time: what was read goes in, what
//! has to be read next comes out.
//!
//! The order is load-bearing. The published operation comes first, then the heads of
//! the server, then the walk that finds every parent in the history under them, and
//! only then the views that the publish is measured against: a parent is evidence
//! once it was found there, and not before.
use vstd::prelude::*;

use crate::authority::{
    accepted_parents_are_served, assemble_bases, is_served, is_smallest, merge_base, search_ends,
    served_head_ids, served_round, served_run, served_start, served_took, BaseAnswer, Bases,
    FailureModel, KnownOps, ScopeFailure, ServedModel, ServedStep, ServedWalk, MAX_HISTORY_WALK,
};
use crate::hex::{hex_value, HexError};
use crate::order::copied;
use crate::text::models;

verus! {

/// The view that is published, and the view of the empty repo.
#[derive(Debug, PartialEq, Eq)]
pub struct ScopeViews<T> {
    pub published: T,
    pub empty_repo: T,
}

/// How far a check has come: what it waits to be given.
#[derive(Debug, PartialEq, Eq)]
pub enum ScopeStage<T> {
    /// The parents of the published operation, and its view.
    Published { new_id: Vec<u8>, root: Vec<u8>, empty_repo: T },
    /// The operation heads of the server, in hex.
    Heads { root: Vec<u8>, views: ScopeViews<T> },
    /// The parents of `asked`, for the walk through the served history.
    History { walk: ServedWalk, asked: Vec<u8>, views: ScopeViews<T> },
    /// The view of `asked`, a parent or a head.
    Base { inherited: Vec<T>, served: Vec<T>, asked: Vec<u8>, views: ScopeViews<T> },
    /// The parents of `asked`, for the search for a merge base.
    MergeBase {
        known: KnownOps,
        asked: Vec<u8>,
        inherited: Vec<T>,
        served: Vec<T>,
        views: ScopeViews<T>,
    },
    /// The view of `asked`, the merge base.
    MergeView { asked: Vec<u8>, inherited: Vec<T>, served: Vec<T>, views: ScopeViews<T> },
    /// What the token's rules say of `view` against the bases.
    Measure { view: T, bases: Bases<T> },
    /// Nothing: the check is over.
    Settled(Result<(), ScopeFailure>),
}

/// A check of one publish. The parents of the published operation and the heads of
/// the server are there once they were given.
#[derive(Debug, PartialEq, Eq)]
pub struct ScopeCheck<T> {
    pub parents: Vec<Vec<u8>>,
    pub heads: Vec<Vec<u8>>,
    pub stage: ScopeStage<T>,
}

/// What a check is given.
#[derive(Debug, PartialEq, Eq)]
pub enum ScopeAnswer<T> {
    /// The parents of the published operation, and its view.
    Published(Vec<Vec<u8>>, T),
    /// The operation heads of the server, in hex.
    Heads(Vec<String>),
    /// The parents of the operation that was asked for.
    Parents(Vec<Vec<u8>>),
    /// The view of the operation that was asked for.
    View(T),
    /// What was asked for could not be read.
    Unread(String),
    /// The operation could be read, but not its view.
    NoView(String),
    /// The token's rules allow the publish.
    Allowed,
    /// They do not, for this reason.
    Denied(String),
}

// ─── As mathematical values ───────────────────────────────────────────────────

#[verifier::ext_equal]
pub struct BasesModel<T> {
    pub inherited: Seq<T>,
    pub merge_base: Option<T>,
    pub served: Seq<T>,
}

impl<T> View for Bases<T> {
    type V = BasesModel<T>;

    open spec fn view(&self) -> BasesModel<T> {
        BasesModel {
            inherited: self.inherited@,
            merge_base: self.merge_base,
            served: self.served@,
        }
    }
}

#[verifier::ext_equal]
pub enum StageModel<T> {
    Published { new_id: Seq<u8>, root: Seq<u8>, empty_repo: T },
    Heads { root: Seq<u8>, views: ScopeViews<T> },
    History { walk: ServedModel, asked: Seq<u8>, views: ScopeViews<T> },
    Base { inherited: Seq<T>, served: Seq<T>, asked: Seq<u8>, views: ScopeViews<T> },
    MergeBase {
        known: Seq<(Seq<u8>, Seq<Seq<u8>>)>,
        asked: Seq<u8>,
        inherited: Seq<T>,
        served: Seq<T>,
        views: ScopeViews<T>,
    },
    MergeView { asked: Seq<u8>, inherited: Seq<T>, served: Seq<T>, views: ScopeViews<T> },
    Measure { view: T, bases: BasesModel<T> },
    Settled(Result<(), FailureModel>),
}

impl<T> View for ScopeStage<T> {
    type V = StageModel<T>;

    open spec fn view(&self) -> StageModel<T> {
        match *self {
            ScopeStage::Published { new_id, root, empty_repo } => StageModel::Published {
                new_id: new_id@,
                root: root@,
                empty_repo,
            },
            ScopeStage::Heads { root, views } => StageModel::Heads { root: root@, views },
            ScopeStage::History { walk, asked, views } => StageModel::History {
                walk: walk@,
                asked: asked@,
                views,
            },
            ScopeStage::Base { inherited, served, asked, views } => StageModel::Base {
                inherited: inherited@,
                served: served@,
                asked: asked@,
                views,
            },
            ScopeStage::MergeBase { known, asked, inherited, served, views } =>
                StageModel::MergeBase {
                known: known@,
                asked: asked@,
                inherited: inherited@,
                served: served@,
                views,
            },
            ScopeStage::MergeView { asked, inherited, served, views } => StageModel::MergeView {
                asked: asked@,
                inherited: inherited@,
                served: served@,
                views,
            },
            ScopeStage::Measure { view, bases } => StageModel::Measure { view, bases: bases@ },
            ScopeStage::Settled(result) => StageModel::Settled(
                match result {
                    Ok(_) => Ok(()),
                    Err(failure) => Err(failure@),
                },
            ),
        }
    }
}

#[verifier::ext_equal]
pub struct CheckModel<T> {
    pub parents: Seq<Seq<u8>>,
    pub heads: Seq<Seq<u8>>,
    pub stage: StageModel<T>,
}

impl<T> View for ScopeCheck<T> {
    type V = CheckModel<T>;

    open spec fn view(&self) -> CheckModel<T> {
        CheckModel { parents: models(self.parents@), heads: models(self.heads@), stage: self.stage@ }
    }
}

#[verifier::ext_equal]
pub enum AnswerModel<T> {
    Published(Seq<Seq<u8>>, T),
    Heads(Seq<Seq<char>>),
    Parents(Seq<Seq<u8>>),
    View(T),
    Unread(Seq<char>),
    NoView(Seq<char>),
    Allowed,
    Denied(Seq<char>),
}

impl<T> View for ScopeAnswer<T> {
    type V = AnswerModel<T>;

    open spec fn view(&self) -> AnswerModel<T> {
        match *self {
            ScopeAnswer::Published(parents, view) => AnswerModel::Published(models(parents@), view),
            ScopeAnswer::Heads(heads) => AnswerModel::Heads(models(heads@)),
            ScopeAnswer::Parents(parents) => AnswerModel::Parents(models(parents@)),
            ScopeAnswer::View(view) => AnswerModel::View(view),
            ScopeAnswer::Unread(why) => AnswerModel::Unread(why@),
            ScopeAnswer::NoView(why) => AnswerModel::NoView(why@),
            ScopeAnswer::Allowed => AnswerModel::Allowed,
            ScopeAnswer::Denied(why) => AnswerModel::Denied(why@),
        }
    }
}

// ─── The steps ────────────────────────────────────────────────────────────────

/// A check that is about to begin.
pub open spec fn beginning<T>(new_id: Seq<u8>, root: Seq<u8>, empty_repo: T) -> CheckModel<T> {
    CheckModel {
        parents: Seq::empty(),
        heads: Seq::empty(),
        stage: StageModel::Published { new_id, root, empty_repo },
    }
}

/// The check, once it failed.
pub open spec fn failed<T>(check: CheckModel<T>, failure: FailureModel) -> CheckModel<T> {
    CheckModel { stage: StageModel::Settled(Err(failure)), ..check }
}

/// The check, once everything it is measured against is there. With no parent and no
/// head at all that is the empty repo.
pub open spec fn measured<T>(
    check: CheckModel<T>,
    inherited: Seq<T>,
    served: Seq<T>,
    merge_base: Option<T>,
    views: ScopeViews<T>,
) -> CheckModel<T> {
    CheckModel {
        stage: StageModel::Measure {
            view: views.published,
            bases: BasesModel {
                inherited,
                merge_base,
                served: if inherited.len() == 0 && served.len() == 0 {
                    seq![views.empty_repo]
                } else {
                    served
                },
            },
        },
        ..check
    }
}

/// What the search for a merge base leads to. Only a merge has one.
pub open spec fn searches<T>(
    check: CheckModel<T>,
    known: Seq<(Seq<u8>, Seq<Seq<u8>>)>,
    inherited: Seq<T>,
    served: Seq<T>,
    views: ScopeViews<T>,
    after: CheckModel<T>,
) -> bool {
    if check.parents.len() < 2 {
        after == measured(check, inherited, served, None, views)
    } else {
        exists|answer: BaseAnswer, rounds: nat| #[trigger]
            search_ends(known, check.parents, rounds, answer) && after == (match answer {
                BaseAnswer::Found(id) => CheckModel {
                    stage: StageModel::MergeView { asked: id@, inherited, served, views },
                    ..check
                },
                BaseAnswer::NotFound => measured(check, inherited, served, None, views),
                BaseAnswer::Need(id) => CheckModel {
                    stage: StageModel::MergeBase { known, asked: id@, inherited, served, views },
                    ..check
                },
            })
    }
}

/// What is read of the bases next: the views of the parents in order, then those of
/// the heads in order, then the merge base is searched for.
pub open spec fn reads_bases<T>(
    check: CheckModel<T>,
    inherited: Seq<T>,
    served: Seq<T>,
    views: ScopeViews<T>,
    after: CheckModel<T>,
) -> bool {
    if inherited.len() < check.parents.len() {
        after == (CheckModel {
            stage: StageModel::Base {
                inherited,
                served,
                asked: check.parents[inherited.len() as int],
                views,
            },
            ..check
        })
    } else if served.len() < check.heads.len() {
        after == (CheckModel {
            stage: StageModel::Base {
                inherited,
                served,
                asked: check.heads[served.len() as int],
                views,
            },
            ..check
        })
    } else {
        searches(check, Seq::empty(), inherited, served, views, after)
    }
}

/// The walk once the operation it reads next was taken from it.
pub open spec fn popped(walk: ServedModel) -> ServedModel {
    ServedModel { frontier: walk.frontier.drop_last(), read: walk.read + 1, ..walk }
}

/// What the walk through the served history leads to: on to the bases where nothing
/// is wanted any more, the refusal of the smallest wanted parent where nothing more
/// may be read, and else the next operation to read.
pub open spec fn walks<T>(
    check: CheckModel<T>,
    walk: ServedModel,
    views: ScopeViews<T>,
    after: CheckModel<T>,
) -> bool {
    if walk.wanted.len() == 0 {
        reads_bases(check, Seq::empty(), Seq::empty(), views, after)
    } else if walk.frontier.len() == 0 || walk.read >= MAX_HISTORY_WALK {
        exists|id: Seq<u8>| #[trigger]
            is_smallest(walk.wanted, id) && after == failed(check, FailureModel::UnservedParent(id))
    } else {
        after == (CheckModel {
            stage: StageModel::History { walk: popped(walk), asked: walk.frontier.last(), views },
            ..check
        })
    }
}

/// Whether these are the ids that the texts are the hex of.
pub open spec fn are_hex_ids(texts: Seq<Seq<char>>, ids: Seq<Seq<u8>>) -> bool {
    &&& ids.len() == texts.len()
    &&& forall|i: int|
        0 <= i < ids.len() ==> hex_value(texts[i]) == Ok::<Seq<u8>, HexError>(#[trigger] ids[i])
}

/// Whether the text at `i` is the first that is not hex.
pub open spec fn first_not_hex(texts: Seq<Seq<char>>, i: int) -> bool {
    &&& 0 <= i < texts.len()
    &&& hex_value(texts[i]) is Err
    &&& forall|j: int| 0 <= j < i ==> hex_value(#[trigger] texts[j]) is Ok
}

/// What becomes of a check that is given an answer; one that it does not wait for
/// leaves it as it is.
pub open spec fn goes_to<T>(
    check: CheckModel<T>,
    answer: AnswerModel<T>,
    after: CheckModel<T>,
) -> bool {
    match (check.stage, answer) {
        (
            StageModel::Published { new_id, root, empty_repo },
            AnswerModel::Published(parents, published),
        ) => after == (CheckModel {
            parents,
            heads: check.heads,
            stage: StageModel::Heads { root, views: ScopeViews { published, empty_repo } },
        }),
        (
            StageModel::Published { new_id, root, empty_repo },
            AnswerModel::Unread(why) | AnswerModel::NoView(why),
        ) => after == failed(check, FailureModel::CannotCheck(new_id, why)),
        (StageModel::Heads { root, views }, AnswerModel::Heads(texts)) => {
            ||| exists|ids: Seq<Seq<u8>>| #[trigger]
                are_hex_ids(texts, ids) && walks(
                    CheckModel { heads: ids, ..check },
                    served_start(check.parents, ids, root),
                    views,
                    after,
                )
            ||| exists|i: int| #[trigger]
                first_not_hex(texts, i) && after == failed(
                    check,
                    FailureModel::HeadNotHex(texts[i]),
                )
        },
        (StageModel::Heads { root, views }, AnswerModel::Unread(why)) => after == failed(
            check,
            FailureModel::HeadsUnread(why),
        ),
        (StageModel::History { walk, asked, views }, AnswerModel::Parents(parents)) => walks(
            check,
            served_took(walk, parents),
            views,
            after,
        ),
        (StageModel::History { walk, asked, views }, AnswerModel::Unread(_)) => walks(
            check,
            walk,
            views,
            after,
        ),
        (StageModel::Base { inherited, served, asked, views }, AnswerModel::View(view)) => if
            inherited.len() < check.parents.len() {
            reads_bases(check, inherited.push(view), served, views, after)
        } else {
            reads_bases(check, inherited, served.push(view), views, after)
        },
        (StageModel::Base { inherited, served, asked, views }, AnswerModel::Unread(why)) => after
            == failed(check, FailureModel::CannotReadOperation(asked, why)),
        (StageModel::Base { inherited, served, asked, views }, AnswerModel::NoView(why)) => after
            == failed(check, FailureModel::CannotReadView(asked, why)),
        (
            StageModel::MergeBase { known, asked, inherited, served, views },
            AnswerModel::Parents(parents),
        ) => searches(check, known.push((asked, parents)), inherited, served, views, after),
        (
            StageModel::MergeBase { known, asked, inherited, served, views },
            AnswerModel::Unread(_),
        ) => searches(check, known.push((asked, Seq::empty())), inherited, served, views, after),
        (StageModel::MergeView { asked, inherited, served, views }, AnswerModel::View(view)) =>
            after == measured(check, inherited, served, Some(view), views),
        (
            StageModel::MergeView { asked, inherited, served, views },
            AnswerModel::Unread(_) | AnswerModel::NoView(_),
        ) => after == measured(check, inherited, served, None, views),
        (StageModel::Measure { view, bases }, AnswerModel::Allowed) => after == (CheckModel {
            stage: StageModel::Settled(Ok(())),
            ..check
        }),
        (StageModel::Measure { view, bases }, AnswerModel::Denied(why)) => after == failed(
            check,
            FailureModel::OutOfScope(why),
        ),
        _ => after == check,
    }
}

impl<T> ScopeCheck<T> {
    /// A check of the publish of `new_id`, on a server whose root operation is `root`.
    pub fn new(new_id: Vec<u8>, root: Vec<u8>, empty_repo: T) -> (r: Self)
        ensures
            r@ == beginning(new_id@, root@, empty_repo),
    {
        let r = ScopeCheck {
            parents: Vec::new(),
            heads: Vec::new(),
            stage: ScopeStage::Published { new_id, root, empty_repo },
        };
        assert(r@ =~= beginning(new_id@, root@, empty_repo));
        r
    }

    fn measure(
        parents: Vec<Vec<u8>>,
        heads: Vec<Vec<u8>>,
        inherited: Vec<T>,
        served: Vec<T>,
        merge_base: Option<T>,
        views: ScopeViews<T>,
    ) -> (r: Self)
        ensures
            r.parents@ == parents@,
            r.heads@ == heads@,
            r@ == measured(r@, inherited@, served@, merge_base, views),
    {
        let bases = assemble_bases(inherited, served, merge_base, views.empty_repo);
        ScopeCheck { parents, heads, stage: ScopeStage::Measure { view: views.published, bases } }
    }

    fn search(
        parents: Vec<Vec<u8>>,
        heads: Vec<Vec<u8>>,
        known: KnownOps,
        inherited: Vec<T>,
        served: Vec<T>,
        views: ScopeViews<T>,
    ) -> (r: Self)
        ensures
            r.parents@ == parents@,
            r.heads@ == heads@,
            forall|check: CheckModel<T>|
                check.parents == models(parents@) && check.heads == models(heads@)
                    ==> #[trigger] searches(check, known@, inherited@, served@, views, r@),
    {
        let answer = merge_base(&parents, &known);
        match answer {
            BaseAnswer::Found(asked) => ScopeCheck {
                parents,
                heads,
                stage: ScopeStage::MergeView { asked, inherited, served, views },
            },
            BaseAnswer::NotFound => Self::measure(parents, heads, inherited, served, None, views),
            BaseAnswer::Need(asked) => ScopeCheck {
                parents,
                heads,
                stage: ScopeStage::MergeBase { known, asked, inherited, served, views },
            },
        }
    }

    fn read_bases(
        parents: Vec<Vec<u8>>,
        heads: Vec<Vec<u8>>,
        inherited: Vec<T>,
        served: Vec<T>,
        views: ScopeViews<T>,
    ) -> (r: Self)
        ensures
            r.parents@ == parents@,
            r.heads@ == heads@,
            forall|check: CheckModel<T>|
                check.parents == models(parents@) && check.heads == models(heads@)
                    ==> #[trigger] reads_bases(check, inherited@, served@, views, r@),
    {
        if inherited.len() < parents.len() {
            let asked = copied(parents[inherited.len()].as_slice());
            return ScopeCheck {
                parents,
                heads,
                stage: ScopeStage::Base { inherited, served, asked, views },
            };
        }
        if served.len() < heads.len() {
            let asked = copied(heads[served.len()].as_slice());
            return ScopeCheck {
                parents,
                heads,
                stage: ScopeStage::Base { inherited, served, asked, views },
            };
        }
        Self::search(parents, heads, KnownOps::new(), inherited, served, views)
    }

    fn walk_on(
        parents: Vec<Vec<u8>>,
        heads: Vec<Vec<u8>>,
        walk: ServedWalk,
        views: ScopeViews<T>,
    ) -> (r: Self)
        ensures
            r.parents@ == parents@,
            r.heads@ == heads@,
            forall|check: CheckModel<T>|
                check.parents == models(parents@) && check.heads == models(heads@)
                    ==> #[trigger] walks(check, walk@, views, r@),
    {
        let mut walk = walk;
        match walk.next() {
            ServedStep::Accept => Self::read_bases(
                parents,
                heads,
                Vec::new(),
                Vec::new(),
                views,
            ),
            ServedStep::Read(asked) => ScopeCheck {
                parents,
                heads,
                stage: ScopeStage::History { walk, asked, views },
            },
            ServedStep::Deny(id) => ScopeCheck {
                parents,
                heads,
                stage: ScopeStage::Settled(Err(ScopeFailure::UnservedParent(id))),
            },
        }
    }

    fn fail(parents: Vec<Vec<u8>>, heads: Vec<Vec<u8>>, failure: ScopeFailure) -> (r: Self)
        ensures
            r@ == (CheckModel {
                parents: models(parents@),
                heads: models(heads@),
                stage: StageModel::<T>::Settled(Err(failure@)),
            }),
    {
        ScopeCheck { parents, heads, stage: ScopeStage::Settled(Err(failure)) }
    }

    /// Take in what was asked for.
    pub fn took(self, answer: ScopeAnswer<T>) -> (r: Self)
        ensures
            goes_to(self@, answer@, r@),
    {
        let ScopeCheck { parents, heads, stage } = self;
        match (stage, answer) {
            (
                ScopeStage::Published { new_id: _, root, empty_repo },
                ScopeAnswer::Published(found, published),
            ) => ScopeCheck {
                parents: found,
                heads,
                stage: ScopeStage::Heads { root, views: ScopeViews { published, empty_repo } },
            },
            (
                ScopeStage::Published { new_id, root: _, empty_repo: _ },
                ScopeAnswer::Unread(why),
            ) => Self::fail(parents, heads, ScopeFailure::CannotCheck(new_id, why)),
            (
                ScopeStage::Published { new_id, root: _, empty_repo: _ },
                ScopeAnswer::NoView(why),
            ) => Self::fail(parents, heads, ScopeFailure::CannotCheck(new_id, why)),
            (ScopeStage::Heads { root, views }, ScopeAnswer::Heads(texts)) => {
                match served_head_ids(&texts) {
                    Ok(ids) => {
                        assert(are_hex_ids(models(texts@), models(ids@)));
                        let walk = ServedWalk::new(&parents, &ids, root.as_slice());
                        Self::walk_on(parents, ids, walk, views)
                    },
                    Err(failure) => {
                        proof {
                            let head = failure->HeadNotHex_0;
                            let i = choose|i: int|
                                0 <= i < texts@.len() && (#[trigger] texts@[i])@ == head@
                                    && hex_value(texts@[i]@) is Err && forall|j: int|
                                    0 <= j < i ==> hex_value((#[trigger] texts@[j])@) is Ok;
                            assert forall|j: int| 0 <= j < i implies hex_value(
                                #[trigger] models(texts@)[j],
                            ) is Ok by {
                                assert(hex_value(texts@[j]@) is Ok);
                            }
                            assert(first_not_hex(models(texts@), i));
                        }
                        Self::fail(parents, heads, failure)
                    },
                }
            },
            (ScopeStage::Heads { root: _, views: _ }, ScopeAnswer::Unread(why)) => Self::fail(
                parents,
                heads,
                ScopeFailure::HeadsUnread(why),
            ),
            (ScopeStage::History { walk, asked: _, views }, ScopeAnswer::Parents(found)) => {
                let mut walk = walk;
                walk.took(&found);
                Self::walk_on(parents, heads, walk, views)
            },
            (ScopeStage::History { walk, asked: _, views }, ScopeAnswer::Unread(_)) => {
                Self::walk_on(parents, heads, walk, views)
            },
            (
                ScopeStage::Base { inherited, served, asked: _, views },
                ScopeAnswer::View(view),
            ) => {
                let mut inherited = inherited;
                let mut served = served;
                if inherited.len() < parents.len() {
                    inherited.push(view);
                } else {
                    served.push(view);
                }
                Self::read_bases(parents, heads, inherited, served, views)
            },
            (
                ScopeStage::Base { inherited: _, served: _, asked, views: _ },
                ScopeAnswer::Unread(why),
            ) => Self::fail(parents, heads, ScopeFailure::CannotReadOperation(asked, why)),
            (
                ScopeStage::Base { inherited: _, served: _, asked, views: _ },
                ScopeAnswer::NoView(why),
            ) => Self::fail(parents, heads, ScopeFailure::CannotReadView(asked, why)),
            (
                ScopeStage::MergeBase { known, asked, inherited, served, views },
                ScopeAnswer::Parents(found),
            ) => {
                let mut known = known;
                known.learn(asked, found);
                Self::search(parents, heads, known, inherited, served, views)
            },
            (
                ScopeStage::MergeBase { known, asked, inherited, served, views },
                ScopeAnswer::Unread(_),
            ) => {
                let mut known = known;
                let none: Vec<Vec<u8>> = Vec::new();
                assert(models(none@) =~= Seq::<Seq<u8>>::empty());
                known.learn(asked, none);
                Self::search(parents, heads, known, inherited, served, views)
            },
            (
                ScopeStage::MergeView { asked: _, inherited, served, views },
                ScopeAnswer::View(view),
            ) => Self::measure(parents, heads, inherited, served, Some(view), views),
            (
                ScopeStage::MergeView { asked: _, inherited, served, views },
                ScopeAnswer::Unread(_),
            ) => Self::measure(parents, heads, inherited, served, None, views),
            (
                ScopeStage::MergeView { asked: _, inherited, served, views },
                ScopeAnswer::NoView(_),
            ) => Self::measure(parents, heads, inherited, served, None, views),
            (ScopeStage::Measure { view: _, bases: _ }, ScopeAnswer::Allowed) => ScopeCheck {
                parents,
                heads,
                stage: ScopeStage::Settled(Ok(())),
            },
            (ScopeStage::Measure { view: _, bases: _ }, ScopeAnswer::Denied(why)) => Self::fail(
                parents,
                heads,
                ScopeFailure::OutOfScope(why),
            ),
            (stage, _) => ScopeCheck { parents, heads, stage },
        }
    }
}

// ─── What a check promises ────────────────────────────────────────────────────

/// Whether an answer is what the history says of the operation that the walk asked
/// for; one that cannot be read has no parents that count.
pub open spec fn agrees<T>(
    history: spec_fn(Seq<u8>) -> Seq<Seq<u8>>,
    check: CheckModel<T>,
    answer: AnswerModel<T>,
) -> bool {
    check.stage matches StageModel::History { walk, asked, views } ==> match answer {
        AnswerModel::Parents(parents) => parents == history(asked),
        AnswerModel::Unread(_) => history(asked).len() == 0,
        _ => true,
    }
}

/// A check from its beginning, one answer after the other.
pub open spec fn is_check_run<T>(
    history: spec_fn(Seq<u8>) -> Seq<Seq<u8>>,
    root: Seq<u8>,
    checks: Seq<CheckModel<T>>,
    answers: Seq<AnswerModel<T>>,
) -> bool {
    &&& checks.len() == answers.len() + 1
    &&& exists|new_id: Seq<u8>, empty_repo: T|
        checks[0] == #[trigger] beginning(new_id, root, empty_repo)
    &&& forall|i: int|
        #![trigger answers[i]]
        0 <= i < answers.len() ==> agrees(history, checks[i], answers[i]) && goes_to(
            checks[i],
            answers[i],
            checks[i + 1],
        )
}

/// Whether every parent is the root operation or part of the history under the heads.
pub open spec fn built_on_served<T>(
    history: spec_fn(Seq<u8>) -> Seq<Seq<u8>>,
    root: Seq<u8>,
    check: CheckModel<T>,
) -> bool {
    forall|parent: Seq<u8>| #[trigger]
        check.parents.contains(parent) ==> parent == root || is_served(
            history,
            check.heads,
            parent,
        )
}

/// Where a stage stands in the order of stages.
pub open spec fn place<T>(stage: StageModel<T>) -> nat {
    match stage {
        StageModel::Published { .. } => 0,
        StageModel::Heads { .. } => 1,
        StageModel::History { .. } => 2,
        StageModel::Base { .. } => 3,
        StageModel::MergeBase { .. } => 4,
        StageModel::MergeView { .. } => 5,
        StageModel::Measure { .. } => 6,
        StageModel::Settled(_) => 7,
    }
}

spec fn walk_at<T>(
    history: spec_fn(Seq<u8>) -> Seq<Seq<u8>>,
    root: Seq<u8>,
    check: CheckModel<T>,
    rounds: nat,
) -> ServedModel {
    served_run(history, check.parents, check.heads, root, rounds)
}

spec fn is_sound<T>(
    history: spec_fn(Seq<u8>) -> Seq<Seq<u8>>,
    root: Seq<u8>,
    check: CheckModel<T>,
) -> bool {
    match check.stage {
        StageModel::Published { new_id, root: given, empty_repo } => given == root,
        StageModel::Heads { root: given, views } => given == root,
        StageModel::History { walk, asked, views } => exists|rounds: nat|
            {
                let at = #[trigger] walk_at(history, root, check, rounds);
                &&& at.wanted.len() > 0
                &&& at.frontier.len() > 0
                &&& at.read < MAX_HISTORY_WALK
                &&& walk == popped(at)
                &&& asked == at.frontier.last()
            },
        StageModel::Settled(Err(_)) => true,
        _ => built_on_served(history, root, check),
    }
}

proof fn lemma_walks_soundly<T>(
    history: spec_fn(Seq<u8>) -> Seq<Seq<u8>>,
    root: Seq<u8>,
    check: CheckModel<T>,
    rounds: nat,
    views: ScopeViews<T>,
    after: CheckModel<T>,
)
    requires
        walks(check, walk_at(history, root, check, rounds), views, after),
    ensures
        is_sound(history, root, after),
        place(after.stage) >= 2,
{
    let walk = walk_at(history, root, check, rounds);
    if walk.wanted.len() == 0 {
        assert forall|parent: Seq<u8>| #[trigger] check.parents.contains(parent) implies parent
            == root || is_served(history, check.heads, parent) by {
            accepted_parents_are_served(
                history,
                check.parents,
                check.heads,
                root,
                rounds,
                parent,
            );
        }
        assert(after.parents == check.parents && after.heads == check.heads);
        assert(built_on_served(history, root, after));
    } else if walk.frontier.len() > 0 && walk.read < MAX_HISTORY_WALK {
        assert(walk_at(history, root, after, rounds) == walk);
    }
}

proof fn lemma_step_is_sound<T>(
    history: spec_fn(Seq<u8>) -> Seq<Seq<u8>>,
    root: Seq<u8>,
    check: CheckModel<T>,
    answer: AnswerModel<T>,
    after: CheckModel<T>,
)
    requires
        is_sound(history, root, check),
        agrees(history, check, answer),
        goes_to(check, answer, after),
    ensures
        is_sound(history, root, after),
        place(check.stage) <= place(after.stage),
{
    match (check.stage, answer) {
        (StageModel::Heads { root: given, views }, AnswerModel::Heads(texts)) => {
            if exists|ids: Seq<Seq<u8>>| #[trigger]
                are_hex_ids(texts, ids) && walks(
                    CheckModel { heads: ids, ..check },
                    served_start(check.parents, ids, given),
                    views,
                    after,
                ) {
                let ids = choose|ids: Seq<Seq<u8>>| #[trigger]
                    are_hex_ids(texts, ids) && walks(
                        CheckModel { heads: ids, ..check },
                        served_start(check.parents, ids, given),
                        views,
                        after,
                    );
                let with_heads = CheckModel { heads: ids, ..check };
                assert(walk_at(history, root, with_heads, 0) == served_start(
                    check.parents,
                    ids,
                    given,
                ));
                lemma_walks_soundly(history, root, with_heads, 0, views, after);
            }
        },
        (StageModel::History { walk, asked, views }, _) => {
            let rounds = choose|rounds: nat|
                {
                    let at = #[trigger] walk_at(history, root, check, rounds);
                    &&& at.wanted.len() > 0
                    &&& at.frontier.len() > 0
                    &&& at.read < MAX_HISTORY_WALK
                    &&& walk == popped(at)
                    &&& asked == at.frontier.last()
                };
            let at = walk_at(history, root, check, rounds);
            let next = walk_at(history, root, check, rounds + 1);
            assert(next == served_round(history, at));
            assert(next == served_took(walk, history(asked)));
            if answer is Parents {
                lemma_walks_soundly(history, root, check, rounds + 1, views, after);
            } else if answer is Unread {
                assert(served_took(walk, history(asked)) == walk);
                lemma_walks_soundly(history, root, check, rounds + 1, views, after);
            }
        },
        _ => {
            if place(check.stage) >= 3 {
                assert(after.parents == check.parents && after.heads == check.heads);
            }
        },
    }
}

proof fn lemma_run_is_sound<T>(
    history: spec_fn(Seq<u8>) -> Seq<Seq<u8>>,
    root: Seq<u8>,
    checks: Seq<CheckModel<T>>,
    answers: Seq<AnswerModel<T>>,
    n: int,
)
    requires
        is_check_run(history, root, checks, answers),
        0 <= n < checks.len(),
    ensures
        is_sound(history, root, checks[n]),
    decreases n,
{
    if n > 0 {
        lemma_run_is_sound(history, root, checks, answers, n - 1);
        assert(agrees(history, checks[n - 1], answers[n - 1]));
        lemma_step_is_sound(history, root, checks[n - 1], answers[n - 1], checks[n]);
    }
}

/// A publish is measured, and allowed, only where every parent of the published
/// operation is the root operation or part of the history that this server serves;
/// not even the view of a parent is read before that is settled.
pub proof fn a_measured_publish_is_built_on_served_history<T>(
    history: spec_fn(Seq<u8>) -> Seq<Seq<u8>>,
    root: Seq<u8>,
    checks: Seq<CheckModel<T>>,
    answers: Seq<AnswerModel<T>>,
    n: int,
)
    requires
        is_check_run(history, root, checks, answers),
        0 <= n < checks.len(),
        place(checks[n].stage) >= 3,
        !(checks[n].stage matches StageModel::Settled(Err(_))),
    ensures
        built_on_served(history, root, checks[n]),
{
    lemma_run_is_sound(history, root, checks, answers, n);
}

/// The order of a check: the published operation, the heads, the walk through the
/// served history, the bases, the merge base and its view, the token's rules. No
/// answer leads back.
pub proof fn a_check_moves_on<T>(
    history: spec_fn(Seq<u8>) -> Seq<Seq<u8>>,
    root: Seq<u8>,
    checks: Seq<CheckModel<T>>,
    answers: Seq<AnswerModel<T>>,
    n: int,
)
    requires
        is_check_run(history, root, checks, answers),
        0 <= n < answers.len(),
    ensures
        place(checks[n].stage) <= place(checks[n + 1].stage),
{
    lemma_run_is_sound(history, root, checks, answers, n);
    assert(agrees(history, checks[n], answers[n]));
    lemma_step_is_sound(history, root, checks[n], answers[n], checks[n + 1]);
}

/// Only the token's rules allow a publish, and only once all that it is measured
/// against was put before them.
pub proof fn only_the_rules_allow<T>(
    check: CheckModel<T>,
    answer: AnswerModel<T>,
    after: CheckModel<T>,
)
    requires
        goes_to(check, answer, after),
        after.stage == StageModel::<T>::Settled(Ok(())),
    ensures
        check == after || check.stage is Measure && answer is Allowed,
{
}

/// Whether the views that a check has are those it has to have at its stage: one for each
/// parent that was asked for before the heads, one for each head, and all of them from the
/// search for a merge base on. An empty repo stands in only where there is nothing at all.
pub open spec fn has_its_bases<T>(check: CheckModel<T>) -> bool {
    let parents = check.parents.len();
    let heads = check.heads.len();
    match check.stage {
        StageModel::Base { inherited, served, asked, views } => {
            ||| inherited.len() < parents && served.len() == 0 && asked
                == check.parents[inherited.len() as int]
            ||| inherited.len() == parents && served.len() < heads && asked
                == check.heads[served.len() as int]
        },
        StageModel::MergeBase { known, asked, inherited, served, views } => inherited.len()
            == parents && served.len() == heads && parents >= 2,
        StageModel::MergeView { asked, inherited, served, views } => inherited.len() == parents
            && served.len() == heads && parents >= 2,
        StageModel::Measure { view, bases } => {
            &&& bases.inherited.len() == parents
            &&& parents > 0 || heads > 0 ==> bases.served.len() == heads
            &&& parents == 0 && heads == 0 ==> bases.served.len() == 1
            &&& bases.merge_base is Some ==> parents >= 2
        },
        _ => true,
    }
}

/// A publish is measured against the view of every parent of its own and of every head that
/// the server serves, and against a merge base only where it is a merge.
pub proof fn a_publish_is_measured_against_everything<T>(
    history: spec_fn(Seq<u8>) -> Seq<Seq<u8>>,
    root: Seq<u8>,
    checks: Seq<CheckModel<T>>,
    answers: Seq<AnswerModel<T>>,
    n: int,
)
    requires
        is_check_run(history, root, checks, answers),
        0 <= n < checks.len(),
    ensures
        checks[n].stage matches StageModel::Measure { view, bases } ==> {
            &&& bases.inherited.len() == checks[n].parents.len()
            &&& checks[n].parents.len() > 0 || checks[n].heads.len() > 0 ==> bases.served.len()
                == checks[n].heads.len()
            &&& bases.merge_base is Some ==> checks[n].parents.len() >= 2
        },
        checks[n].stage matches StageModel::Base { inherited, served, asked, views } ==> (
        inherited.len() < checks[n].parents.len() && asked
            == checks[n].parents[inherited.len() as int]) || (inherited.len()
            == checks[n].parents.len() && served.len() < checks[n].heads.len() && asked
            == checks[n].heads[served.len() as int]),
{
    lemma_run_has_its_bases(history, root, checks, answers, n);
}

proof fn lemma_run_has_its_bases<T>(
    history: spec_fn(Seq<u8>) -> Seq<Seq<u8>>,
    root: Seq<u8>,
    checks: Seq<CheckModel<T>>,
    answers: Seq<AnswerModel<T>>,
    n: int,
)
    requires
        is_check_run(history, root, checks, answers),
        0 <= n < checks.len(),
    ensures
        has_its_bases(checks[n]),
    decreases n,
{
    if n > 0 {
        lemma_run_has_its_bases(history, root, checks, answers, n - 1);
        assert(agrees(history, checks[n - 1], answers[n - 1]));
        a_step_keeps_the_bases(checks[n - 1], answers[n - 1], checks[n]);
    }
}

proof fn lemma_searched_with_all<T>(
    check: CheckModel<T>,
    known: Seq<(Seq<u8>, Seq<Seq<u8>>)>,
    inherited: Seq<T>,
    served: Seq<T>,
    views: ScopeViews<T>,
    after: CheckModel<T>,
)
    requires
        searches(check, known, inherited, served, views, after),
        inherited.len() == check.parents.len(),
        served.len() == check.heads.len(),
    ensures
        has_its_bases(after),
        after.parents == check.parents,
        after.heads == check.heads,
{
}

proof fn lemma_read_with_all<T>(
    check: CheckModel<T>,
    inherited: Seq<T>,
    served: Seq<T>,
    views: ScopeViews<T>,
    after: CheckModel<T>,
)
    requires
        reads_bases(check, inherited, served, views, after),
        inherited.len() <= check.parents.len(),
        inherited.len() < check.parents.len() ==> served.len() == 0,
        served.len() <= check.heads.len(),
    ensures
        has_its_bases(after),
        after.parents == check.parents,
        after.heads == check.heads,
{
    if inherited.len() >= check.parents.len() && served.len() >= check.heads.len() {
        lemma_searched_with_all(check, Seq::empty(), inherited, served, views, after);
    }
}

proof fn lemma_walked_with_all<T>(
    check: CheckModel<T>,
    walk: ServedModel,
    views: ScopeViews<T>,
    after: CheckModel<T>,
)
    requires
        walks(check, walk, views, after),
    ensures
        has_its_bases(after),
        after.parents == check.parents,
        after.heads == check.heads,
{
    if walk.wanted.len() == 0 {
        lemma_read_with_all(check, Seq::empty(), Seq::empty(), views, after);
    }
}

/// Whatever answer comes, a check that has its bases has them afterwards. The published
/// operation's parents are those that were given with it, and never change again; nor do
/// the heads.
pub proof fn a_step_keeps_the_bases<T>(
    check: CheckModel<T>,
    answer: AnswerModel<T>,
    after: CheckModel<T>,
)
    requires
        has_its_bases(check),
        goes_to(check, answer, after),
    ensures
        has_its_bases(after),
        !(check.stage is Published) ==> after.parents == check.parents,
        !(check.stage is Published) && !(check.stage is Heads) ==> after.heads == check.heads,
        check.stage is Published ==> (answer matches AnswerModel::Published(parents, view)
            ==> after.parents == parents),
        check.stage is Heads && !(after.stage is Settled) ==> (answer matches AnswerModel::Heads(
            texts,
        ) ==> are_hex_ids(texts, after.heads)),
{
    match (check.stage, answer) {
        (StageModel::Heads { root, views }, AnswerModel::Heads(texts)) => {
            if exists|ids: Seq<Seq<u8>>| #[trigger]
                are_hex_ids(texts, ids) && walks(
                    CheckModel { heads: ids, ..check },
                    served_start(check.parents, ids, root),
                    views,
                    after,
                ) {
                let ids = choose|ids: Seq<Seq<u8>>| #[trigger]
                    are_hex_ids(texts, ids) && walks(
                        CheckModel { heads: ids, ..check },
                        served_start(check.parents, ids, root),
                        views,
                        after,
                    );
                lemma_walked_with_all(
                    CheckModel { heads: ids, ..check },
                    served_start(check.parents, ids, root),
                    views,
                    after,
                );
            }
        },
        (StageModel::History { walk, asked, views }, AnswerModel::Parents(parents)) => {
            lemma_walked_with_all(check, served_took(walk, parents), views, after);
        },
        (StageModel::History { walk, asked, views }, AnswerModel::Unread(_)) => {
            lemma_walked_with_all(check, walk, views, after);
        },
        (StageModel::Base { inherited, served, asked, views }, AnswerModel::View(view)) => {
            if inherited.len() < check.parents.len() {
                lemma_read_with_all(check, inherited.push(view), served, views, after);
            } else {
                lemma_read_with_all(check, inherited, served.push(view), views, after);
            }
        },
        (
            StageModel::MergeBase { known, asked, inherited, served, views },
            AnswerModel::Parents(parents),
        ) => {
            lemma_searched_with_all(
                check,
                known.push((asked, parents)),
                inherited,
                served,
                views,
                after,
            );
        },
        (StageModel::MergeBase { known, asked, inherited, served, views }, AnswerModel::Unread(_)) => {
            lemma_searched_with_all(
                check,
                known.push((asked, Seq::empty())),
                inherited,
                served,
                views,
                after,
            );
        },
        _ => {},
    }
}

/// The views that a check holds at a stage, those of the parents and those of the heads.
pub open spec fn views_held<T>(stage: StageModel<T>) -> Option<(Seq<T>, Seq<T>)> {
    match stage {
        StageModel::Base { inherited, served, .. } => Some((inherited, served)),
        StageModel::MergeBase { inherited, served, .. } => Some((inherited, served)),
        StageModel::MergeView { inherited, served, .. } => Some((inherited, served)),
        StageModel::Measure { bases, .. } => Some((bases.inherited, bases.served)),
        _ => None,
    }
}

/// A view that was given is kept as the view of what was asked for, behind those that were
/// given before: of a parent among the parents, and else of a head among the heads. The
/// parents' views stay, and so do the heads' once all are there.
pub proof fn a_view_is_kept_for_what_was_asked<T>(
    check: CheckModel<T>,
    view: T,
    after: CheckModel<T>,
)
    requires
        has_its_bases(check),
        check.stage is Base,
        goes_to(check, AnswerModel::View(view), after),
    ensures
        views_held(check.stage) matches Some((inherited, served)) && views_held(
            after.stage,
        ) matches Some((more, others)) && (if inherited.len() < check.parents.len() {
            more == inherited.push(view) && (check.heads.len() > 0 || check.parents.len() > 0
                ==> others == served)
        } else {
            more == inherited && others == served.push(view)
        }),
{
    let (inherited, served) = views_held(check.stage)->0;
    if inherited.len() < check.parents.len() {
        assert(served =~= Seq::<T>::empty());
    }
}

} // verus!
