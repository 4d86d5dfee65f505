//! The bucket half of the server: WAL entries and the index object.
//!
//! The bucket is the durable source of truth. Everything in this file exists to
//! keep one ordering: a WAL entry, then the index compare-and-swap, and only
//! then any local state, so a crash anywhere in between leaves the bucket ahead
//! of the repo, which recovery replays on the next start.
use vstd::prelude::*;
use vstd::string::*;

use crate::heads::{
    a_publish_leaves_the_heads_it_does_not_name, head_ids_for_wire, heads_after, wire_heads,
    HeadsMetadata, MetadataModel, UpdateModel, UpdateResult,
};
use crate::hex::{
    hex_reads_back, hex_text, hex_text_digits, hex_texts, hex_value, to_hex, to_hex_all,
};
use crate::ids::OPERATION_ID_LENGTH;
use crate::json::{pairs_model, pretty_object, JsonModel};
use crate::order::{
    holds_text, insert_text, lemma_pushed, same_bytes, sorted_lists_are_unique, texts_increase,
    TextMap,
};
use crate::text::{chars_of, maybe, models, parse_u64, parsed_u64, trim, trimmed, CharClass};
use crate::wal::{
    index_read, record_kinds_read_back, wal_key, IndexError, IndexModel, IndexObject, RecordKind,
    RecordModel, WalEntry, WalRecord,
};

verus! {

// ─── The root operation ───────────────────────────────────────────────────────

/// jj's root operation is synthetic: its id is all zeros, and there is no stored
/// operation, no view, nothing to make durable behind it.
pub open spec fn is_root_text(op: Seq<char>) -> bool {
    op == Seq::new(128, |i: int| '0')
}

pub fn is_root_operation_hex(op_hex: &str) -> (r: bool)
    ensures
        r == is_root_text(op_hex@),
        r <==> op_hex@.len() == 128 && forall|i: int| 0 <= i < 128 ==> #[trigger] op_hex@[i] == '0',
{
    let chars = chars_of(op_hex);
    if chars.len() != 2 * OPERATION_ID_LENGTH {
        return false;
    }
    let mut i: usize = 0;
    while i < chars.len()
        invariant
            i <= chars@.len(),
            chars@ == op_hex@,
            chars@.len() == 128,
            forall|j: int| 0 <= j < i ==> #[trigger] chars@[j] == '0',
        decreases chars@.len() - i,
    {
        if chars[i] != '0' {
            assert(op_hex@[i as int] != '0');
            assert(Seq::new(128, |i: int| '0')[i as int] == '0');
            return false;
        }
        i = i + 1;
    }
    assert(op_hex@ =~= Seq::new(128, |i: int| '0'));
    true
}

/// The root operation is the one whose hex is all zeros, a hundred and twenty-eight of
/// them.
pub proof fn the_root_is_all_zeros(op: Seq<char>)
    ensures
        is_root_text(op) <==> op.len() == 128 && forall|i: int|
            0 <= i < 128 ==> #[trigger] op[i] == '0',
{
    if op.len() == 128 && forall|i: int| 0 <= i < 128 ==> #[trigger] op[i] == '0' {
        assert(op =~= Seq::new(128, |i: int| '0'));
    }
}

/// The root operation's id is written as the text that stands for it.
pub proof fn the_root_id_is_recognised(id: Seq<u8>)
    requires
        id == Seq::new(64, |i: int| 0u8),
    ensures
        is_root_text(hex_text(id)),
{
    hex_text_digits(id);
    assert(hex_text(id) =~= Seq::new(128, |i: int| '0'));
}

// ─── Making an ancestry durable ───────────────────────────────────────────────

/// A step of the walk that is still to be made.
#[derive(Debug, PartialEq, Eq)]
pub enum WalkStep {
    Visit(String),
    Write(String),
}

pub enum StepModel {
    Visit(Seq<char>),
    Write(Seq<char>),
}

impl View for WalkStep {
    type V = StepModel;

    open spec fn view(&self) -> StepModel {
        match self {
            WalkStep::Visit(op) => StepModel::Visit(op@),
            WalkStep::Write(op) => StepModel::Write(op@),
        }
    }
}

impl StepModel {
    pub open spec fn op(self) -> Seq<char> {
        match self {
            StepModel::Visit(op) => op,
            StepModel::Write(op) => op,
        }
    }
}

/// What the walk asks for next.
#[derive(Debug, PartialEq, Eq)]
pub enum WalkAction {
    /// Whether the bucket holds this operation's entry. Where it does not, give
    /// the operation's parents to [`AncestryWalk::descend`].
    Check(String),
    /// Write this operation's entry. It carries the operation and its view and
    /// no other records: the blobs belong to the publish that drains them.
    Write(String),
}

pub enum ActionModel {
    Check(Seq<char>),
    Write(Seq<char>),
}

impl View for WalkAction {
    type V = ActionModel;

    open spec fn view(&self) -> ActionModel {
        match self {
            WalkAction::Check(op) => ActionModel::Check(op@),
            WalkAction::Write(op) => ActionModel::Write(op@),
        }
    }
}

/// Makes sure an operation and its whole missing ancestry have WAL entries.
///
/// A reconcile merge the server mints on its own never reaches a WAL entry
/// through a publish of its own: by the time the next operation is published,
/// the merge is no longer a head, so a head-only pass walks straight past it.
/// Its child names it as a parent, so replay would stop at an operation the
/// bucket never received.
///
/// Parents are written before children, so an interrupted walk leaves a shorter
/// but still connected chain instead of an entry whose parent is unreachable.
/// The walk stops at the first ancestor the bucket already holds.
#[derive(Debug, PartialEq, Eq)]
pub struct AncestryWalk {
    stack: Vec<WalkStep>,
    seen: Vec<String>,
}

/// The walk, as a mathematical value.
#[verifier::ext_equal]
pub struct WalkModel {
    pub stack: Seq<StepModel>,
    pub seen: Seq<Seq<char>>,
}

impl View for AncestryWalk {
    type V = WalkModel;

    closed spec fn view(&self) -> WalkModel {
        WalkModel { stack: models(self.stack@), seen: models(self.seen@) }
    }
}

/// The walk that starts at `op`.
pub open spec fn walk_from(op: Seq<char>) -> WalkModel {
    WalkModel { stack: seq![StepModel::Visit(op)], seen: Seq::empty() }
}

/// What the walk asks for next, and the walk once it has asked. A visit of the
/// root operation or of one that was seen before asks nothing.
pub open spec fn walk_next(walk: WalkModel) -> (WalkModel, Option<ActionModel>)
    decreases walk.stack.len(),
{
    if walk.stack.len() == 0 {
        (walk, None)
    } else {
        let rest = walk.stack.drop_last();
        match walk.stack.last() {
            StepModel::Visit(op) => if is_root_text(op) || walk.seen.contains(op) {
                walk_next(WalkModel { stack: rest, ..walk })
            } else {
                (
                    WalkModel { stack: rest, seen: walk.seen.push(op) },
                    Some(ActionModel::Check(op)),
                )
            },
            StepModel::Write(op) => (
                WalkModel { stack: rest, ..walk },
                Some(ActionModel::Write(op)),
            ),
        }
    }
}

pub open spec fn visits(ops: Seq<Seq<char>>) -> Seq<StepModel> {
    ops.map_values(|op: Seq<char>| StepModel::Visit(op))
}

/// The walk once it learned that the bucket does not hold `op`: its parents are
/// visited first, and it is written after them.
pub open spec fn walk_descended(
    walk: WalkModel,
    op: Seq<char>,
    parents: Seq<Seq<char>>,
) -> WalkModel {
    WalkModel { stack: walk.stack.push(StepModel::Write(op)) + visits(parents), ..walk }
}

impl AncestryWalk {
    pub fn new(op_hex: &str) -> (r: AncestryWalk)
        ensures
            r@ == walk_from(op_hex@),
    {
        let mut stack: Vec<WalkStep> = Vec::new();
        stack.push(WalkStep::Visit(op_hex.to_owned()));
        let r = AncestryWalk { stack, seen: Vec::new() };
        assert(r@.stack =~= walk_from(op_hex@).stack);
        assert(r@.seen =~= walk_from(op_hex@).seen);
        r
    }

    /// What to do next; nothing once the whole ancestry is durable.
    pub fn next(&mut self) -> (r: Option<WalkAction>)
        ensures
            final(self)@ == walk_next(old(self)@).0,
            match r {
                Some(action) => walk_next(old(self)@).1 == Some(action@),
                None => walk_next(old(self)@).1 is None,
            },
    {
        while self.stack.len() > 0
            invariant
                walk_next(self@) == walk_next(old(self)@),
            decreases self.stack@.len(),
        {
            let ghost before = self@;
            let popped = self.stack.pop();
            match popped {
                Some(WalkStep::Visit(op)) => {
                    proof {
                        assert(before.stack.last() == StepModel::Visit(op@));
                        assert(self@.stack =~= before.stack.drop_last());
                    }
                    if !is_root_operation_hex(op.as_str()) && !holds_text(&self.seen, op.as_str()) {
                        let ghost seen = self@.seen;
                        self.seen.push(op.clone());
                        assert(self@.seen =~= seen.push(op@));
                        return Some(WalkAction::Check(op));
                    }
                },
                Some(WalkStep::Write(op)) => {
                    proof {
                        assert(before.stack.last() == StepModel::Write(op@));
                        assert(self@.stack =~= before.stack.drop_last());
                    }
                    return Some(WalkAction::Write(op));
                },
                None => {},
            }
        }
        None
    }

    /// The bucket does not hold `op_hex`, whose parents are these.
    pub fn descend(&mut self, op_hex: &str, parents: &Vec<String>)
        ensures
            final(self)@ == walk_descended(old(self)@, op_hex@, models(parents@)),
    {
        let ghost before = self@;
        self.stack.push(WalkStep::Write(op_hex.to_owned()));
        let ghost base = before.stack.push(StepModel::Write(op_hex@));
        assert(self@.stack =~= base);
        let mut i: usize = 0;
        assert(base + visits(models(parents@)).take(0) =~= base);
        while i < parents.len()
            invariant
                i <= parents@.len(),
                self@.stack == base + visits(models(parents@)).take(i as int),
                self@.seen == before.seen,
            decreases parents@.len() - i,
        {
            let ghost stack = self@.stack;
            self.stack.push(WalkStep::Visit(parents[i].clone()));
            proof {
                let step = StepModel::Visit(parents@[i as int]@);
                assert(self@.stack =~= stack.push(step));
                assert(visits(models(parents@)).take(i + 1) =~= visits(models(parents@)).take(
                    i as int,
                ).push(step));
                assert(stack.push(step) =~= base + visits(models(parents@)).take(i + 1));
            }
            i = i + 1;
        }
        assert(visits(models(parents@)).take(i as int) =~= visits(models(parents@)));
    }
}

// ─── What the walk promises ───────────────────────────────────────────────────

/// The operations a walk may come across: the parents of each, and which of them
/// the bucket holds.
pub struct History {
    pub parents: spec_fn(Seq<char>) -> Seq<Seq<char>>,
    pub durable: spec_fn(Seq<char>) -> bool,
}

/// How far a walk has come: what it still has to do, and what it has written, in
/// order.
#[verifier::ext_equal]
pub struct WalkRun {
    pub walk: WalkModel,
    pub written: Seq<Seq<char>>,
}

/// One round: ask the walk, and do what it asks.
pub open spec fn walk_round(history: History, run: WalkRun) -> WalkRun {
    let (walk, action) = walk_next(run.walk);
    match action {
        Some(ActionModel::Check(op)) => WalkRun {
            walk: if (history.durable)(op) {
                walk
            } else {
                walk_descended(walk, op, (history.parents)(op))
            },
            ..run
        },
        Some(ActionModel::Write(op)) => WalkRun { walk, written: run.written.push(op) },
        None => WalkRun { walk, ..run },
    }
}

/// The walk from `op` after `rounds` rounds.
pub open spec fn walk_run(history: History, op: Seq<char>, rounds: nat) -> WalkRun
    decreases rounds,
{
    if rounds == 0 {
        WalkRun { walk: walk_from(op), written: Seq::empty() }
    } else {
        walk_round(history, walk_run(history, op, (rounds - 1) as nat))
    }
}

/// Nothing descends from itself: parents come before their children in some
/// order.
pub open spec fn is_history(history: History, age: spec_fn(Seq<char>) -> nat) -> bool {
    forall|op: Seq<char>, parent: Seq<char>|
        #![trigger (history.parents)(op).contains(parent)]
        (history.parents)(op).contains(parent) ==> age(parent) < age(op)
}

/// Whether the bucket needs nothing more of `op`, or has been given it.
pub open spec fn settled_op(history: History, run: WalkRun, op: Seq<char>) -> bool {
    is_root_text(op) || (history.durable)(op) || run.written.contains(op)
}

/// Whether a step for `op` lies above position `i` of the stack.
pub open spec fn step_above(stack: Seq<StepModel>, i: int, op: Seq<char>) -> bool {
    exists|j: int| i < j < stack.len() && (#[trigger] stack[j]).op() == op
}

spec fn walk_inv(history: History, age: spec_fn(Seq<char>) -> nat, run: WalkRun) -> bool {
    let stack = run.walk.stack;
    // What lies above a write is older than what is to be written.
    &&& forall|i: int, j: int|
        0 <= i < j < stack.len() && (#[trigger] stack[i]) is Write ==> age((#[trigger] stack[j]).op())
            < age(stack[i].op())
    // The parents of what is to be written are settled, or will be first.
    &&& forall|i: int, parent: Seq<char>|
        0 <= i < stack.len() && (#[trigger] stack[i]) is Write
            && #[trigger] (history.parents)(stack[i].op()).contains(parent) ==> settled_op(
            history,
            run,
            parent,
        ) || step_above(stack, i, parent)
    // What was seen is settled or still to be written.
    &&& forall|op: Seq<char>| #[trigger]
        run.walk.seen.contains(op) ==> settled_op(history, run, op) || stack.contains(
            StepModel::Write(op),
        )
    // Only what was seen is written, nothing twice.
    &&& forall|i: int|
        0 <= i < stack.len() && (#[trigger] stack[i]) is Write ==> run.walk.seen.contains(
            stack[i].op(),
        ) && !run.written.contains(stack[i].op()) && !(history.durable)(stack[i].op())
    &&& forall|op: Seq<char>| #[trigger]
        run.written.contains(op) ==> run.walk.seen.contains(op) && !(history.durable)(op)
    &&& forall|i: int, j: int|
        0 <= i < j < run.written.len() ==> #[trigger] run.written[i] != #[trigger] run.written[j]
}

/// Every operation that was written has its parents settled by the time it was.
spec fn written_inv(history: History, run: WalkRun) -> bool {
    forall|i: int, parent: Seq<char>|
        0 <= i < run.written.len() && #[trigger] (history.parents)(run.written[i]).contains(parent)
            ==> is_root_text(parent) || (history.durable)(parent) || #[trigger] run.written.take(
            i,
        ).contains(parent)
}

/// The walk without the visits on top of its stack that ask nothing.
spec fn walk_skipped(walk: WalkModel) -> WalkModel
    decreases walk.stack.len(),
{
    if walk.stack.len() == 0 {
        walk
    } else {
        match walk.stack.last() {
            StepModel::Visit(op) => if is_root_text(op) || walk.seen.contains(op) {
                walk_skipped(WalkModel { stack: walk.stack.drop_last(), ..walk })
            } else {
                walk
            },
            StepModel::Write(_) => walk,
        }
    }
}

proof fn lemma_skip_one(history: History, age: spec_fn(Seq<char>) -> nat, run: WalkRun)
    requires
        is_history(history, age),
        walk_inv(history, age, run),
        run.walk.stack.len() > 0,
        run.walk.stack.last() is Visit,
        is_root_text(run.walk.stack.last().op()) || run.walk.seen.contains(
            run.walk.stack.last().op(),
        ),
    ensures
        walk_inv(
            history,
            age,
            WalkRun {
                walk: WalkModel { stack: run.walk.stack.drop_last(), ..run.walk },
                ..run
            },
        ),
{
    let stack = run.walk.stack;
    let low = stack.drop_last();
    let end = stack.len() - 1;
    let op = stack[end].op();
    let after = WalkRun { walk: WalkModel { stack: low, ..run.walk }, ..run };
    assert forall|i: int, parent: Seq<char>|
        0 <= i < low.len() && (#[trigger] low[i]) is Write && #[trigger] (history.parents)(
            low[i].op(),
        ).contains(parent) implies settled_op(history, after, parent) || step_above(
        low,
        i,
        parent,
    ) by {
        assert(stack[i] == low[i]);
        if !settled_op(history, run, parent) {
            let j = choose|j: int| i < j < stack.len() && (#[trigger] stack[j]).op() == parent;
            if j < end {
                assert(low[j].op() == parent);
            } else {
                assert(run.walk.seen.contains(op));
                let k = choose|k: int| 0 <= k < stack.len() && stack[k] == StepModel::Write(op);
                assert(stack[k].op() == op);
                assert(age(parent) < age(stack[i].op()));
                if k < i {
                    assert(age(stack[i].op()) < age(stack[k].op()));
                }
                assert(i < k < end);
                assert(low[k].op() == parent);
            }
        }
    }
    assert forall|o: Seq<char>| #[trigger] run.walk.seen.contains(o) implies settled_op(
        history,
        after,
        o,
    ) || low.contains(StepModel::Write(o)) by {
        if !settled_op(history, run, o) {
            let k = choose|k: int| 0 <= k < stack.len() && stack[k] == StepModel::Write(o);
            assert(low[k] == StepModel::Write(o));
        }
    }
    assert forall|i: int| 0 <= i < low.len() && (#[trigger] low[i]) is Write implies run.walk.seen.contains(
        low[i].op(),
    ) && !run.written.contains(low[i].op()) && !(history.durable)(low[i].op()) by {
        assert(stack[i] == low[i]);
    }
}

proof fn lemma_skip(history: History, age: spec_fn(Seq<char>) -> nat, run: WalkRun)
    requires
        is_history(history, age),
        walk_inv(history, age, run),
    ensures
        walk_inv(history, age, WalkRun { walk: walk_skipped(run.walk), ..run }),
        walk_next(walk_skipped(run.walk)) == walk_next(run.walk),
        walk_skipped(run.walk).seen == run.walk.seen,
        ({
            let top = walk_skipped(run.walk);
            top.stack.len() > 0 && top.stack.last() is Visit ==> !is_root_text(
                top.stack.last().op(),
            ) && !top.seen.contains(top.stack.last().op())
        }),
    decreases run.walk.stack.len(),
{
    let walk = run.walk;
    if walk.stack.len() > 0 && walk.stack.last() is Visit && (is_root_text(walk.stack.last().op())
        || walk.seen.contains(walk.stack.last().op())) {
        lemma_skip_one(history, age, run);
        let next = WalkModel { stack: walk.stack.drop_last(), ..walk };
        lemma_skip(history, age, WalkRun { walk: next, ..run });
    }
}

proof fn lemma_check_durable(history: History, age: spec_fn(Seq<char>) -> nat, run: WalkRun)
    requires
        walk_inv(history, age, run),
        run.walk.stack.len() > 0,
        run.walk.stack.last() is Visit,
        (history.durable)(run.walk.stack.last().op()),
    ensures
        walk_inv(
            history,
            age,
            WalkRun {
                walk: WalkModel {
                    stack: run.walk.stack.drop_last(),
                    seen: run.walk.seen.push(run.walk.stack.last().op()),
                },
                ..run
            },
        ),
{
    let stack = run.walk.stack;
    let low = stack.drop_last();
    let end = stack.len() - 1;
    let op = stack[end].op();
    let seen = run.walk.seen.push(op);
    let after = WalkRun { walk: WalkModel { stack: low, seen }, ..run };
    assert forall|i: int, parent: Seq<char>|
        0 <= i < low.len() && (#[trigger] low[i]) is Write && #[trigger] (history.parents)(
            low[i].op(),
        ).contains(parent) implies settled_op(history, after, parent) || step_above(
        low,
        i,
        parent,
    ) by {
        assert(stack[i] == low[i]);
        if !settled_op(history, run, parent) {
            let j = choose|j: int| i < j < stack.len() && (#[trigger] stack[j]).op() == parent;
            assert(low[j].op() == parent);
        }
    }
    lemma_pushed(run.walk.seen, op);
    assert forall|o: Seq<char>| #[trigger] seen.contains(o) implies settled_op(history, after, o)
        || low.contains(StepModel::Write(o)) by {
        if o != op && !settled_op(history, run, o) {
            assert(run.walk.seen.contains(o));
            let k = choose|k: int| 0 <= k < stack.len() && stack[k] == StepModel::Write(o);
            assert(low[k] == StepModel::Write(o));
        }
    }
    assert forall|i: int| 0 <= i < low.len() && (#[trigger] low[i]) is Write implies seen.contains(
        low[i].op(),
    ) && !run.written.contains(low[i].op()) && !(history.durable)(low[i].op()) by {
        assert(stack[i] == low[i]);
    }
    assert forall|o: Seq<char>| #[trigger] run.written.contains(o) implies seen.contains(o) && !(
    history.durable)(o) by {
        assert(run.walk.seen.contains(o));
    }
}

#[verifier::spinoff_prover]
proof fn lemma_check_missing(history: History, age: spec_fn(Seq<char>) -> nat, run: WalkRun)
    requires
        is_history(history, age),
        walk_inv(history, age, run),
        run.walk.stack.len() > 0,
        run.walk.stack.last() is Visit,
        !run.walk.seen.contains(run.walk.stack.last().op()),
        !(history.durable)(run.walk.stack.last().op()),
    ensures
        walk_inv(
            history,
            age,
            WalkRun {
                walk: walk_descended(
                    WalkModel {
                        stack: run.walk.stack.drop_last(),
                        seen: run.walk.seen.push(run.walk.stack.last().op()),
                    },
                    run.walk.stack.last().op(),
                    (history.parents)(run.walk.stack.last().op()),
                ),
                ..run
            },
        ),
{
    let stack = run.walk.stack;
    let end = stack.len() - 1;
    let op = stack[end].op();
    let parents = (history.parents)(op);
    let seen = run.walk.seen.push(op);
    let next = walk_descended(WalkModel { stack: stack.drop_last(), seen }, op, parents);
    let now = next.stack;
    let after = WalkRun { walk: next, ..run };
    assert(now.len() == stack.len() + parents.len());
    assert forall|i: int| 0 <= i < stack.len() implies (#[trigger] now[i]).op() == stack[i].op() && (i
        < end ==> now[i] == stack[i]) by {}
    assert(now[end] == StepModel::Write(op));
    assert forall|i: int| stack.len() <= i < now.len() implies #[trigger] now[i]
        == StepModel::Visit(parents[i - stack.len()]) && parents.contains(now[i].op()) by {}
    assert forall|i: int, j: int|
        0 <= i < j < now.len() && (#[trigger] now[i]) is Write implies age((#[trigger] now[j]).op())
        < age(now[i].op()) by {
        assert(i <= end);
        if j >= stack.len() {
            assert(age(now[j].op()) < age(op));
            if i < end {
                assert(stack[i] == now[i]);
                assert(age(stack[end].op()) < age(stack[i].op()));
            }
        } else {
            assert(stack[i] == now[i]);
            assert(age(stack[j].op()) < age(stack[i].op()));
        }
    }
    assert forall|i: int, parent: Seq<char>|
        0 <= i < now.len() && (#[trigger] now[i]) is Write && #[trigger] (history.parents)(
            now[i].op(),
        ).contains(parent) implies settled_op(history, after, parent) || step_above(
        now,
        i,
        parent,
    ) by {
        assert(i <= end);
        if i == end {
            let k = choose|k: int| 0 <= k < parents.len() && parents[k] == parent;
            assert(now[stack.len() + k].op() == parent);
        } else {
            assert(stack[i] == now[i]);
            if !settled_op(history, run, parent) {
                let j = choose|j: int| i < j < stack.len() && (#[trigger] stack[j]).op() == parent;
                assert(now[j].op() == parent);
            }
        }
    }
    lemma_pushed(run.walk.seen, op);
    assert forall|o: Seq<char>| #[trigger] seen.contains(o) implies settled_op(history, after, o)
        || now.contains(StepModel::Write(o)) by {
        if o == op {
            assert(now[end] == StepModel::Write(o));
        } else if !settled_op(history, run, o) {
            assert(run.walk.seen.contains(o));
            let k = choose|k: int| 0 <= k < stack.len() && stack[k] == StepModel::Write(o);
            assert(now[k] == StepModel::Write(o));
        }
    }
    assert forall|i: int| 0 <= i < now.len() && (#[trigger] now[i]) is Write implies seen.contains(
        now[i].op(),
    ) && !run.written.contains(now[i].op()) && !(history.durable)(now[i].op()) by {
        if i < end {
            assert(stack[i] == now[i]);
        } else {
            assert(i == end);
        }
    }
    assert forall|o: Seq<char>| #[trigger] run.written.contains(o) implies seen.contains(o) && !(
    history.durable)(o) by {
        assert(run.walk.seen.contains(o));
    }
}

proof fn lemma_write(history: History, age: spec_fn(Seq<char>) -> nat, run: WalkRun)
    requires
        walk_inv(history, age, run),
        written_inv(history, run),
        run.walk.stack.len() > 0,
        run.walk.stack.last() is Write,
    ensures
        ({
            let after = WalkRun {
                walk: WalkModel { stack: run.walk.stack.drop_last(), ..run.walk },
                written: run.written.push(run.walk.stack.last().op()),
            };
            walk_inv(history, age, after) && written_inv(history, after)
        }),
{
    let stack = run.walk.stack;
    let low = stack.drop_last();
    let end = stack.len() - 1;
    let op = stack[end].op();
    let written = run.written.push(op);
    let after = WalkRun { walk: WalkModel { stack: low, ..run.walk }, written };
    lemma_pushed(run.written, op);
    assert forall|i: int, parent: Seq<char>|
        0 <= i < low.len() && (#[trigger] low[i]) is Write && #[trigger] (history.parents)(
            low[i].op(),
        ).contains(parent) implies settled_op(history, after, parent) || step_above(
        low,
        i,
        parent,
    ) by {
        assert(stack[i] == low[i]);
        if !settled_op(history, after, parent) {
            let j = choose|j: int| i < j < stack.len() && (#[trigger] stack[j]).op() == parent;
            assert(low[j].op() == parent);
        }
    }
    assert forall|o: Seq<char>| #[trigger] run.walk.seen.contains(o) implies settled_op(
        history,
        after,
        o,
    ) || low.contains(StepModel::Write(o)) by {
        if !settled_op(history, after, o) {
            let k = choose|k: int| 0 <= k < stack.len() && stack[k] == StepModel::Write(o);
            assert(low[k] == StepModel::Write(o));
        }
    }
    assert forall|i: int| 0 <= i < low.len() && (#[trigger] low[i]) is Write implies run.walk.seen.contains(
        low[i].op(),
    ) && !written.contains(low[i].op()) && !(history.durable)(low[i].op()) by {
        assert(stack[i] == low[i]);
        assert(age(stack[end].op()) < age(stack[i].op()));
    }
    assert forall|i: int, j: int| 0 <= i < j < written.len() implies #[trigger] written[i]
        != #[trigger] written[j] by {
        assert(run.written.contains(run.written[i]));
    }
    assert forall|i: int, parent: Seq<char>|
        0 <= i < written.len() && #[trigger] (history.parents)(written[i]).contains(parent) implies is_root_text(
        parent,
    ) || (history.durable)(parent) || #[trigger] written.take(i).contains(parent) by {
        if i < run.written.len() {
            assert(written.take(i) =~= run.written.take(i));
            assert(written[i] == run.written[i]);
        } else {
            assert(written.take(i) =~= run.written);
            assert(stack[end] is Write);
            assert(!step_above(stack, end, parent));
            assert(settled_op(history, run, parent));
        }
    }
}

proof fn lemma_run_inv(
    history: History,
    age: spec_fn(Seq<char>) -> nat,
    op: Seq<char>,
    rounds: nat,
)
    requires
        is_history(history, age),
    ensures
        walk_inv(history, age, walk_run(history, op, rounds)),
        written_inv(history, walk_run(history, op, rounds)),
        rounds > 0 ==> is_root_text(op) || walk_run(history, op, rounds).walk.seen.contains(op),
    decreases rounds,
{
    if rounds > 0 {
        let before = walk_run(history, op, (rounds - 1) as nat);
        lemma_run_inv(history, age, op, (rounds - 1) as nat);
        lemma_skip(history, age, before);
        let top = walk_skipped(before.walk);
        let run = WalkRun { walk: top, ..before };
        assert(written_inv(history, run));
        if top.stack.len() > 0 {
            let o = top.stack.last().op();
            lemma_pushed(top.seen, o);
            if top.stack.last() is Write {
                lemma_write(history, age, run);
            } else {
                if (history.durable)(o) {
                    lemma_check_durable(history, age, run);
                } else {
                    lemma_check_missing(history, age, run);
                }
                let after = walk_run(history, op, rounds);
                assert(after.written == run.written);
                assert(written_inv(history, after));
            }
        }
        if rounds == 1 {
            reveal_with_fuel(walk_next, 3);
        }
    }
}

/// Parents are written before children: by the time an operation is written,
/// each of its parents is the root operation, or the bucket held it already, or
/// it has been written. So a walk that is interrupted after any number of rounds
/// leaves no entry whose parent is missing.
pub proof fn parents_are_written_first(
    history: History,
    age: spec_fn(Seq<char>) -> nat,
    op: Seq<char>,
    rounds: nat,
    i: int,
    parent: Seq<char>,
)
    requires
        is_history(history, age),
        0 <= i < walk_run(history, op, rounds).written.len(),
        (history.parents)(walk_run(history, op, rounds).written[i]).contains(parent),
    ensures
        is_root_text(parent) || (history.durable)(parent) || walk_run(
            history,
            op,
            rounds,
        ).written.take(i).contains(parent),
{
    lemma_run_inv(history, age, op, rounds);
}

/// Nothing is written twice, and nothing that the bucket held.
pub proof fn entries_are_written_once(
    history: History,
    age: spec_fn(Seq<char>) -> nat,
    op: Seq<char>,
    rounds: nat,
    i: int,
    j: int,
)
    requires
        is_history(history, age),
        0 <= i < j < walk_run(history, op, rounds).written.len(),
    ensures
        walk_run(history, op, rounds).written[i] != walk_run(history, op, rounds).written[j],
        !(history.durable)(walk_run(history, op, rounds).written[i]),
        !(history.durable)(walk_run(history, op, rounds).written[j]),
{
    let written = walk_run(history, op, rounds).written;
    lemma_run_inv(history, age, op, rounds);
    assert(written.contains(written[i]) && written.contains(written[j]));
}

/// A walk that has nothing more to ask has left no gap: the operation it started
/// from is settled, and so is every parent of every operation it wrote.
pub proof fn a_finished_walk_leaves_no_gap(
    history: History,
    age: spec_fn(Seq<char>) -> nat,
    op: Seq<char>,
    rounds: nat,
)
    requires
        is_history(history, age),
        walk_next(walk_run(history, op, rounds).walk).1 is None,
    ensures
        settled_op(history, walk_run(history, op, rounds), op),
        forall|i: int, parent: Seq<char>|
            0 <= i < walk_run(history, op, rounds).written.len()
                && #[trigger] (history.parents)(
                walk_run(history, op, rounds).written[i],
            ).contains(parent) ==> settled_op(history, walk_run(history, op, rounds), parent),
{
    let run = walk_run(history, op, rounds);
    lemma_run_inv(history, age, op, rounds);
    lemma_skip(history, age, run);
    let top = walk_skipped(run.walk);
    assert(top.stack.len() == 0);
    let done = WalkRun { walk: top, ..run };
    if rounds == 0 {
        reveal_with_fuel(walk_next, 3);
    } else if !is_root_text(op) {
        assert(top.seen.contains(op));
        assert(!top.stack.contains(StepModel::Write(op)));
    }
    assert forall|i: int, parent: Seq<char>|
        0 <= i < run.written.len() && #[trigger] (history.parents)(run.written[i]).contains(
            parent,
        ) implies settled_op(history, run, parent) by {
        let before = run.written.take(i);
        if before.contains(parent) {
            let k = choose|k: int| 0 <= k < before.len() && before[k] == parent;
            assert(run.written[k] == parent);
        }
    }
}

spec fn within(ops: Set<Seq<char>>, run: WalkRun) -> bool {
    &&& forall|i: int|
        0 <= i < run.walk.stack.len() ==> ops.contains((#[trigger] run.walk.stack[i]).op())
    &&& forall|i: int| 0 <= i < run.walk.seen.len() ==> ops.contains(#[trigger] run.walk.seen[i])
    &&& run.walk.seen.no_duplicates()
}

proof fn lemma_skip_within(ops: Set<Seq<char>>, run: WalkRun)
    requires
        within(ops, run),
    ensures
        within(ops, WalkRun { walk: walk_skipped(run.walk), ..run }),
    decreases run.walk.stack.len(),
{
    let walk = run.walk;
    if walk.stack.len() > 0 && walk.stack.last() is Visit && (is_root_text(walk.stack.last().op())
        || walk.seen.contains(walk.stack.last().op())) {
        let next = WalkModel { stack: walk.stack.drop_last(), ..walk };
        lemma_skip_within(ops, WalkRun { walk: next, ..run });
    }
}

proof fn lemma_run_within(
    history: History,
    age: spec_fn(Seq<char>) -> nat,
    ops: Set<Seq<char>>,
    op: Seq<char>,
    rounds: nat,
)
    requires
        is_history(history, age),
        ops.contains(op),
        forall|o: Seq<char>, parent: Seq<char>|
            ops.contains(o) && #[trigger] (history.parents)(o).contains(parent) ==> ops.contains(
                parent,
            ),
    ensures
        within(ops, walk_run(history, op, rounds)),
        walk_next(walk_run(history, op, rounds).walk).1 is Some ==> walk_run(
            history,
            op,
            rounds,
        ).walk.seen.len() + walk_run(history, op, rounds).written.len() >= rounds,
    decreases rounds,
{
    if rounds > 0 {
        let before = walk_run(history, op, (rounds - 1) as nat);
        lemma_run_within(history, age, ops, op, (rounds - 1) as nat);
        lemma_run_inv(history, age, op, (rounds - 1) as nat);
        lemma_skip(history, age, before);
        lemma_skip_within(ops, before);
        let top = walk_skipped(before.walk);
        let after = walk_run(history, op, rounds);
        if top.stack.len() > 0 {
            let o = top.stack.last().op();
            assert(top.stack[top.stack.len() - 1].op() == o);
            lemma_pushed(top.seen, o);
            let parents = (history.parents)(o);
            assert forall|i: int| 0 <= i < after.walk.stack.len() implies ops.contains(
                (#[trigger] after.walk.stack[i]).op(),
            ) by {
                if i < top.stack.len() - 1 {
                    assert(after.walk.stack[i] == top.stack[i]);
                } else if i >= top.stack.len() {
                    assert(parents.contains(parents[i - top.stack.len()]));
                    assert(after.walk.stack[i].op() == parents[i - top.stack.len()]);
                }
            }
        } else {
            assert(after.walk == top);
        }
    }
}

/// The walk ends: over finitely many operations it asks at most twice for each.
pub proof fn the_walk_ends(
    history: History,
    age: spec_fn(Seq<char>) -> nat,
    ops: Set<Seq<char>>,
    op: Seq<char>,
    rounds: nat,
)
    requires
        is_history(history, age),
        ops.finite(),
        ops.contains(op),
        forall|o: Seq<char>, parent: Seq<char>|
            ops.contains(o) && #[trigger] (history.parents)(o).contains(parent) ==> ops.contains(
                parent,
            ),
        rounds > 2 * ops.len(),
    ensures
        walk_next(walk_run(history, op, rounds).walk).1 is None,
{
    let run = walk_run(history, op, rounds);
    lemma_run_within(history, age, ops, op, rounds);
    lemma_run_inv(history, age, op, rounds);
    let seen = run.walk.seen;
    seen.unique_seq_to_set();
    run.written.unique_seq_to_set();
    assert(seen.to_set().subset_of(ops));
    assert forall|o: Seq<char>| run.written.to_set().contains(o) implies ops.contains(o) by {
        assert(run.written.contains(o));
        assert(seen.contains(o));
    }
    vstd::set_lib::lemma_len_subset(seen.to_set(), ops);
    vstd::set_lib::lemma_len_subset(run.written.to_set(), ops);
}

// ─── The entry of a publish ───────────────────────────────────────────────────

/// Whether a publish of `op_hex` has a WAL entry to write.
///
/// jj's root operation has nothing to make durable, and staged objects stay
/// staged. Where the bucket holds the entry already this is a retried publish:
/// the entry is immutable, so it cannot take anything more, and objects staged
/// since the first attempt belong to whichever publish comes next.
pub fn publish_writes_entry(op_hex: &str, durable: bool) -> (r: bool)
    ensures
        r == (!is_root_text(op_hex@) && !durable),
{
    !is_root_operation_hex(op_hex) && !durable
}

// ─── The index object ─────────────────────────────────────────────────────────

/// How the index is to be written.
#[derive(Debug, PartialEq, Eq)]
pub enum IndexPut {
    /// No conditional put: this server's lock is the only arbiter.
    Overwrite,
    /// Only where the bucket still holds the object with this etag; only where
    /// it holds none at all, for no etag.
    Compare(Option<String>),
}

/// How a write of the index came out.
#[derive(Debug, PartialEq, Eq)]
pub enum IndexPutOutcome {
    Stored(String),
    Conflict,
    Failed,
}

/// What this server knows of the index object: the etag it last saw.
#[derive(Debug, PartialEq, Eq)]
pub struct IndexSlot {
    pub conditional: bool,
    pub etag: Option<String>,
}

impl IndexSlot {
    /// How to write the index next.
    pub fn plan(&self) -> (r: IndexPut)
        ensures
            match r {
                IndexPut::Overwrite => !self.conditional,
                IndexPut::Compare(etag) => self.conditional && maybe(etag) == maybe(
                    self.etag,
                ),
            },
    {
        if !self.conditional {
            return IndexPut::Overwrite;
        }
        match &self.etag {
            Some(etag) => IndexPut::Compare(Some(etag.clone())),
            None => IndexPut::Compare(None),
        }
    }

    /// Settle a write of the index. `Some(false)` is a compare-and-swap conflict,
    /// which the caller surfaces as a retryable version mismatch; nothing is a
    /// failure.
    pub fn settle(&mut self, outcome: IndexPutOutcome) -> (r: Option<bool>)
        ensures
            final(self).conditional == old(self).conditional,
            r == (match outcome {
                IndexPutOutcome::Stored(_) => Some(true),
                IndexPutOutcome::Conflict => Some(false),
                IndexPutOutcome::Failed => None,
            }),
            maybe(final(self).etag) == (match outcome {
                IndexPutOutcome::Stored(etag) => Some(etag@),
                _ => maybe(old(self).etag),
            }),
    {
        match outcome {
            IndexPutOutcome::Stored(etag) => {
                self.etag = Some(etag);
                Some(true)
            },
            IndexPutOutcome::Conflict => Some(false),
            IndexPutOutcome::Failed => None,
        }
    }

    /// Take in what the bucket holds under the index key, with its etag.
    pub fn reload(&mut self, found: Option<(Vec<u8>, String)>) -> (r: Result<
        Option<IndexObject>,
        IndexError,
    >)
        ensures
            final(self).conditional == old(self).conditional,
            match found {
                Some((bytes, etag)) => {
                    &&& maybe(final(self).etag) == Some(etag@)
                    &&& match r {
                        Ok(index) => index matches Some(index) && index_read(bytes@) == Some(
                            index@,
                        ),
                        Err(e) => e == IndexError::Decode && index_read(bytes@) is None,
                    }
                },
                None => final(self).etag is None && r == Ok::<Option<IndexObject>, IndexError>(
                    None,
                ),
            },
    {
        match found {
            Some((bytes, etag)) => {
                self.etag = Some(etag);
                match IndexObject::decode(bytes.as_slice()) {
                    Ok(index) => Ok(Some(index)),
                    Err(e) => Err(e),
                }
            },
            None => {
                self.etag = None;
                Ok(None)
            },
        }
    }
}

/// The document that names `op_heads` as the heads at `version`.
pub fn index_document(
    version: u64,
    op_heads: &Vec<String>,
    workspace_heads: &TextMap<String>,
) -> (r: Result<Vec<u8>, IndexError>)
    ensures
        r matches Ok(out) && out@ == pretty_object(
            seq![
                ("version"@, JsonModel::Number(version)),
                ("opHeads"@, JsonModel::Texts(models(op_heads@))),
                ("workspaceHeads"@, JsonModel::Entries(pairs_model(workspace_heads.items()))),
            ],
        ) && index_read(out@) == Some(
            IndexModel {
                version,
                op_heads: models(op_heads@),
                workspace_heads: workspace_heads@,
            },
        ),
{
    let heads = op_heads.clone();
    assert(heads@ =~= op_heads@);
    let index = IndexObject {
        version,
        op_heads: heads,
        workspace_heads: workspace_heads.duplicate(),
    };
    index.encode()
}

/// The heads once `new_id` is added to `current` and `old_ids` are retired.
pub open spec fn is_prospective(
    heads: Seq<Seq<char>>,
    current: Seq<Seq<char>>,
    old_ids: Seq<Seq<u8>>,
    new_id: Seq<u8>,
) -> bool {
    &&& texts_increase(heads)
    &&& forall|head: Seq<char>| #[trigger]
        heads.contains(head) <==> head == hex_text(new_id) || (current.contains(head)
            && !hex_texts(old_ids).contains(head))
}

/// The op-head set the pending update produces, computed before the local apply
/// so the bucket can commit ahead of the repo. Sorted, and nothing twice.
pub fn prospective_op_heads(current: &Vec<String>, old_ids: &Vec<Vec<u8>>, new_id: &[u8]) -> (heads:
    Vec<String>)
    ensures
        is_prospective(models(heads@), models(current@), models(old_ids@), new_id@),
        texts_increase(models(heads@)),
        forall|head: Seq<char>| #[trigger]
            models(heads@).contains(head) <==> head == hex_text(new_id@) || (models(
                current@,
            ).contains(head) && !hex_texts(models(old_ids@)).contains(head)),
{
    let retired = to_hex_all(old_ids.as_slice());
    let new_hex = to_hex(new_id);
    let mut heads: Vec<String> = Vec::new();
    assert(models(heads@) =~= Seq::<Seq<char>>::empty());
    let mut k: usize = 0;
    while k < current.len()
        invariant
            k <= current@.len(),
            texts_increase(models(heads@)),
            models(retired@) == hex_texts(models(old_ids@)),
            forall|head: Seq<char>| #[trigger]
                models(heads@).contains(head) <==> models(current@).take(k as int).contains(head)
                    && !hex_texts(models(old_ids@)).contains(head),
        decreases current@.len() - k,
    {
        let ghost done = models(current@).take(k as int);
        proof {
            assert(models(current@).take(k + 1) =~= done.push(current@[k as int]@));
            lemma_pushed(done, current@[k as int]@);
        }
        if !holds_text(&retired, current[k].as_str()) {
            insert_text(&mut heads, current[k].as_str());
        }
        k = k + 1;
    }
    assert(models(current@).take(k as int) =~= models(current@));
    insert_text(&mut heads, new_hex.as_str());
    heads
}

/// The heads that the index is to name are the heads the repo has once the publish is
/// applied, id by id, and they come sorted.
pub proof fn prospective_heads_are_those_of_the_publish(
    heads: Seq<Seq<char>>,
    current: Seq<Seq<u8>>,
    old_ids: Seq<Seq<u8>>,
    new_id: Seq<u8>,
    id: Seq<u8>,
)
    requires
        is_prospective(heads, hex_texts(current), old_ids, new_id),
    ensures
        heads.contains(hex_text(id)) <==> heads_after(current.to_set(), old_ids, new_id).contains(
            id,
        ),
        heads.contains(hex_text(id)) <==> id == new_id || (current.contains(id)
            && !old_ids.contains(id)),
        texts_increase(heads),
{
    a_publish_leaves_the_heads_it_does_not_name(current.to_set(), old_ids, new_id, id);
    lemma_hex_contains(current, id);
    lemma_hex_contains(old_ids, id);
    hex_reads_back(id);
    hex_reads_back(new_id);
}

proof fn lemma_hex_contains(ids: Seq<Seq<u8>>, id: Seq<u8>)
    ensures
        hex_texts(ids).contains(hex_text(id)) <==> ids.contains(id),
{
    let texts = hex_texts(ids);
    if ids.contains(id) {
        let i = choose|i: int| 0 <= i < ids.len() && ids[i] == id;
        assert(texts[i] == hex_text(id));
    }
    if texts.contains(hex_text(id)) {
        let i = choose|i: int| 0 <= i < texts.len() && texts[i] == hex_text(id);
        hex_reads_back(ids[i]);
        hex_reads_back(id);
        assert(ids[i] == id);
    }
}

/// There is one list of prospective heads.
pub proof fn prospective_heads_are_fixed(
    a: Seq<Seq<char>>,
    b: Seq<Seq<char>>,
    current: Seq<Seq<char>>,
    old_ids: Seq<Seq<u8>>,
    new_id: Seq<u8>,
)
    requires
        is_prospective(a, current, old_ids, new_id),
        is_prospective(b, current, old_ids, new_id),
    ensures
        a == b,
{
    sorted_lists_are_unique(a, b);
}

// ─── Conflicts ────────────────────────────────────────────────────────────────

/// Whether an index read from the bucket is ahead of this server.
pub fn index_is_ahead(local_version: u64, index: &Option<IndexObject>) -> (r: bool)
    ensures
        r == (index matches Some(index) && index.version > local_version),
{
    match index {
        Some(index) => index.version > local_version,
        None => false,
    }
}

/// What is answered after the index moved under a publish: the same retryable
/// version mismatch a local version conflict reports. The index's own version
/// and workspace map are reported only where the index is ahead.
pub open spec fn conflict_answer(
    metadata: MetadataModel,
    index: Option<IndexModel>,
    heads: Seq<Seq<char>>,
) -> UpdateModel {
    let ahead = index matches Some(index) && index.version > metadata.version;
    UpdateModel {
        ok: false,
        heads: wire_heads(heads),
        version: if ahead {
            index->0.version
        } else {
            metadata.version
        },
        workspace_heads: if ahead {
            index->0.workspace_heads
        } else {
            metadata.workspace_heads
        },
    }
}

/// The answer to a publish whose index write conflicted. Where the index is
/// ahead its heads have been adopted before this is called: a version adopted
/// without the heads behind it would let the retry write a head set that
/// silently drops the other writer's head.
pub fn index_conflict_result(
    metadata: HeadsMetadata,
    index: Option<IndexObject>,
    heads: &Vec<String>,
) -> (r: UpdateResult)
    ensures
        r@ == conflict_answer(
            metadata@,
            match index {
                Some(index) => Some(index@),
                None => None,
            },
            models(heads@),
        ),
        !r.ok,
        r.heads@.len() == heads@.len(),
        match index {
            Some(index) => r.version == (if index.version > metadata.version {
                index.version
            } else {
                metadata.version
            }) && r.workspace_heads@ == (if index.version > metadata.version {
                index.workspace_heads@
            } else {
                metadata.workspace_heads@
            }),
            None => r.version == metadata.version && r.workspace_heads@
                == metadata.workspace_heads@,
        },
{
    let mut version: u64 = metadata.version;
    let mut workspace_heads = metadata.workspace_heads;
    match index {
        Some(index) => {
            if index.version > version {
                version = index.version;
                workspace_heads = index.workspace_heads;
            }
        },
        None => {},
    }
    UpdateResult { ok: false, heads: head_ids_for_wire(heads), version, workspace_heads }
}

/// A publish that lost to the index is refused, and told the later of the two versions
/// with the workspace map recorded at it, so that the retry starts from there. An index
/// that is not ahead changes nothing of the answer.
pub proof fn a_conflict_reports_the_later_version(
    metadata: MetadataModel,
    index: Option<IndexModel>,
    heads: Seq<Seq<char>>,
)
    ensures
        ({
            let answer = conflict_answer(metadata, index, heads);
            &&& !answer.ok
            &&& answer.version >= metadata.version
            &&& index matches Some(index) ==> answer.version >= index.version
            &&& answer.version == metadata.version ==> answer.workspace_heads
                == metadata.workspace_heads
            &&& answer.version != metadata.version ==> (index matches Some(index) && answer.version
                == index.version && answer.workspace_heads == index.workspace_heads)
            &&& answer.heads.len() == heads.len()
            &&& forall|i: int|
                0 <= i < heads.len() ==> match hex_value(heads[i]) {
                    Ok(bytes) => #[trigger] answer.heads[i] == bytes,
                    Err(_) => answer.heads[i].len() == 0,
                }
        }),
{
}

// ─── Replay ───────────────────────────────────────────────────────────────────

pub open spec fn missing_from(local: Seq<Seq<char>>) -> spec_fn(Seq<char>) -> bool {
    |head: Seq<char>| !local.contains(head) && !is_root_text(head)
}

/// The heads of an index that the local repo has yet to apply, in their order.
pub open spec fn replayed_heads(named: Seq<Seq<char>>, local: Seq<Seq<char>>) -> Seq<Seq<char>> {
    named.filter(missing_from(local))
}

pub fn heads_to_replay(named: &Vec<String>, local: &Vec<String>) -> (r: Vec<String>)
    ensures
        models(r@) == replayed_heads(models(named@), models(local@)),
        forall|head: Seq<char>| #[trigger]
            models(r@).contains(head) <==> models(named@).contains(head) && !models(
                local@,
            ).contains(head) && head != Seq::new(128, |i: int| '0'),
{
    let ghost wanted = missing_from(models(local@));
    let mut r: Vec<String> = Vec::new();
    let mut i: usize = 0;
    proof {
        reveal(Seq::filter);
        assert(models(r@) =~= models(named@).take(0).filter(wanted));
    }
    while i < named.len()
        invariant
            i <= named@.len(),
            wanted == missing_from(models(local@)),
            models(r@) == models(named@).take(i as int).filter(wanted),
        decreases named@.len() - i,
    {
        let ghost before = models(r@);
        proof {
            let next = models(named@).take(i + 1);
            assert(next.drop_last() =~= models(named@).take(i as int));
            assert(next.last() == named@[i as int]@);
            reveal(Seq::filter);
        }
        if !holds_text(local, named[i].as_str()) && !is_root_operation_hex(named[i].as_str()) {
            r.push(named[i].clone());
            assert(models(r@) =~= before.push(named@[i as int]@));
        }
        i = i + 1;
    }
    assert(models(named@).take(i as int) =~= models(named@));
    proof {
        assert forall|head: Seq<char>| #[trigger] models(r@).contains(head) <==> models(
            named@,
        ).contains(head) && !models(local@).contains(head) && head != Seq::new(
            128,
            |i: int| '0',
        ) by {
            the_missing_heads_are_replayed(models(named@), models(local@), head);
        }
    }
    r
}

/// A head is replayed exactly when the index names it, the local repo does not have it,
/// and it is not the root operation.
pub proof fn the_missing_heads_are_replayed(
    named: Seq<Seq<char>>,
    local: Seq<Seq<char>>,
    head: Seq<char>,
)
    ensures
        replayed_heads(named, local).contains(head) <==> named.contains(head) && !local.contains(
            head,
        ) && head != Seq::new(128, |i: int| '0'),
{
    let wanted = missing_from(local);
    let replayed = replayed_heads(named, local);
    if replayed.contains(head) {
        let i = choose|i: int| 0 <= i < replayed.len() && replayed[i] == head;
        named.lemma_filter_contains_rev(wanted, head);
        named.lemma_filter_pred(wanted, i);
    }
    if named.contains(head) && wanted(head) {
        let i = choose|i: int| 0 <= i < named.len() && named[i] == head;
        named.lemma_filter_contains(wanted, i);
    }
}

/// Heads are replayed in the order in which the index names them.
pub proof fn heads_are_replayed_in_order(
    first: Seq<Seq<char>>,
    second: Seq<Seq<char>>,
    local: Seq<Seq<char>>,
)
    ensures
        replayed_heads(first + second, local) == replayed_heads(first, local) + replayed_heads(
            second,
            local,
        ),
{
    Seq::filter_distributes_over_add(first, second, missing_from(local));
}

/// The sentence for a head whose WAL entry the bucket does not hold.
pub fn missing_entry_message(head: &str) -> (s: String)
    ensures
        s@ == "bucket index names op head "@ + head@ + " but WAL entry "@ + ("wal/"@ + head@)
            + " is missing"@,
{
    let key = wal_key(head);
    let mut s = "bucket index names op head ".to_owned();
    s.append(head);
    s.append(" but WAL entry ");
    s.append(key.as_str());
    s.append(" is missing");
    s
}

/// How one record of an entry is put into the local repo.
#[derive(Debug, PartialEq, Eq)]
pub enum ReplayStep {
    /// Write the operation under this name, unless it is there.
    Operation(String),
    /// Write the view under this name, unless it is there.
    View(String),
    /// Write an object of this kind; its id has to come out as recorded.
    Object(&'static str),
}

pub open spec fn replay_step_of(step: ReplayStep, record: RecordModel) -> bool {
    match record.kind {
        RecordKind::Operation => step matches ReplayStep::Operation(name) && name@ == hex_text(
            record.id,
        ),
        RecordKind::View => step matches ReplayStep::View(name) && name@ == hex_text(record.id),
        _ => step matches ReplayStep::Object(kind) && record.kind.object_word() == Some(kind@),
    }
}

/// A record is replayed as what it is: an operation or a view under the hex of its own
/// id, and anything else as an object of its own kind.
pub proof fn a_record_is_replayed_as_what_it_is(step: ReplayStep, record: RecordModel)
    requires
        replay_step_of(step, record),
    ensures
        record.kind is Operation <==> step is Operation,
        record.kind is View <==> step is View,
        step matches ReplayStep::Operation(name) ==> name@ == hex_text(record.id),
        step matches ReplayStep::View(name) ==> name@ == hex_text(record.id),
        step matches ReplayStep::Object(kind) ==> RecordKind::of_object_word(kind@) == Some(
            record.kind,
        ),
{
    record_kinds_read_back(record.kind);
}

/// How a record is replayed.
pub fn replay_step(record: &WalRecord) -> (step: ReplayStep)
    ensures
        replay_step_of(step, record@),
        match record.kind {
            RecordKind::Operation => step matches ReplayStep::Operation(name) && name@ == hex_text(
                record.id@,
            ),
            RecordKind::View => step matches ReplayStep::View(name) && name@ == hex_text(record.id@),
            RecordKind::File => step matches ReplayStep::Object(kind) && kind@ == "file"@,
            RecordKind::Tree => step matches ReplayStep::Object(kind) && kind@ == "tree"@,
            RecordKind::Commit => step matches ReplayStep::Object(kind) && kind@ == "commit"@,
            RecordKind::Symlink => step matches ReplayStep::Object(kind) && kind@ == "symlink"@,
        },
{
    match record.kind {
        RecordKind::Operation => ReplayStep::Operation(to_hex(record.id.as_slice())),
        RecordKind::View => ReplayStep::View(to_hex(record.id.as_slice())),
        RecordKind::File => ReplayStep::Object("file"),
        RecordKind::Tree => ReplayStep::Object("tree"),
        RecordKind::Commit => ReplayStep::Object("commit"),
        RecordKind::Symlink => ReplayStep::Object("symlink"),
    }
}

/// How an entry is replayed: its records in order, which is dependencies first.
pub fn replay_plan(entry: &WalEntry) -> (steps: Vec<ReplayStep>)
    ensures
        steps@.len() == entry@.records.len(),
        forall|i: int|
            0 <= i < steps@.len() ==> replay_step_of(#[trigger] steps@[i], entry@.records[i]),
        forall|i: int|
            0 <= i < steps@.len() ==> (#[trigger] steps@[i] is Operation <==> entry.records@[i].kind
                is Operation) && (steps@[i] is View <==> entry.records@[i].kind is View),
{
    let mut steps: Vec<ReplayStep> = Vec::new();
    let mut i: usize = 0;
    while i < entry.records.len()
        invariant
            i <= entry.records@.len(),
            steps@.len() == i,
            forall|j: int| 0 <= j < i ==> replay_step_of(#[trigger] steps@[j], entry@.records[j]),
            forall|j: int|
                0 <= j < i ==> (#[trigger] steps@[j] is Operation <==> entry.records@[j].kind
                    is Operation) && (steps@[j] is View <==> entry.records@[j].kind is View),
        decreases entry.records@.len() - i,
    {
        let step = replay_step(&entry.records[i]);
        assert(entry@.records[i as int] == entry.records@[i as int]@);
        steps.push(step);
        i = i + 1;
    }
    steps
}

/// The id that a replayed object came out with has to be the one recorded.
pub fn check_replayed(kind: &str, id: &[u8], recorded: &[u8]) -> (r: Result<(), String>)
    ensures
        match r {
            Ok(()) => id@ == recorded@,
            Err(message) => id@ != recorded@ && message@ == "replayed "@ + kind@
                + " object hashed to "@ + hex_text(id@) + " but WAL recorded "@ + hex_text(
                recorded@,
            ),
        },
{
    if same_bytes(id, recorded) {
        return Ok(());
    }
    let mut s = "replayed ".to_owned();
    s.append(kind);
    s.append(" object hashed to ");
    s.append(to_hex(id).as_str());
    s.append(" but WAL recorded ");
    s.append(to_hex(recorded).as_str());
    Err(s)
}

// ─── Recovery ─────────────────────────────────────────────────────────────────

/// What a server has to do at startup to be in line with the bucket.
#[derive(Debug, Clone, Copy, PartialEq, Eq, Structural)]
pub enum Recovery {
    /// A fresh bucket: put the local heads in, so that the first publish has
    /// something to compare against.
    Seed,
    /// The bucket is ahead: replay the heads it names, then take its version.
    Adopt,
    /// The repo is ahead: publish what is here.
    Republish,
    InSync,
}

pub open spec fn recovery_of(local_version: u64, index_version: Option<u64>) -> Recovery {
    match index_version {
        None => Recovery::Seed,
        Some(version) => if version > local_version {
            Recovery::Adopt
        } else if version < local_version {
            Recovery::Republish
        } else {
            Recovery::InSync
        },
    }
}

/// Whoever is ahead is followed: the bucket is adopted exactly when its version is the
/// later one, the repo is published exactly when its version is, and a bucket without an
/// index is seeded.
pub proof fn recovery_follows_the_later_version(local_version: u64, index_version: Option<u64>)
    ensures
        recovery_of(local_version, index_version) is Seed <==> index_version is None,
        index_version matches Some(version) ==> {
            &&& recovery_of(local_version, index_version) is Adopt <==> version > local_version
            &&& recovery_of(local_version, index_version) is Republish <==> version < local_version
            &&& recovery_of(local_version, index_version) is InSync <==> version == local_version
        },
{
}

pub fn recovery(local_version: u64, index: &Option<IndexObject>) -> (r: Recovery)
    ensures
        r == recovery_of(
            local_version,
            match *index {
                Some(index) => Some(index.version),
                None => None,
            },
        ),
        r is Seed <==> index is None,
        r is Adopt <==> (index matches Some(index) && index.version > local_version),
        r is Republish <==> (index matches Some(index) && index.version < local_version),
        r is InSync <==> (index matches Some(index) && index.version == local_version),
{
    match index {
        None => Recovery::Seed,
        Some(index) => if index.version > local_version {
            Recovery::Adopt
        } else if index.version < local_version {
            Recovery::Republish
        } else {
            Recovery::InSync
        },
    }
}

/// The metadata to record once every head an index names has been replayed.
/// The order is load-bearing: the heads go in first, and the version is only
/// recorded if they all landed.
pub fn adopted_metadata(index: &IndexObject) -> (r: HeadsMetadata)
    ensures
        r@ == (MetadataModel {
            version: index.version,
            workspace_heads: index.workspace_heads@,
        }),
{
    HeadsMetadata { version: index.version, workspace_heads: index.workspace_heads.duplicate() }
}

// ─── Derived heads ────────────────────────────────────────────────────────────

pub open spec fn all_true(flags: Seq<bool>) -> bool {
    forall|i: int| 0 <= i < flags.len() ==> #[trigger] flags[i]
}

fn any_false(flags: &Vec<bool>) -> (r: bool)
    ensures
        r == !all_true(flags@),
{
    let mut i: usize = 0;
    while i < flags.len()
        invariant
            i <= flags@.len(),
            forall|j: int| 0 <= j < i ==> #[trigger] flags@[j],
        decreases flags@.len() - i,
    {
        if !flags[i] {
            return true;
        }
        i = i + 1;
    }
    false
}

/// The head set that may be acknowledged after the server derived `op_heads` on
/// its own, given which of them could be made durable, in order and up to the
/// first that could not.
///
/// This runs after the publish is durable and applied, so it cannot fail
/// anything: where one derived head is not durable the answer is the set the
/// index has just committed.
pub fn acknowledged_heads(
    op_heads: &Vec<String>,
    already_durable: &Vec<String>,
    made_durable: &Vec<bool>,
) -> (r: Vec<String>)
    ensures
        r@ == (if made_durable@.len() >= op_heads@.len() && all_true(made_durable@) {
            op_heads@
        } else {
            already_durable@
        }),
{
    if made_durable.len() >= op_heads.len() && !any_false(made_durable) {
        let r = op_heads.clone();
        assert(r@ =~= op_heads@);
        r
    } else {
        let r = already_durable.clone();
        assert(r@ =~= already_durable@);
        r
    }
}

/// How far the mirroring of a derived head set into the index has come.
#[derive(Debug, Clone, Copy, PartialEq, Eq, Structural)]
pub enum Mirroring {
    /// The index was not written yet.
    Open,
    /// How the write came out: `Some(false)` is a compare-and-swap conflict, nothing
    /// a failure.
    Tried(Option<bool>),
    /// The index was read again after a conflict, whether or not it could be.
    Reloaded,
}

/// What to do next for a head set the server derived on its own.
#[derive(Debug, PartialEq, Eq)]
pub enum DerivedStep {
    /// Make sure that the bucket holds this operation and its ancestors.
    EnsureEntry(String),
    /// Write the index that names the derived heads.
    WriteIndex,
    /// Read the index again.
    ReloadIndex,
    /// Answer the publish with these heads.
    Acknowledge(Vec<String>),
}

#[verifier::ext_equal]
pub enum DerivedModel {
    EnsureEntry(Seq<char>),
    WriteIndex,
    ReloadIndex,
    Acknowledge(Seq<Seq<char>>),
}

impl View for DerivedStep {
    type V = DerivedModel;

    open spec fn view(&self) -> DerivedModel {
        match self {
            DerivedStep::EnsureEntry(head) => DerivedModel::EnsureEntry(head@),
            DerivedStep::WriteIndex => DerivedModel::WriteIndex,
            DerivedStep::ReloadIndex => DerivedModel::ReloadIndex,
            DerivedStep::Acknowledge(heads) => DerivedModel::Acknowledge(models(heads@)),
        }
    }
}

/// One head after the other is made durable, and the first that cannot be ends it
/// with the heads the index holds already. Where all are, the index is written once,
/// and however that comes out the answer is the derived set.
pub open spec fn derived_step_of(
    op_heads: Seq<Seq<char>>,
    already_durable: Seq<Seq<char>>,
    made_durable: Seq<bool>,
    mirroring: Mirroring,
) -> DerivedModel {
    if !all_true(made_durable) {
        DerivedModel::Acknowledge(already_durable)
    } else if made_durable.len() < op_heads.len() {
        DerivedModel::EnsureEntry(op_heads[made_durable.len() as int])
    } else {
        match mirroring {
            Mirroring::Open => DerivedModel::WriteIndex,
            Mirroring::Tried(Some(false)) => DerivedModel::ReloadIndex,
            _ => DerivedModel::Acknowledge(op_heads),
        }
    }
}

/// Say what to do next for the heads `op_heads`, given which of them could be made
/// durable so far, in order, and how far the mirroring has come.
pub fn derived_step(
    op_heads: &Vec<String>,
    already_durable: &Vec<String>,
    made_durable: &Vec<bool>,
    mirroring: Mirroring,
) -> (r: DerivedStep)
    ensures
        r@ == derived_step_of(
            models(op_heads@),
            models(already_durable@),
            made_durable@,
            mirroring,
        ),
{
    let failed = any_false(made_durable);
    if !failed && made_durable.len() < op_heads.len() {
        return DerivedStep::EnsureEntry(op_heads[made_durable.len()].clone());
    }
    if !failed {
        match mirroring {
            Mirroring::Open => {
                return DerivedStep::WriteIndex;
            },
            Mirroring::Tried(Some(false)) => {
                return DerivedStep::ReloadIndex;
            },
            _ => {},
        }
    }
    DerivedStep::Acknowledge(acknowledged_heads(op_heads, already_durable, made_durable))
}

/// The derived heads are made durable one by one and in order: the one that is asked for
/// next is the first that was not tried, and none is asked for behind one that failed.
pub proof fn derived_heads_are_taken_in_order(
    op_heads: Seq<Seq<char>>,
    already_durable: Seq<Seq<char>>,
    made_durable: Seq<bool>,
    mirroring: Mirroring,
)
    ensures
        all_true(made_durable) <==> !made_durable.contains(false),
        derived_step_of(
            op_heads,
            already_durable,
            made_durable,
            mirroring,
        ) matches DerivedModel::EnsureEntry(head) ==> !made_durable.contains(false) && made_durable.len()
            < op_heads.len() && head == op_heads[made_durable.len() as int],
        !made_durable.contains(false) && made_durable.len() < op_heads.len() ==> derived_step_of(
            op_heads,
            already_durable,
            made_durable,
            mirroring,
        ) is EnsureEntry,
        made_durable.contains(false) ==> derived_step_of(
            op_heads,
            already_durable,
            made_durable,
            mirroring,
        ) == DerivedModel::Acknowledge(already_durable),
{
    if all_true(made_durable) && made_durable.contains(false) {
        let i = choose|i: int| 0 <= i < made_durable.len() && made_durable[i] == false;
        assert(made_durable[i]);
    }
    if !all_true(made_durable) {
        let i = choose|i: int| 0 <= i < made_durable.len() && !made_durable[i];
        assert(made_durable[i] == false);
    }
}

/// The index is asked for exactly where every derived head was made durable and it
/// was not written yet: no index names a derived head that the bucket does not hold.
pub proof fn derived_heads_are_durable_first(
    op_heads: Seq<Seq<char>>,
    already_durable: Seq<Seq<char>>,
    made_durable: Seq<bool>,
    mirroring: Mirroring,
)
    ensures
        derived_step_of(op_heads, already_durable, made_durable, mirroring) is WriteIndex <==> {
            &&& all_true(made_durable)
            &&& made_durable.len() >= op_heads.len()
            &&& mirroring is Open
        },
{
}

/// What the publish is answered does not depend on how the index write came out: once
/// it was tried there is an answer, at once or after the index was read again, and it
/// is the derived set. Where a head could not be made durable, the answer is the set
/// the index holds already, and the index is not touched.
pub proof fn mirroring_changes_no_answer(
    op_heads: Seq<Seq<char>>,
    already_durable: Seq<Seq<char>>,
    made_durable: Seq<bool>,
    outcome: Option<bool>,
)
    requires
        made_durable.len() >= op_heads.len() || !all_true(made_durable),
    ensures
        ({
            let answer = DerivedModel::Acknowledge(
                if all_true(made_durable) {
                    op_heads
                } else {
                    already_durable
                },
            );
            let tried = derived_step_of(
                op_heads,
                already_durable,
                made_durable,
                Mirroring::Tried(outcome),
            );
            &&& tried == answer || tried is ReloadIndex && outcome == Some(false) && all_true(
                made_durable,
            )
            &&& derived_step_of(op_heads, already_durable, made_durable, Mirroring::Reloaded)
                == answer
            &&& !all_true(made_durable) ==> forall|mirroring: Mirroring| #[trigger]
                derived_step_of(op_heads, already_durable, made_durable, mirroring) == answer
        }),
{
}

// ─── Hooks ────────────────────────────────────────────────────────────────────

/// A hook's counter, as an environment variable gives it. Anything unset, empty
/// or unparseable reads as zero, which is every hook's inert setting.
pub fn test_env_u64(value: Option<&str>) -> (n: u64)
    ensures
        n == (match value {
            Some(text) => match parsed_u64(trimmed(text@, CharClass::White)) {
                Some(n) => n,
                None => 0,
            },
            None => 0,
        }),
{
    match value {
        Some(text) => {
            let text = trim(text, CharClass::White);
            match parse_u64(text.as_str()) {
                Some(n) => n,
                None => 0,
            }
        },
        None => 0,
    }
}

} // verus!
