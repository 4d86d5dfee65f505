//! Whether a publish may be built on what it is built on.
//!
//! A publish is measured against bases: the views of the operation heads the
//! server serves, and the views of the published operation's own parents. A
//! parent is only evidence if the server put it in the history itself, so every
//! parent has to be an operation this server already serves: reachable from a
//! current operation head, or the root operation.
//!
//! Both walks over the operation log are bounded, and both read operations as
//! they go. Here a walk says which operation it wants read, and is given its
//! parents.
use vstd::prelude::*;
use vstd::string::*;

use crate::heads::other_than;
use crate::hex::{from_hex, hex_text, hex_value, to_hex, HexError};
use crate::order::{
    bytes_less, bytes_order_is_total, copied, copied_ids, holds_bytes, is_bytes_less, lemma_pushed,
    same_bytes,
};
use crate::text::models;

verus! {

/// How many operations a scope check will read to answer a question about the
/// operation graph.
///
/// An honest stale parent is a handful of operations behind the head it lost the
/// race to, and the fork point of two divergent heads is a handful of operations
/// back as well. A walk that has gone further than this is either a client too
/// far behind to publish anyway or a caller making the server read the whole
/// operation log for nothing.
pub const MAX_HISTORY_WALK: usize = 1024;

// ─── Served history ───────────────────────────────────────────────────────────

/// A walk down from the heads, looking for the parents of a published operation.
/// An honest stale parent is an ancestor of a head, so that is the direction the
/// answer lies in.
#[derive(Debug, PartialEq, Eq)]
pub struct ServedWalk {
    wanted: Vec<Vec<u8>>,
    seen: Vec<Vec<u8>>,
    frontier: Vec<Vec<u8>>,
    read: usize,
    root: Vec<u8>,
}

/// The walk, as a mathematical value.
#[verifier::ext_equal]
pub struct ServedModel {
    /// Parents that were not found yet.
    pub wanted: Seq<Seq<u8>>,
    /// Operations that are heads or ancestors of heads.
    pub seen: Seq<Seq<u8>>,
    /// Those of them that were not read yet; the last one is read next.
    pub frontier: Seq<Seq<u8>>,
    /// How many were read.
    pub read: nat,
    pub root: Seq<u8>,
}

impl View for ServedWalk {
    type V = ServedModel;

    closed spec fn view(&self) -> ServedModel {
        ServedModel {
            wanted: models(self.wanted@),
            seen: models(self.seen@),
            frontier: models(self.frontier@),
            read: self.read as nat,
            root: self.root@,
        }
    }
}

/// What the walk says next.
#[derive(Debug, PartialEq, Eq)]
pub enum ServedStep {
    /// Every parent is part of the history this server serves.
    Accept,
    /// Give this operation's parents to [`ServedWalk::took`]; none, where it
    /// cannot be read.
    Read(Vec<u8>),
    /// This parent was not found.
    Deny(Vec<u8>),
}

pub open spec fn unknown_parent(heads: Seq<Seq<u8>>, root: Seq<u8>) -> spec_fn(Seq<u8>) -> bool {
    |parent: Seq<u8>| parent != root && !heads.contains(parent)
}

/// The walk that looks for `parents` under `heads`.
pub open spec fn served_start(
    parents: Seq<Seq<u8>>,
    heads: Seq<Seq<u8>>,
    root: Seq<u8>,
) -> ServedModel {
    ServedModel {
        wanted: parents.filter(unknown_parent(heads, root)),
        seen: heads,
        frontier: heads,
        read: 0,
        root,
    }
}

/// The walk once it was given the parents of the operation it asked for. It
/// stops looking at them where nothing is wanted any more.
pub open spec fn served_took(walk: ServedModel, parents: Seq<Seq<u8>>) -> ServedModel
    decreases parents.len(),
{
    if parents.len() == 0 {
        walk
    } else {
        let before = served_took(walk, parents.drop_last());
        let parent = parents.last();
        if before.wanted.len() == 0 {
            before
        } else {
            let wanted = before.wanted.filter(other_than(parent));
            if wanted.len() > 0 && parent != before.root && !before.seen.contains(parent) {
                ServedModel {
                    wanted,
                    seen: before.seen.push(parent),
                    frontier: before.frontier.push(parent),
                    ..before
                }
            } else {
                ServedModel { wanted, ..before }
            }
        }
    }
}

/// The smallest of some ids.
pub open spec fn is_smallest(ids: Seq<Seq<u8>>, id: Seq<u8>) -> bool {
    ids.contains(id) && forall|other: Seq<u8>| #[trigger]
        ids.contains(other) ==> other == id || bytes_less(id, other)
}

fn smallest(ids: &Vec<Vec<u8>>) -> (id: Vec<u8>)
    requires
        ids@.len() > 0,
    ensures
        is_smallest(models(ids@), id@),
{
    let mut best: usize = 0;
    let mut i: usize = 1;
    while i < ids.len()
        invariant
            best < i <= ids@.len(),
            forall|j: int|
                0 <= j < i ==> (#[trigger] ids@[j])@ == ids@[best as int]@ || bytes_less(
                    ids@[best as int]@,
                    ids@[j]@,
                ),
        decreases ids@.len() - i,
    {
        if is_bytes_less(ids[i].as_slice(), ids[best].as_slice()) {
            proof {
                assert forall|j: int| 0 <= j < i + 1 implies (#[trigger] ids@[j])@ == ids@[i as int]@
                    || bytes_less(ids@[i as int]@, ids@[j]@) by {
                    bytes_order_is_total(ids@[i as int]@, ids@[best as int]@, ids@[j]@);
                }
            }
            best = i;
        } else {
            proof {
                bytes_order_is_total(ids@[i as int]@, ids@[best as int]@, ids@[best as int]@);
            }
        }
        i = i + 1;
    }
    let id = copied(ids[best].as_slice());
    proof {
        let all = models(ids@);
        assert(all[best as int] == id@);
        assert forall|other: Seq<u8>| #[trigger] all.contains(other) implies other == id@
            || bytes_less(id@, other) by {
            let j = choose|j: int| 0 <= j < all.len() && all[j] == other;
            assert(ids@[j]@ == other);
        }
    }
    id
}

impl ServedWalk {
    pub fn new(parents: &Vec<Vec<u8>>, heads: &Vec<Vec<u8>>, root: &[u8]) -> (r: ServedWalk)
        ensures
            r@ == served_start(models(parents@), models(heads@), root@),
    {
        let ghost pred = unknown_parent(models(heads@), root@);
        let mut wanted: Vec<Vec<u8>> = Vec::new();
        let mut i: usize = 0;
        proof {
            reveal(Seq::filter);
            assert(models(wanted@) =~= models(parents@).take(0).filter(pred));
        }
        while i < parents.len()
            invariant
                i <= parents@.len(),
                pred == unknown_parent(models(heads@), root@),
                models(wanted@) == models(parents@).take(i as int).filter(pred),
            decreases parents@.len() - i,
        {
            let ghost before = models(wanted@);
            proof {
                let next = models(parents@).take(i + 1);
                assert(next.drop_last() =~= models(parents@).take(i as int));
                assert(next.last() == parents@[i as int]@);
                reveal(Seq::filter);
            }
            if !same_bytes(parents[i].as_slice(), root) && !holds_bytes(
                heads,
                parents[i].as_slice(),
            ) {
                let id = copied(parents[i].as_slice());
                wanted.push(id);
                assert(models(wanted@) =~= before.push(id@));
            }
            i = i + 1;
        }
        assert(models(parents@).take(i as int) =~= models(parents@));
        ServedWalk {
            wanted,
            seen: copied_ids(heads),
            frontier: copied_ids(heads),
            read: 0,
            root: copied(root),
        }
    }

    /// What to do next. The walk accepts once nothing is wanted, and denies the
    /// smallest of what is left once it has nothing more to read or has read as
    /// much as it may.
    pub fn next(&mut self) -> (step: ServedStep)
        ensures
            final(self)@ == (ServedModel {
                frontier: if old(self)@.wanted.len() > 0 && old(self)@.frontier.len() > 0 {
                    old(self)@.frontier.drop_last()
                } else {
                    old(self)@.frontier
                },
                read: if step is Read {
                    old(self)@.read + 1
                } else {
                    old(self)@.read
                },
                ..old(self)@
            }),
            match step {
                ServedStep::Accept => old(self)@.wanted.len() == 0,
                ServedStep::Read(id) => {
                    &&& old(self)@.wanted.len() > 0
                    &&& old(self)@.frontier.len() > 0
                    &&& old(self)@.read < MAX_HISTORY_WALK
                    &&& id@ == old(self)@.frontier.last()
                },
                ServedStep::Deny(id) => {
                    &&& old(self)@.wanted.len() > 0
                    &&& old(self)@.frontier.len() == 0 || old(self)@.read >= MAX_HISTORY_WALK
                    &&& is_smallest(old(self)@.wanted, id@)
                },
            },
    {
        if self.wanted.len() == 0 {
            return ServedStep::Accept;
        }
        let ghost before = self@;
        match self.frontier.pop() {
            Some(id) => {
                assert(self@.frontier =~= before.frontier.drop_last());
                assert(before.frontier.last() == id@);
                if self.read >= MAX_HISTORY_WALK {
                    return ServedStep::Deny(smallest(&self.wanted));
                }
                self.read = self.read + 1;
                ServedStep::Read(id)
            },
            None => ServedStep::Deny(smallest(&self.wanted)),
        }
    }

    /// Take in the parents of the operation that was asked for.
    pub fn took(&mut self, parents: &Vec<Vec<u8>>)
        ensures
            final(self)@ == served_took(old(self)@, models(parents@)),
    {
        let mut i: usize = 0;
        assert(models(parents@).take(0) =~= Seq::<Seq<u8>>::empty());
        while i < parents.len()
            invariant
                i <= parents@.len(),
                self@ == served_took(old(self)@, models(parents@).take(i as int)),
            decreases parents@.len() - i,
        {
            let ghost before = self@;
            let ghost parent = parents@[i as int]@;
            proof {
                let next = models(parents@).take(i + 1);
                assert(next.drop_last() =~= models(parents@).take(i as int));
                assert(next.last() == parent);
            }
            if self.wanted.len() > 0 {
                self.forget(parents[i].as_slice());
                let ghost wanted = self@.wanted;
                if self.wanted.len() > 0 && !same_bytes(
                    parents[i].as_slice(),
                    self.root.as_slice(),
                ) && !holds_bytes(&self.seen, parents[i].as_slice()) {
                    self.seen.push(copied(parents[i].as_slice()));
                    self.frontier.push(copied(parents[i].as_slice()));
                    assert(self@.seen =~= before.seen.push(parent));
                    assert(self@.frontier =~= before.frontier.push(parent));
                }
            }
            i = i + 1;
        }
        assert(models(parents@).take(i as int) =~= models(parents@));
    }

    /// Stop looking for `id`.
    fn forget(&mut self, id: &[u8])
        ensures
            final(self)@ == (ServedModel {
                wanted: old(self)@.wanted.filter(other_than(id@)),
                ..old(self)@
            }),
    {
        let ghost all = models(self.wanted@);
        let ghost pred = other_than(id@);
        let mut kept: Vec<Vec<u8>> = Vec::new();
        let mut i: usize = 0;
        proof {
            reveal(Seq::filter);
            assert(models(kept@) =~= all.take(0).filter(pred));
        }
        while i < self.wanted.len()
            invariant
                i <= self.wanted@.len(),
                all == models(self.wanted@),
                *self == *old(self),
                pred == other_than(id@),
                models(kept@) == all.take(i as int).filter(pred),
            decreases self.wanted@.len() - i,
        {
            let ghost before = models(kept@);
            proof {
                let next = all.take(i + 1);
                assert(next.drop_last() =~= all.take(i as int));
                assert(next.last() == self.wanted@[i as int]@);
                reveal(Seq::filter);
            }
            if !same_bytes(self.wanted[i].as_slice(), id) {
                let w = copied(self.wanted[i].as_slice());
                kept.push(w);
                assert(models(kept@) =~= before.push(w@));
            }
            i = i + 1;
        }
        assert(all.take(i as int) =~= all);
        self.wanted = kept;
    }
}

/// The sentence for a parent that this server does not serve.
pub fn unserved_parent_message(parent: &[u8]) -> (s: String)
    ensures
        s@ == "this token may not publish an operation built on "@ + hex_text(parent@)
            + " — that operation is not part of the history this server serves"@,
{
    let mut s = "this token may not publish an operation built on ".to_owned();
    s.append(to_hex(parent).as_str());
    s.append(" — that operation is not part of the history this server serves");
    s
}

// ─── What the walk over served history promises ───────────────────────────────

/// Whether `id` is one of `heads` or at most `steps` parents below one.
pub open spec fn within_steps(
    history: spec_fn(Seq<u8>) -> Seq<Seq<u8>>,
    heads: Seq<Seq<u8>>,
    id: Seq<u8>,
    steps: nat,
) -> bool
    decreases steps,
{
    if steps == 0 {
        heads.contains(id)
    } else {
        within_steps(history, heads, id, (steps - 1) as nat) || exists|child: Seq<u8>|
            within_steps(history, heads, child, (steps - 1) as nat) && #[trigger] history(
                child,
            ).contains(id)
    }
}

/// Whether `id` is part of the history under `heads`.
pub open spec fn is_served(
    history: spec_fn(Seq<u8>) -> Seq<Seq<u8>>,
    heads: Seq<Seq<u8>>,
    id: Seq<u8>,
) -> bool {
    exists|steps: nat| within_steps(history, heads, id, steps)
}

/// One round of the walk: read the next operation and take in its parents.
pub open spec fn served_round(
    history: spec_fn(Seq<u8>) -> Seq<Seq<u8>>,
    walk: ServedModel,
) -> ServedModel {
    if walk.wanted.len() > 0 && walk.frontier.len() > 0 && walk.read < MAX_HISTORY_WALK {
        served_took(
            ServedModel {
                frontier: walk.frontier.drop_last(),
                read: walk.read + 1,
                ..walk
            },
            history(walk.frontier.last()),
        )
    } else {
        walk
    }
}

/// The walk for `parents` under `heads` after `rounds` rounds.
pub open spec fn served_run(
    history: spec_fn(Seq<u8>) -> Seq<Seq<u8>>,
    parents: Seq<Seq<u8>>,
    heads: Seq<Seq<u8>>,
    root: Seq<u8>,
    rounds: nat,
) -> ServedModel
    decreases rounds,
{
    if rounds == 0 {
        served_start(parents, heads, root)
    } else {
        served_round(history, served_run(history, parents, heads, root, (rounds - 1) as nat))
    }
}

proof fn lemma_filtered<A>(s: Seq<A>, pred: spec_fn(A) -> bool)
    ensures
        forall|x: A| #[trigger] s.filter(pred).contains(x) <==> s.contains(x) && pred(x),
    decreases s.len(),
{
    reveal(Seq::filter);
    if s.len() > 0 {
        let front = s.drop_last();
        lemma_filtered(front, pred);
        let last = s.last();
        assert(s =~= front.push(last));
        lemma_pushed(front, last);
        lemma_pushed(front.filter(pred), last);
    }
}

proof fn lemma_took(walk: ServedModel, parents: Seq<Seq<u8>>)
    requires
        forall|x: Seq<u8>| walk.wanted.contains(x) ==> !(#[trigger] walk.seen.contains(x)),
    ensures
        ({
            let after = served_took(walk, parents);
            &&& after.root == walk.root
            &&& after.read == walk.read
            &&& forall|x: Seq<u8>| #[trigger]
                after.seen.contains(x) ==> walk.seen.contains(x) || (parents.contains(x)
                    && after.frontier.contains(x))
            &&& forall|x: Seq<u8>| #[trigger] walk.seen.contains(x) ==> after.seen.contains(x)
            &&& forall|x: Seq<u8>| #[trigger]
                after.frontier.contains(x) ==> walk.frontier.contains(x) || after.seen.contains(x)
            &&& forall|x: Seq<u8>| #[trigger]
                walk.frontier.contains(x) ==> after.frontier.contains(x)
            &&& forall|x: Seq<u8>| #[trigger]
                walk.wanted.contains(x) ==> after.wanted.contains(x) || parents.contains(x)
            &&& forall|x: Seq<u8>| #[trigger] after.wanted.contains(x) ==> walk.wanted.contains(x)
            &&& after.wanted.len() > 0 ==> forall|x: Seq<u8>| #[trigger]
                parents.contains(x) ==> (x == walk.root || after.seen.contains(x))
            &&& forall|x: Seq<u8>| after.wanted.contains(x) ==> !(#[trigger] after.seen.contains(x))
        }),
    decreases parents.len(),
{
    if parents.len() > 0 {
        let front = parents.drop_last();
        let parent = parents.last();
        lemma_took(walk, front);
        let before = served_took(walk, front);
        let after = served_took(walk, parents);
        assert(parents =~= front.push(parent));
        lemma_pushed(front, parent);
        lemma_filtered(before.wanted, other_than(parent));
        lemma_pushed(before.seen, parent);
        lemma_pushed(before.frontier, parent);
        assert forall|x: Seq<u8>| #[trigger] walk.wanted.contains(x) implies after.wanted.contains(x)
            || parents.contains(x) by {
            if !front.contains(x) {
                assert(before.wanted.contains(x));
            }
        }
        assert forall|x: Seq<u8>| #[trigger] walk.seen.contains(x) implies after.seen.contains(x) by {
            assert(before.seen.contains(x));
        }
        assert forall|x: Seq<u8>| #[trigger] walk.frontier.contains(x) implies after.frontier.contains(
            x,
        ) by {
            assert(before.frontier.contains(x));
        }
        assert forall|x: Seq<u8>| #[trigger] after.wanted.contains(x) implies walk.wanted.contains(
            x,
        ) by {
            assert(before.wanted.contains(x));
        }
        assert forall|x: Seq<u8>| #[trigger] after.frontier.contains(x) implies walk.frontier.contains(
            x,
        ) || after.seen.contains(x) by {
            if before.frontier.contains(x) && !walk.frontier.contains(x) {
                assert(before.seen.contains(x));
            }
        }
        assert forall|x: Seq<u8>| #[trigger] after.seen.contains(x) implies walk.seen.contains(x) || (
        parents.contains(x) && after.frontier.contains(x)) by {
            if before.seen.contains(x) && !walk.seen.contains(x) {
                assert(before.frontier.contains(x));
            }
        }
        if after.wanted.len() > 0 {
            assert forall|x: Seq<u8>| #[trigger] parents.contains(x) implies x == walk.root
                || after.seen.contains(x) by {
                if x != parent {
                    assert(front.contains(x));
                    assert(x == walk.root || before.seen.contains(x));
                }
            }
        }
        assert forall|x: Seq<u8>| after.wanted.contains(x) implies !(#[trigger] after.seen.contains(
            x,
        )) by {
            assert(before.wanted.contains(x));
            if after.seen.contains(x) {
                assert(before.seen.contains(x) || x == parent);
            }
        }
    }
}

spec fn served_inv(
    history: spec_fn(Seq<u8>) -> Seq<Seq<u8>>,
    parents: Seq<Seq<u8>>,
    heads: Seq<Seq<u8>>,
    root: Seq<u8>,
    walk: ServedModel,
) -> bool {
    &&& walk.root == root
    &&& forall|x: Seq<u8>| #[trigger] heads.contains(x) ==> walk.seen.contains(x)
    &&& forall|x: Seq<u8>| #[trigger] walk.seen.contains(x) ==> is_served(history, heads, x)
    &&& forall|x: Seq<u8>| #[trigger] walk.frontier.contains(x) ==> walk.seen.contains(x)
    &&& forall|x: Seq<u8>| walk.wanted.contains(x) ==> !(#[trigger] walk.seen.contains(x))
    &&& forall|x: Seq<u8>| #[trigger]
        walk.wanted.contains(x) ==> parents.contains(x) && x != root
    &&& forall|x: Seq<u8>| #[trigger]
        parents.contains(x) ==> x == root || walk.wanted.contains(x) || is_served(
            history,
            heads,
            x,
        )
    // What was read has its parents seen, as long as anything is wanted.
    &&& walk.wanted.len() > 0 ==> forall|x: Seq<u8>, parent: Seq<u8>|
        walk.seen.contains(x) && !walk.frontier.contains(x) && #[trigger] history(x).contains(parent)
            ==> parent == root || walk.seen.contains(parent)
}

proof fn lemma_served_below(
    history: spec_fn(Seq<u8>) -> Seq<Seq<u8>>,
    heads: Seq<Seq<u8>>,
    child: Seq<u8>,
    parent: Seq<u8>,
)
    requires
        is_served(history, heads, child),
        history(child).contains(parent),
    ensures
        is_served(history, heads, parent),
{
    let steps = choose|steps: nat| within_steps(history, heads, child, steps);
    assert(within_steps(history, heads, parent, (steps + 1) as nat));
}

proof fn lemma_served_inv(
    history: spec_fn(Seq<u8>) -> Seq<Seq<u8>>,
    parents: Seq<Seq<u8>>,
    heads: Seq<Seq<u8>>,
    root: Seq<u8>,
    rounds: nat,
)
    ensures
        served_inv(history, parents, heads, root, served_run(history, parents, heads, root, rounds)),
    decreases rounds,
{
    let walk = served_run(history, parents, heads, root, rounds);
    if rounds == 0 {
        lemma_filtered(parents, unknown_parent(heads, root));
        assert forall|x: Seq<u8>| #[trigger] heads.contains(x) implies is_served(
            history,
            heads,
            x,
        ) by {
            assert(within_steps(history, heads, x, 0));
        }
    } else {
        let before = served_run(history, parents, heads, root, (rounds - 1) as nat);
        lemma_served_inv(history, parents, heads, root, (rounds - 1) as nat);
        if before.wanted.len() > 0 && before.frontier.len() > 0 && before.read < MAX_HISTORY_WALK {
            let id = before.frontier.last();
            let rest = before.frontier.drop_last();
            assert(before.frontier =~= rest.push(id));
            lemma_pushed(rest, id);
            let popped = ServedModel { frontier: rest, read: before.read + 1, ..before };
            lemma_took(popped, history(id));
            assert(walk == served_took(popped, history(id)));
            assert(rest.push(id).contains(id));
            assert(before.seen.contains(id));
            assert forall|x: Seq<u8>| #[trigger] walk.seen.contains(x) implies is_served(
                history,
                heads,
                x,
            ) by {
                if !before.seen.contains(x) {
                    assert(history(id).contains(x));
                    lemma_served_below(history, heads, id, x);
                }
            }
            assert forall|x: Seq<u8>| #[trigger] walk.frontier.contains(x) implies walk.seen.contains(
                x,
            ) by {
                if rest.contains(x) {
                    assert(rest.push(id).contains(x));
                    assert(before.frontier.contains(x));
                    assert(popped.seen.contains(x));
                }
            }
            assert forall|x: Seq<u8>| #[trigger] parents.contains(x) implies x == root
                || walk.wanted.contains(x) || is_served(history, heads, x) by {
                if x != root && !is_served(history, heads, x) {
                    assert(popped.wanted.contains(x));
                    if history(id).contains(x) {
                        lemma_served_below(history, heads, id, x);
                    }
                }
            }
            assert forall|x: Seq<u8>| #[trigger] walk.wanted.contains(x) implies parents.contains(x)
                && x != root by {
                assert(popped.wanted.contains(x));
            }
            assert forall|x: Seq<u8>| #[trigger] heads.contains(x) implies walk.seen.contains(x) by {
                assert(popped.seen.contains(x));
            }
            if walk.wanted.len() > 0 {
                assert forall|x: Seq<u8>, parent: Seq<u8>|
                    walk.seen.contains(x) && !walk.frontier.contains(x) && #[trigger] history(
                        x,
                    ).contains(parent) implies parent == root || walk.seen.contains(parent) by {
                    if x != id {
                        assert(popped.seen.contains(x));
                        if before.frontier.contains(x) {
                            assert(rest.push(id).contains(x));
                            assert(popped.frontier.contains(x));
                        }
                        assert(parent == root || popped.seen.contains(parent));
                    }
                }
            }
        }
    }
}

/// What the walk accepts is served: where nothing is wanted any more, every
/// parent is the root operation or part of the history under the heads.
pub proof fn accepted_parents_are_served(
    history: spec_fn(Seq<u8>) -> Seq<Seq<u8>>,
    parents: Seq<Seq<u8>>,
    heads: Seq<Seq<u8>>,
    root: Seq<u8>,
    rounds: nat,
    parent: Seq<u8>,
)
    requires
        served_run(history, parents, heads, root, rounds).wanted.len() == 0,
        parents.contains(parent),
    ensures
        parent == root || is_served(history, heads, parent),
{
    lemma_served_inv(history, parents, heads, root, rounds);
}

/// A parent that the walk denies after it has read all there is to read is not
/// served. (One that it denies because it has read as much as it may can be.)
pub proof fn denied_parents_are_not_served(
    history: spec_fn(Seq<u8>) -> Seq<Seq<u8>>,
    parents: Seq<Seq<u8>>,
    heads: Seq<Seq<u8>>,
    root: Seq<u8>,
    rounds: nat,
    parent: Seq<u8>,
)
    requires
        history(root).len() == 0,
        served_run(history, parents, heads, root, rounds).frontier.len() == 0,
        served_run(history, parents, heads, root, rounds).wanted.contains(parent),
    ensures
        parents.contains(parent),
        parent != root,
        !is_served(history, heads, parent),
{
    let walk = served_run(history, parents, heads, root, rounds);
    lemma_served_inv(history, parents, heads, root, rounds);
    assert(walk.wanted.len() > 0);
    assert(forall|x: Seq<u8>| !walk.frontier.contains(x));
    if is_served(history, heads, parent) {
        let steps = choose|steps: nat| within_steps(history, heads, parent, steps);
        lemma_closed(history, heads, walk, steps, parent);
        assert(walk.seen.contains(parent));
    }
}

proof fn lemma_closed(
    history: spec_fn(Seq<u8>) -> Seq<Seq<u8>>,
    heads: Seq<Seq<u8>>,
    walk: ServedModel,
    steps: nat,
    id: Seq<u8>,
)
    requires
        history(walk.root).len() == 0,
        forall|x: Seq<u8>| #[trigger] heads.contains(x) ==> walk.seen.contains(x),
        forall|x: Seq<u8>, parent: Seq<u8>|
            walk.seen.contains(x) && #[trigger] history(x).contains(parent) ==> parent == walk.root
                || walk.seen.contains(parent),
        within_steps(history, heads, id, steps),
    ensures
        id == walk.root || walk.seen.contains(id),
    decreases steps,
{
    if steps > 0 {
        let less = (steps - 1) as nat;
        if within_steps(history, heads, id, less) {
            lemma_closed(history, heads, walk, less, id);
        } else {
            let child = choose|child: Seq<u8>|
                within_steps(history, heads, child, less) && #[trigger] history(child).contains(id);
            lemma_closed(history, heads, walk, less, child);
        }
    }
}

/// The walk reads no more operations than it may.
pub proof fn the_served_walk_is_bounded(
    history: spec_fn(Seq<u8>) -> Seq<Seq<u8>>,
    parents: Seq<Seq<u8>>,
    heads: Seq<Seq<u8>>,
    root: Seq<u8>,
    rounds: nat,
)
    ensures
        served_run(history, parents, heads, root, rounds).read <= MAX_HISTORY_WALK,
        served_run(history, parents, heads, root, rounds).read <= 1024,
        served_run(history, parents, heads, root, rounds).read <= rounds,
    decreases rounds,
{
    if rounds > 0 {
        let before = served_run(history, parents, heads, root, (rounds - 1) as nat);
        the_served_walk_is_bounded(history, parents, heads, root, (rounds - 1) as nat);
        lemma_served_inv(history, parents, heads, root, (rounds - 1) as nat);
        if before.wanted.len() > 0 && before.frontier.len() > 0 && before.read < MAX_HISTORY_WALK {
            lemma_took(
                ServedModel {
                    frontier: before.frontier.drop_last(),
                    read: before.read + 1,
                    ..before
                },
                history(before.frontier.last()),
            );
        }
    }
}

/// The walk gives up no sooner than it must: while something is wanted, something can be
/// read, and it has not read as much as it may, it has read one operation in each round.
pub proof fn the_served_walk_reads_on(
    history: spec_fn(Seq<u8>) -> Seq<Seq<u8>>,
    parents: Seq<Seq<u8>>,
    heads: Seq<Seq<u8>>,
    root: Seq<u8>,
    rounds: nat,
)
    ensures
        ({
            let walk = served_run(history, parents, heads, root, rounds);
            walk.wanted.len() > 0 && walk.frontier.len() > 0 && walk.read < 1024 ==> walk.read
                == rounds
        }),
    decreases rounds,
{
    if rounds > 0 {
        let before = served_run(history, parents, heads, root, (rounds - 1) as nat);
        the_served_walk_reads_on(history, parents, heads, root, (rounds - 1) as nat);
        lemma_served_inv(history, parents, heads, root, (rounds - 1) as nat);
        if before.wanted.len() > 0 && before.frontier.len() > 0 && before.read < MAX_HISTORY_WALK {
            lemma_took(
                ServedModel {
                    frontier: before.frontier.drop_last(),
                    read: before.read + 1,
                    ..before
                },
                history(before.frontier.last()),
            );
        }
    }
}

/// The history under the heads holds only operations that were accepted, and stays
/// so: an operation is accepted only on top of what is served, and only an accepted
/// operation becomes a head. So one that was never accepted is nobody's ancestor.
pub proof fn only_accepted_operations_are_served(
    history: spec_fn(Seq<u8>) -> Seq<Seq<u8>>,
    root: Seq<u8>,
    heads: Seq<Seq<u8>>,
    accepted: Set<Seq<u8>>,
    new_id: Seq<u8>,
    new_heads: Seq<Seq<u8>>,
    id: Seq<u8>,
)
    requires
        history(root).len() == 0,
        forall|x: Seq<u8>| #[trigger]
            is_served(history, heads, x) ==> x == root || accepted.contains(x),
        // What the walk accepts.
        forall|parent: Seq<u8>| #[trigger]
            history(new_id).contains(parent) ==> parent == root || is_served(
                history,
                heads,
                parent,
            ),
        forall|x: Seq<u8>| #[trigger]
            new_heads.contains(x) ==> x == new_id || heads.contains(x),
        is_served(history, new_heads, id),
    ensures
        id == root || accepted.insert(new_id).contains(id),
{
    let steps = choose|steps: nat| within_steps(history, new_heads, id, steps);
    lemma_served_after(history, root, heads, new_id, new_heads, id, steps);
}

proof fn lemma_served_after(
    history: spec_fn(Seq<u8>) -> Seq<Seq<u8>>,
    root: Seq<u8>,
    heads: Seq<Seq<u8>>,
    new_id: Seq<u8>,
    new_heads: Seq<Seq<u8>>,
    id: Seq<u8>,
    steps: nat,
)
    requires
        history(root).len() == 0,
        forall|parent: Seq<u8>| #[trigger]
            history(new_id).contains(parent) ==> parent == root || is_served(
                history,
                heads,
                parent,
            ),
        forall|x: Seq<u8>| #[trigger]
            new_heads.contains(x) ==> x == new_id || heads.contains(x),
        within_steps(history, new_heads, id, steps),
    ensures
        id == root || id == new_id || is_served(history, heads, id),
    decreases steps,
{
    if steps == 0 {
        if id != new_id {
            assert(within_steps(history, heads, id, 0));
        }
    } else if within_steps(history, new_heads, id, (steps - 1) as nat) {
        lemma_served_after(history, root, heads, new_id, new_heads, id, (steps - 1) as nat);
    } else {
        let child = choose|child: Seq<u8>|
            within_steps(history, new_heads, child, (steps - 1) as nat) && #[trigger] history(
                child,
            ).contains(id);
        lemma_served_after(history, root, heads, new_id, new_heads, child, (steps - 1) as nat);
        if child != root && child != new_id {
            let n = choose|n: nat| within_steps(history, heads, child, n);
            assert(within_steps(history, heads, id, n + 1));
        }
    }
}

// ─── The base of a merge ──────────────────────────────────────────────────────

/// Operations that were read, with their parents; none, for one that could not
/// be read.
#[derive(Debug, PartialEq, Eq)]
pub struct KnownOps {
    ops: Vec<(Vec<u8>, Vec<Vec<u8>>)>,
}

impl View for KnownOps {
    type V = Seq<(Seq<u8>, Seq<Seq<u8>>)>;

    closed spec fn view(&self) -> Seq<(Seq<u8>, Seq<Seq<u8>>)> {
        self.ops@.map_values(|op: (Vec<u8>, Vec<Vec<u8>>)| (op.0@, models(op.1@)))
    }
}

/// The parents of `id`, where it was read.
pub open spec fn known_parents(known: Seq<(Seq<u8>, Seq<Seq<u8>>)>, id: Seq<u8>) -> Option<
    Seq<Seq<u8>>,
>
    decreases known.len(),
{
    if known.len() == 0 {
        None
    } else if known.last().0 == id {
        Some(known.last().1)
    } else {
        known_parents(known.drop_last(), id)
    }
}

/// What was learned of an operation last is what is known of it, and nothing is known of
/// one that nothing was learned of.
pub proof fn what_was_learned_last_is_known(
    known: Seq<(Seq<u8>, Seq<Seq<u8>>)>,
    id: Seq<u8>,
    parents: Seq<Seq<u8>>,
    other: Seq<u8>,
)
    ensures
        known_parents(known.push((id, parents)), id) == Some(parents),
        other != id ==> known_parents(known.push((id, parents)), other) == known_parents(
            known,
            other,
        ),
        known_parents(Seq::empty(), other) is None,
{
    assert(known.push((id, parents)).drop_last() =~= known);
}

impl KnownOps {
    pub fn new() -> (r: KnownOps)
        ensures
            r@ == Seq::<(Seq<u8>, Seq<Seq<u8>>)>::empty(),
    {
        let r = KnownOps { ops: Vec::new() };
        assert(r@ =~= Seq::<(Seq<u8>, Seq<Seq<u8>>)>::empty());
        r
    }

    /// The parents of `id` are these.
    pub fn learn(&mut self, id: Vec<u8>, parents: Vec<Vec<u8>>)
        ensures
            final(self)@ == old(self)@.push((id@, models(parents@))),
    {
        let ghost before = self@;
        let ghost op = (id@, models(parents@));
        self.ops.push((id, parents));
        assert(self@ =~= before.push(op));
    }

    fn parents_of(&self, id: &[u8]) -> (r: Option<&Vec<Vec<u8>>>)
        ensures
            match r {
                Some(parents) => known_parents(self@, id@) == Some(models(parents@)),
                None => known_parents(self@, id@) is None,
            },
    {
        let mut left: usize = self.ops.len();
        assert(self@.take(left as int) =~= self@);
        while left > 0
            invariant
                left <= self.ops@.len(),
                known_parents(self@, id@) == known_parents(self@.take(left as int), id@),
            decreases left,
        {
            let ghost here = self@.take(left as int);
            assert(here.last() == (
                self.ops@[left - 1].0@,
                models(self.ops@[left - 1].1@),
            ));
            assert(here.drop_last() =~= self@.take(left - 1));
            left = left - 1;
            if same_bytes(self.ops[left].0.as_slice(), id) {
                return Some(&self.ops[left].1);
            }
        }
        None
    }
}

/// One side of a merge: the operations reached from one parent, and those of
/// them that are to be read in the next round.
#[derive(Debug, PartialEq, Eq)]
pub struct Lane {
    pub reached: Vec<Vec<u8>>,
    pub frontier: Vec<Vec<u8>>,
}

/// A lane, as a mathematical value.
#[verifier::ext_equal]
pub struct LaneModel {
    pub reached: Seq<Seq<u8>>,
    pub frontier: Seq<Seq<u8>>,
}

impl View for Lane {
    type V = LaneModel;

    open spec fn view(&self) -> LaneModel {
        LaneModel { reached: models(self.reached@), frontier: models(self.frontier@) }
    }
}

/// Whether every lane has reached `id`.
pub open spec fn shared_by_all(lanes: Seq<LaneModel>, id: Seq<u8>) -> bool {
    lanes.len() > 0 && forall|l: int|
        0 <= l < lanes.len() ==> (#[trigger] lanes[l]).reached.contains(id)
}

pub open spec fn none_shared(lanes: Seq<LaneModel>) -> bool {
    forall|id: Seq<u8>| !shared_by_all(lanes, id)
}

/// The one operation every lane of a walk has reached, if there is one yet.
///
/// Two lanes can reach two shared operations on the same step, and then either
/// answers the question the caller is asking: both are ancestors of every
/// parent. Picking the smaller id keeps the answer the same on every replay.
pub fn first_shared_by_all(lanes: &Vec<Lane>) -> (r: Option<Vec<u8>>)
    ensures
        match r {
            Some(id) => shared_by_all(models(lanes@), id@) && forall|other: Seq<u8>| #[trigger]
                shared_by_all(models(lanes@), other) ==> other == id@ || bytes_less(id@, other),
            None => none_shared(models(lanes@)),
        },
{
    if lanes.len() == 0 {
        return None;
    }
    let ghost all = models(lanes@);
    let first = &lanes[0].reached;
    let mut shared: Vec<Vec<u8>> = Vec::new();
    let mut i: usize = 0;
    while i < first.len()
        invariant
            i <= first@.len(),
            all == models(lanes@),
            lanes@.len() > 0,
            first@ == lanes@[0].reached@,
            forall|k: int| 0 <= k < shared@.len() ==> shared_by_all(all, (#[trigger] shared@[k])@),
            forall|k: int|
                0 <= k < i && shared_by_all(all, (#[trigger] first@[k])@) ==> models(
                    shared@,
                ).contains(first@[k]@),
        decreases first@.len() - i,
    {
        let ghost id = first@[i as int]@;
        let mut everywhere = true;
        let mut l: usize = 0;
        while l < lanes.len() && everywhere
            invariant
                l <= lanes@.len(),
                i < first@.len(),
                id == first@[i as int]@,
                all == models(lanes@),
                everywhere ==> forall|m: int|
                    0 <= m < l ==> (#[trigger] all[m]).reached.contains(id),
                !everywhere ==> !shared_by_all(all, id),
            decreases lanes@.len() - l,
        {
            assert(all[l as int].reached == models(lanes@[l as int].reached@));
            if !holds_bytes(&lanes[l].reached, first[i].as_slice()) {
                everywhere = false;
            }
            l = l + 1;
        }
        let ghost before = shared@;
        if everywhere {
            assert(shared_by_all(all, id));
            let found = copied(first[i].as_slice());
            shared.push(found);
            proof {
                assert(models(shared@) =~= models(before).push(id));
                lemma_pushed(models(before), id);
            }
        }
        i = i + 1;
    }
    proof {
        assert forall|id: Seq<u8>| shared_by_all(all, id) implies models(shared@).contains(id) by {
            assert(all[0].reached.contains(id));
            let k = choose|k: int| 0 <= k < all[0].reached.len() && all[0].reached[k] == id;
            assert(first@[k]@ == id);
        }
    }
    if shared.len() == 0 {
        assert(models(shared@).len() == 0);
        return None;
    }
    let id = smallest(&shared);
    proof {
        let k = choose|k: int| 0 <= k < shared@.len() && models(shared@)[k] == id@;
        assert(shared@[k]@ == id@);
    }
    Some(id)
}

/// What was reached and what is to be read next, once `parents` were added.
pub open spec fn parents_added(
    reached: Seq<Seq<u8>>,
    next: Seq<Seq<u8>>,
    parents: Seq<Seq<u8>>,
) -> (Seq<Seq<u8>>, Seq<Seq<u8>>)
    decreases parents.len(),
{
    if parents.len() == 0 {
        (reached, next)
    } else {
        let (r, n) = parents_added(reached, next, parents.drop_last());
        if r.contains(parents.last()) {
            (r, n)
        } else {
            (r.push(parents.last()), n.push(parents.last()))
        }
    }
}

/// A lane in the middle of a round.
#[verifier::ext_equal]
pub struct LaneRound {
    pub reached: Seq<Seq<u8>>,
    pub next: Seq<Seq<u8>>,
    pub budget: nat,
}

/// A lane once the first `n` operations of its frontier were read, as far as the
/// budget lasts; the id that has to be read first, where one was not read.
pub open spec fn lane_after(
    known: Seq<(Seq<u8>, Seq<Seq<u8>>)>,
    lane: LaneModel,
    budget: nat,
    n: nat,
) -> Result<LaneRound, Seq<u8>>
    decreases n,
{
    if n == 0 {
        Ok(LaneRound { reached: lane.reached, next: Seq::empty(), budget })
    } else {
        match lane_after(known, lane, budget, (n - 1) as nat) {
            Err(id) => Err(id),
            Ok(round) => if round.budget == 0 {
                Ok(round)
            } else {
                match known_parents(known, lane.frontier[n - 1]) {
                    None => Err(lane.frontier[n - 1]),
                    Some(parents) => Ok(
                        LaneRound {
                            reached: parents_added(round.reached, round.next, parents).0,
                            next: parents_added(round.reached, round.next, parents).1,
                            budget: (round.budget - 1) as nat,
                        },
                    ),
                }
            },
        }
    }
}

/// The lanes, and how many operations may still be read.
#[verifier::ext_equal]
pub struct SearchState {
    pub lanes: Seq<LaneModel>,
    pub budget: nat,
}

/// The search once the first `n` lanes have made their round.
pub open spec fn lanes_after(
    known: Seq<(Seq<u8>, Seq<Seq<u8>>)>,
    state: SearchState,
    n: nat,
) -> Result<SearchState, Seq<u8>>
    decreases n,
{
    if n == 0 {
        Ok(state)
    } else {
        match lanes_after(known, state, (n - 1) as nat) {
            Err(id) => Err(id),
            Ok(before) => {
                let lane = state.lanes[n - 1];
                match lane_after(known, lane, before.budget, lane.frontier.len()) {
                    Err(id) => Err(id),
                    Ok(round) => Ok(
                        SearchState {
                            lanes: before.lanes.update(
                                n - 1,
                                LaneModel { reached: round.reached, frontier: round.next },
                            ),
                            budget: round.budget,
                        },
                    ),
                }
            },
        }
    }
}

/// The search at its start: each lane has reached its own parent.
pub open spec fn search_start(parents: Seq<Seq<u8>>) -> SearchState {
    SearchState {
        lanes: parents.map_values(
            |id: Seq<u8>| LaneModel { reached: seq![id], frontier: seq![id] },
        ),
        budget: MAX_HISTORY_WALK as nat,
    }
}

/// The search after `rounds` rounds.
pub open spec fn search_after(
    known: Seq<(Seq<u8>, Seq<Seq<u8>>)>,
    parents: Seq<Seq<u8>>,
    rounds: nat,
) -> Result<SearchState, Seq<u8>>
    decreases rounds,
{
    if rounds == 0 {
        Ok(search_start(parents))
    } else {
        match search_after(known, parents, (rounds - 1) as nat) {
            Err(id) => Err(id),
            Ok(state) => lanes_after(known, state, state.lanes.len()),
        }
    }
}

/// Whether no lane has anything left to read.
pub open spec fn all_read(lanes: Seq<LaneModel>) -> bool {
    forall|l: int| 0 <= l < lanes.len() ==> (#[trigger] lanes[l]).frontier.len() == 0
}

/// Whether the search goes on after `rounds` rounds: nothing is shared yet, and
/// there is something that may be read.
pub open spec fn goes_on(
    known: Seq<(Seq<u8>, Seq<Seq<u8>>)>,
    parents: Seq<Seq<u8>>,
    rounds: nat,
) -> bool {
    search_after(known, parents, rounds) matches Ok(state) && none_shared(state.lanes)
        && state.budget > 0 && !all_read(state.lanes)
}

/// How a search for a merge base comes out.
#[derive(Debug, PartialEq, Eq)]
pub enum BaseAnswer {
    /// The closest operation that every parent descends from.
    Found(Vec<u8>),
    /// There is none, or none within the bound.
    NotFound,
    /// This operation has to be read first.
    Need(Vec<u8>),
}

/// Whether `answer` is what the search says after `rounds` rounds.
pub open spec fn search_ends(
    known: Seq<(Seq<u8>, Seq<Seq<u8>>)>,
    parents: Seq<Seq<u8>>,
    rounds: nat,
    answer: BaseAnswer,
) -> bool {
    &&& forall|m: nat| m < rounds ==> #[trigger] goes_on(known, parents, m)
    &&& match answer {
        BaseAnswer::Found(id) => search_after(known, parents, rounds) matches Ok(state)
            && shared_by_all(state.lanes, id@) && forall|other: Seq<u8>| #[trigger]
            shared_by_all(state.lanes, other) ==> other == id@ || bytes_less(id@, other),
        BaseAnswer::NotFound => search_after(known, parents, rounds) matches Ok(state)
            && none_shared(state.lanes) && (state.budget == 0 || all_read(state.lanes)),
        BaseAnswer::Need(id) => search_after(known, parents, rounds) == Err::<
            SearchState,
            Seq<u8>,
        >(id@),
    }
}

fn add_parents(reached: &mut Vec<Vec<u8>>, next: &mut Vec<Vec<u8>>, parents: &Vec<Vec<u8>>)
    ensures
        (models(final(reached)@), models(final(next)@)) == parents_added(
            models(old(reached)@),
            models(old(next)@),
            models(parents@),
        ),
{
    let mut i: usize = 0;
    assert(models(parents@).take(0) =~= Seq::<Seq<u8>>::empty());
    while i < parents.len()
        invariant
            i <= parents@.len(),
            (models(reached@), models(next@)) == parents_added(
                models(old(reached)@),
                models(old(next)@),
                models(parents@).take(i as int),
            ),
        decreases parents@.len() - i,
    {
        let ghost r = models(reached@);
        let ghost n = models(next@);
        let ghost id = parents@[i as int]@;
        proof {
            let now = models(parents@).take(i + 1);
            assert(now.drop_last() =~= models(parents@).take(i as int));
            assert(now.last() == id);
        }
        if !holds_bytes(reached, parents[i].as_slice()) {
            reached.push(copied(parents[i].as_slice()));
            next.push(copied(parents[i].as_slice()));
            assert(models(reached@) =~= r.push(id));
            assert(models(next@) =~= n.push(id));
        }
        i = i + 1;
    }
    assert(models(parents@).take(i as int) =~= models(parents@));
}

proof fn lemma_lane_err(
    known: Seq<(Seq<u8>, Seq<Seq<u8>>)>,
    lane: LaneModel,
    budget: nat,
    n: nat,
    total: nat,
)
    requires
        n <= total,
        lane_after(known, lane, budget, n) is Err,
    ensures
        lane_after(known, lane, budget, total) == lane_after(known, lane, budget, n),
    decreases total,
{
    if n < total {
        lemma_lane_err(known, lane, budget, n, (total - 1) as nat);
    }
}

proof fn lemma_lane_spent(
    known: Seq<(Seq<u8>, Seq<Seq<u8>>)>,
    lane: LaneModel,
    budget: nat,
    n: nat,
    total: nat,
)
    requires
        n <= total,
        lane_after(known, lane, budget, n) matches Ok(round) && round.budget == 0,
    ensures
        lane_after(known, lane, budget, total) == lane_after(known, lane, budget, n),
    decreases total,
{
    if n < total {
        lemma_lane_spent(known, lane, budget, n, (total - 1) as nat);
    }
}

/// Read one lane's frontier, as far as the budget lasts.
fn expand_lane(known: &KnownOps, lane: &Lane, budget: usize) -> (r: Result<
    (Lane, usize),
    Vec<u8>,
>)
    ensures
        match (r, lane_after(known@, lane@, budget as nat, lane@.frontier.len())) {
            (Ok((after, left)), Ok(round)) => {
                &&& after@ == (LaneModel { reached: round.reached, frontier: round.next })
                &&& left == round.budget
            },
            (Err(id), Err(wanted)) => id@ == wanted,
            _ => false,
        },
{
    let ghost total = lane@.frontier.len();
    let mut reached = copied_ids(&lane.reached);
    let mut next: Vec<Vec<u8>> = Vec::new();
    let mut left: usize = budget;
    let mut i: usize = 0;
    assert(models(next@) =~= Seq::<Seq<u8>>::empty());
    while i < lane.frontier.len() && left > 0
        invariant
            i <= lane.frontier@.len(),
            total == lane@.frontier.len(),
            lane_after(known@, lane@, budget as nat, i as nat) == Ok::<LaneRound, Seq<u8>>(
                LaneRound {
                    reached: models(reached@),
                    next: models(next@),
                    budget: left as nat,
                },
            ),
        decreases lane.frontier@.len() - i,
    {
        assert(lane@.frontier[i as int] == lane.frontier@[i as int]@);
        match known.parents_of(lane.frontier[i].as_slice()) {
            Some(parents) => {
                add_parents(&mut reached, &mut next, parents);
                left = left - 1;
            },
            None => {
                let id = copied(lane.frontier[i].as_slice());
                proof {
                    lemma_lane_err(known@, lane@, budget as nat, (i + 1) as nat, total);
                }
                return Err(id);
            },
        }
        i = i + 1;
    }
    proof {
        if i < total {
            lemma_lane_spent(known@, lane@, budget as nat, i as nat, total);
        }
    }
    Ok((Lane { reached, frontier: next }, left))
}

proof fn lemma_lanes_err(
    known: Seq<(Seq<u8>, Seq<Seq<u8>>)>,
    state: SearchState,
    n: nat,
    total: nat,
)
    requires
        n <= total,
        lanes_after(known, state, n) is Err,
    ensures
        lanes_after(known, state, total) == lanes_after(known, state, n),
    decreases total,
{
    if n < total {
        lemma_lanes_err(known, state, n, (total - 1) as nat);
    }
}

/// A round spends budget on every operation it reads.
proof fn lemma_lane_budget(
    known: Seq<(Seq<u8>, Seq<Seq<u8>>)>,
    lane: LaneModel,
    budget: nat,
    n: nat,
)
    ensures
        lane_after(known, lane, budget, n) matches Ok(round) ==> round.budget <= budget && (n > 0
            && budget > 0 ==> round.budget < budget),
    decreases n,
{
    if n > 0 {
        lemma_lane_budget(known, lane, budget, (n - 1) as nat);
    }
}

proof fn lemma_lanes_budget(
    known: Seq<(Seq<u8>, Seq<Seq<u8>>)>,
    state: SearchState,
    n: nat,
)
    requires
        n <= state.lanes.len(),
    ensures
        lanes_after(known, state, n) matches Ok(after) ==> after.budget <= state.budget
            && after.lanes.len() == state.lanes.len() && (state.budget > 0 && (exists|l: int|
            0 <= l < n && (#[trigger] state.lanes[l]).frontier.len() > 0) ==> after.budget
            < state.budget),
    decreases n,
{
    if n > 0 {
        lemma_lanes_budget(known, state, (n - 1) as nat);
        match lanes_after(known, state, (n - 1) as nat) {
            Ok(before) => {
                let lane = state.lanes[n - 1];
                lemma_lane_budget(known, lane, before.budget, lane.frontier.len());
            },
            Err(_) => {},
        }
    }
}

/// One round of every lane.
fn expand_lanes(known: &KnownOps, lanes: &Vec<Lane>, budget: usize) -> (r: Result<
    (Vec<Lane>, usize),
    Vec<u8>,
>)
    ensures
        match (
            r,
            lanes_after(
                known@,
                (SearchState { lanes: models(lanes@), budget: budget as nat }),
                lanes@.len(),
            ),
        ) {
            (Ok((after, left)), Ok(state)) => models(after@) == state.lanes && left == state.budget,
            (Err(id), Err(wanted)) => id@ == wanted,
            _ => false,
        },
{
    let ghost state = SearchState { lanes: models(lanes@), budget: budget as nat };
    let mut after: Vec<Lane> = Vec::new();
    let mut left: usize = budget;
    let mut l: usize = 0;
    assert(models(after@) + state.lanes.skip(0) =~= state.lanes);
    while l < lanes.len()
        invariant
            l <= lanes@.len(),
            after@.len() == l,
            state == (SearchState { lanes: models(lanes@), budget: budget as nat }),
            lanes_after(known@, state, l as nat) == Ok::<SearchState, Seq<u8>>(
                SearchState {
                    lanes: models(after@) + state.lanes.skip(l as int),
                    budget: left as nat,
                },
            ),
        decreases lanes@.len() - l,
    {
        let ghost done = models(after@);
        assert(state.lanes[l as int] == lanes@[l as int]@);
        match expand_lane(known, &lanes[l], left) {
            Ok((lane, rest)) => {
                after.push(lane);
                left = rest;
                proof {
                    let now = models(after@);
                    assert(now =~= done.push(lane@));
                    assert((done + state.lanes.skip(l as int)).update(l as int, lane@) =~= now
                        + state.lanes.skip(l + 1));
                }
            },
            Err(id) => {
                proof {
                    lemma_lanes_err(known@, state, (l + 1) as nat, lanes@.len());
                }
                return Err(id);
            },
        }
        l = l + 1;
    }
    assert(models(after@) + state.lanes.skip(l as int) =~= models(after@));
    Ok((after, left))
}

fn nothing_to_read(lanes: &Vec<Lane>) -> (r: bool)
    ensures
        r == all_read(models(lanes@)),
{
    let mut l: usize = 0;
    while l < lanes.len()
        invariant
            l <= lanes@.len(),
            forall|m: int| 0 <= m < l ==> (#[trigger] models(lanes@)[m]).frontier.len() == 0,
        decreases lanes@.len() - l,
    {
        assert(models(lanes@)[l as int] == lanes@[l as int]@);
        if lanes[l].frontier.len() > 0 {
            return false;
        }
        l = l + 1;
    }
    true
}

/// The closest operation every one of `parents` descends from.
///
/// This is the base of the merge the client is publishing, and the scope check
/// reads it to tell a removal from a never-had. Only a merge needs one: with a
/// single parent the parent is the base. The walk is a lockstep breadth-first
/// search from each parent, so the first operation every lane has reached is the
/// closest one they share, up to the usual tie between two equally close
/// candidates. Where it comes across an operation that was not read yet it asks
/// for it, and is started again.
pub fn merge_base(parents: &Vec<Vec<u8>>, known: &KnownOps) -> (r: BaseAnswer)
    ensures
        parents@.len() < 2 ==> r is NotFound,
        parents@.len() >= 2 ==> exists|rounds: nat|
            search_ends(known@, models(parents@), rounds, r),
{
    if parents.len() < 2 {
        return BaseAnswer::NotFound;
    }
    let ghost ids = models(parents@);
    let mut lanes: Vec<Lane> = Vec::new();
    let mut i: usize = 0;
    while i < parents.len()
        invariant
            i <= parents@.len(),
            ids == models(parents@),
            models(lanes@) == search_start(ids).lanes.take(i as int),
        decreases parents@.len() - i,
    {
        let ghost done = models(lanes@);
        let mut reached: Vec<Vec<u8>> = Vec::new();
        reached.push(copied(parents[i].as_slice()));
        let mut frontier: Vec<Vec<u8>> = Vec::new();
        frontier.push(copied(parents[i].as_slice()));
        let lane = Lane { reached, frontier };
        assert(lane@.reached =~= seq![parents@[i as int]@]);
        assert(lane@.frontier =~= seq![parents@[i as int]@]);
        lanes.push(lane);
        assert(models(lanes@) =~= done.push(lane@));
        assert(models(lanes@) =~= search_start(ids).lanes.take(i + 1));
        i = i + 1;
    }
    assert(models(lanes@) =~= search_start(ids).lanes);
    let mut budget: usize = MAX_HISTORY_WALK;
    let ghost mut rounds: nat = 0;
    loop
        invariant
            parents@.len() >= 2,
            ids == models(parents@),
            search_after(known@, ids, rounds) == Ok::<SearchState, Seq<u8>>(
                SearchState { lanes: models(lanes@), budget: budget as nat },
            ),
            forall|m: nat| m < rounds ==> #[trigger] goes_on(known@, ids, m),
        decreases budget,
    {
        match first_shared_by_all(&lanes) {
            Some(id) => {
                let answer = BaseAnswer::Found(id);
                assert(search_ends(known@, ids, rounds, answer));
                return answer;
            },
            None => {},
        }
        if budget == 0 || nothing_to_read(&lanes) {
            assert(search_ends(known@, ids, rounds, BaseAnswer::NotFound));
            return BaseAnswer::NotFound;
        }
        assert(goes_on(known@, ids, rounds));
        let ghost state = SearchState { lanes: models(lanes@), budget: budget as nat };
        proof {
            lemma_lanes_budget(known@, state, state.lanes.len());
            let l = choose|l: int|
                0 <= l < state.lanes.len() && (#[trigger] state.lanes[l]).frontier.len() != 0;
            assert(state.lanes[l].frontier.len() > 0);
        }
        match expand_lanes(known, &lanes, budget) {
            Ok((after, left)) => {
                lanes = after;
                budget = left;
                proof {
                    rounds = rounds + 1;
                }
            },
            Err(id) => {
                let answer = BaseAnswer::Need(id);
                assert(search_after(known@, ids, (rounds + 1) as nat) == Err::<
                    SearchState,
                    Seq<u8>,
                >(id@));
                assert forall|m: nat| m < rounds + 1 implies #[trigger] goes_on(known@, ids, m) by {}
                assert(search_ends(known@, ids, (rounds + 1) as nat, answer));
                return answer;
            },
        }
    }
}

// ─── What the search for a base promises ──────────────────────────────────────

/// The history that is known: the parents of what was read.
pub open spec fn known_history(known: Seq<(Seq<u8>, Seq<Seq<u8>>)>) -> spec_fn(Seq<u8>) -> Seq<
    Seq<u8>,
> {
    |id: Seq<u8>|
        match known_parents(known, id) {
            Some(parents) => parents,
            None => Seq::empty(),
        }
}

/// Whether `id` is `parent` or at most `steps` operations below it.
pub open spec fn below(
    known: Seq<(Seq<u8>, Seq<Seq<u8>>)>,
    parent: Seq<u8>,
    id: Seq<u8>,
    steps: nat,
) -> bool {
    within_steps(known_history(known), seq![parent], id, steps)
}

proof fn lemma_added(reached: Seq<Seq<u8>>, next: Seq<Seq<u8>>, parents: Seq<Seq<u8>>)
    ensures
        forall|x: Seq<u8>| #[trigger]
            parents_added(reached, next, parents).0.contains(x) <==> reached.contains(x)
                || parents.contains(x),
        forall|x: Seq<u8>| #[trigger]
            next.contains(x) ==> parents_added(reached, next, parents).1.contains(x),
        forall|x: Seq<u8>| #[trigger]
            parents_added(reached, next, parents).0.contains(x) ==> reached.contains(x)
                || parents_added(reached, next, parents).1.contains(x),
    decreases parents.len(),
{
    if parents.len() > 0 {
        let front = parents.drop_last();
        let parent = parents.last();
        lemma_added(reached, next, front);
        let (r, n) = parents_added(reached, next, front);
        assert(parents =~= front.push(parent));
        lemma_pushed(front, parent);
        lemma_pushed(r, parent);
        lemma_pushed(n, parent);
        assert forall|x: Seq<u8>| #[trigger] next.contains(x) implies parents_added(
            reached,
            next,
            parents,
        ).1.contains(x) by {
            assert(n.contains(x));
        }
        assert forall|x: Seq<u8>| #[trigger]
            parents_added(reached, next, parents).0.contains(x) implies reached.contains(x)
            || parents_added(reached, next, parents).1.contains(x) by {
            if r.contains(x) && !reached.contains(x) {
                assert(n.contains(x));
            }
        }
    }
}

proof fn lemma_lane_reach(
    known: Seq<(Seq<u8>, Seq<Seq<u8>>)>,
    lane: LaneModel,
    budget: nat,
    n: nat,
)
    requires
        n <= lane.frontier.len(),
    ensures
        lane_after(known, lane, budget, n) matches Ok(round) ==> {
            let history = known_history(known);
            &&& forall|x: Seq<u8>| #[trigger] lane.reached.contains(x) ==> round.reached.contains(x)
            &&& forall|x: Seq<u8>| #[trigger]
                round.reached.contains(x) ==> lane.reached.contains(x) || exists|i: int|
                    0 <= i < n && history(#[trigger] lane.frontier[i]).contains(x)
            &&& forall|x: Seq<u8>| #[trigger]
                round.reached.contains(x) ==> lane.reached.contains(x) || round.next.contains(x)
            &&& round.budget > 0 ==> forall|i: int, x: Seq<u8>|
                0 <= i < n && #[trigger] history(lane.frontier[i]).contains(x)
                    ==> round.reached.contains(x)
        },
    decreases n,
{
    let history = known_history(known);
    if n > 0 {
        lemma_lane_reach(known, lane, budget, (n - 1) as nat);
        match lane_after(known, lane, budget, (n - 1) as nat) {
            Ok(before) => {
                let id = lane.frontier[n - 1];
                if before.budget > 0 && known_parents(known, id) is Some {
                    let parents = known_parents(known, id)->0;
                    assert(history(id) == parents);
                    lemma_added(before.reached, before.next, parents);
                    let after = lane_after(known, lane, budget, n)->Ok_0;
                    assert forall|x: Seq<u8>| #[trigger] lane.reached.contains(x) implies after.reached.contains(
                        x,
                    ) by {
                        assert(before.reached.contains(x));
                    }
                    assert forall|x: Seq<u8>| #[trigger] after.reached.contains(x) implies lane.reached.contains(
                        x,
                    ) || exists|i: int|
                        0 <= i < n && history(#[trigger] lane.frontier[i]).contains(x) by {
                        if parents.contains(x) {
                            assert(history(lane.frontier[n - 1]).contains(x));
                        } else {
                            assert(before.reached.contains(x));
                        }
                    }
                    assert forall|x: Seq<u8>| #[trigger] after.reached.contains(x) implies lane.reached.contains(
                        x,
                    ) || after.next.contains(x) by {
                        if before.reached.contains(x) && !lane.reached.contains(x) {
                            assert(before.next.contains(x));
                        }
                    }
                    assert forall|i: int, x: Seq<u8>|
                        0 <= i < n && #[trigger] history(lane.frontier[i]).contains(x) implies after.reached.contains(
                        x,
                    ) by {
                        if i < n - 1 {
                            assert(before.reached.contains(x));
                        }
                    }
                }
            },
            Err(_) => {},
        }
    }
}

/// What one lane looks like after a round, given what it looked like before.
spec fn lane_moved(
    known: Seq<(Seq<u8>, Seq<Seq<u8>>)>,
    before: LaneModel,
    after: LaneModel,
    complete: bool,
) -> bool {
    let history = known_history(known);
    &&& forall|x: Seq<u8>| #[trigger] before.reached.contains(x) ==> after.reached.contains(x)
    &&& forall|x: Seq<u8>| #[trigger]
        after.reached.contains(x) ==> before.reached.contains(x) || exists|i: int|
            0 <= i < before.frontier.len() && history(#[trigger] before.frontier[i]).contains(x)
    &&& forall|x: Seq<u8>| #[trigger]
        after.reached.contains(x) ==> before.reached.contains(x) || after.frontier.contains(x)
    &&& complete ==> forall|i: int, x: Seq<u8>|
        0 <= i < before.frontier.len() && #[trigger] history(before.frontier[i]).contains(x)
            ==> after.reached.contains(x)
}

proof fn lemma_lanes_moved(
    known: Seq<(Seq<u8>, Seq<Seq<u8>>)>,
    state: SearchState,
    n: nat,
)
    requires
        n <= state.lanes.len(),
    ensures
        lanes_after(known, state, n) matches Ok(after) ==> after.lanes.len() == state.lanes.len()
            && (forall|l: int|
            0 <= l < n ==> lane_moved(
                known,
                state.lanes[l],
                #[trigger] after.lanes[l],
                after.budget > 0,
            )) && (forall|l: int|
            n <= l < state.lanes.len() ==> #[trigger] after.lanes[l] == state.lanes[l]),
    decreases n,
{
    if n > 0 {
        lemma_lanes_moved(known, state, (n - 1) as nat);
        match lanes_after(known, state, (n - 1) as nat) {
            Ok(before) => {
                let lane = state.lanes[n - 1];
                lemma_lane_reach(known, lane, before.budget, lane.frontier.len());
                lemma_lane_budget(known, lane, before.budget, lane.frontier.len());
                match lanes_after(known, state, n) {
                    Ok(after) => {
                        assert forall|l: int| 0 <= l < n implies lane_moved(
                            known,
                            state.lanes[l],
                            #[trigger] after.lanes[l],
                            after.budget > 0,
                        ) by {
                            if l < n - 1 {
                                assert(after.lanes[l] == before.lanes[l]);
                            }
                        }
                    },
                    Err(_) => {},
                }
            },
            Err(_) => {},
        }
    }
}

/// What each lane has reached after `rounds` rounds.
spec fn lanes_inv(
    known: Seq<(Seq<u8>, Seq<Seq<u8>>)>,
    parents: Seq<Seq<u8>>,
    rounds: nat,
    state: SearchState,
) -> bool {
    let history = known_history(known);
    &&& state.lanes.len() == parents.len()
    &&& forall|l: int, x: Seq<u8>|
        0 <= l < parents.len() && #[trigger] state.lanes[l].reached.contains(x) ==> below(
            known,
            parents[l],
            x,
            rounds,
        )
    &&& state.budget > 0 ==> {
        &&& forall|l: int, x: Seq<u8>|
            0 <= l < parents.len() && #[trigger] below(known, parents[l], x, rounds)
                ==> state.lanes[l].reached.contains(x)
        &&& forall|l: int, x: Seq<u8>, parent: Seq<u8>|
            #![trigger state.lanes[l].reached.contains(x), history(x).contains(parent)]
            0 <= l < parents.len() && state.lanes[l].reached.contains(x)
                && !state.lanes[l].frontier.contains(x) && history(x).contains(parent)
                ==> state.lanes[l].reached.contains(parent)
    }
}

proof fn lemma_frontier_reached(
    known: Seq<(Seq<u8>, Seq<Seq<u8>>)>,
    lane: LaneModel,
    budget: nat,
    n: nat,
)
    ensures
        lane_after(known, lane, budget, n) matches Ok(round) ==> forall|x: Seq<u8>| #[trigger]
            round.next.contains(x) ==> round.reached.contains(x),
    decreases n,
{
    if n > 0 {
        lemma_frontier_reached(known, lane, budget, (n - 1) as nat);
        match lane_after(known, lane, budget, (n - 1) as nat) {
            Ok(before) => {
                if before.budget > 0 && known_parents(known, lane.frontier[n - 1]) is Some {
                    lemma_next_reached(
                        before.reached,
                        before.next,
                        known_parents(known, lane.frontier[n - 1])->0,
                    );
                }
            },
            Err(_) => {},
        }
    }
}

proof fn lemma_next_reached(reached: Seq<Seq<u8>>, next: Seq<Seq<u8>>, parents: Seq<Seq<u8>>)
    requires
        forall|x: Seq<u8>| #[trigger] next.contains(x) ==> reached.contains(x),
    ensures
        forall|x: Seq<u8>| #[trigger]
            parents_added(reached, next, parents).1.contains(x) ==> parents_added(
                reached,
                next,
                parents,
            ).0.contains(x),
    decreases parents.len(),
{
    if parents.len() > 0 {
        let (r, n) = parents_added(reached, next, parents.drop_last());
        lemma_next_reached(reached, next, parents.drop_last());
        lemma_pushed(r, parents.last());
        lemma_pushed(n, parents.last());
    }
}

/// Every frontier lies within what its lane has reached.
proof fn lemma_frontiers(
    known: Seq<(Seq<u8>, Seq<Seq<u8>>)>,
    state: SearchState,
    n: nat,
)
    requires
        n <= state.lanes.len(),
        forall|l: int, x: Seq<u8>|
            0 <= l < state.lanes.len() && #[trigger] state.lanes[l].frontier.contains(x)
                ==> state.lanes[l].reached.contains(x),
    ensures
        lanes_after(known, state, n) matches Ok(after) ==> after.lanes.len() == state.lanes.len()
            && forall|l: int, x: Seq<u8>|
            0 <= l < after.lanes.len() && #[trigger] after.lanes[l].frontier.contains(x)
                ==> after.lanes[l].reached.contains(x),
    decreases n,
{
    if n > 0 {
        lemma_frontiers(known, state, (n - 1) as nat);
        match lanes_after(known, state, (n - 1) as nat) {
            Ok(before) => {
                let lane = state.lanes[n - 1];
                lemma_frontier_reached(known, lane, before.budget, lane.frontier.len());
                match lanes_after(known, state, n) {
                    Ok(after) => {
                        assert forall|l: int, x: Seq<u8>|
                            0 <= l < after.lanes.len()
                                && #[trigger] after.lanes[l].frontier.contains(x) implies after.lanes[l].reached.contains(
                            x,
                        ) by {
                            if l != n - 1 {
                                assert(after.lanes[l] == before.lanes[l]);
                                assert(before.lanes[l].frontier.contains(x));
                            }
                        }
                    },
                    Err(_) => {},
                }
            },
            Err(_) => {},
        }
    }
}

proof fn lemma_search_inv(
    known: Seq<(Seq<u8>, Seq<Seq<u8>>)>,
    parents: Seq<Seq<u8>>,
    rounds: nat,
)
    ensures
        search_after(known, parents, rounds) matches Ok(state) ==> lanes_inv(
            known,
            parents,
            rounds,
            state,
        ) && forall|l: int, x: Seq<u8>|
            0 <= l < state.lanes.len() && #[trigger] state.lanes[l].frontier.contains(x)
                ==> state.lanes[l].reached.contains(x),
    decreases rounds,
{
    let history = known_history(known);
    if rounds == 0 {
        let state = search_start(parents);
        assert forall|l: int, x: Seq<u8>|
            0 <= l < parents.len() && #[trigger] state.lanes[l].reached.contains(x) implies below(
            known,
            parents[l],
            x,
            0,
        ) by {
            assert(state.lanes[l].reached == seq![parents[l]]);
        }
        assert forall|l: int, x: Seq<u8>|
            0 <= l < parents.len() && #[trigger] below(known, parents[l], x, 0) implies state.lanes[l].reached.contains(
            x,
        ) by {
            assert(state.lanes[l].reached == seq![parents[l]]);
        }
        assert forall|l: int| 0 <= l < parents.len() implies #[trigger] state.lanes[l].reached
            == state.lanes[l].frontier by {}
    } else {
        let less = (rounds - 1) as nat;
        lemma_search_inv(known, parents, less);
        match search_after(known, parents, less) {
            Ok(before) => {
                lemma_lanes_moved(known, before, before.lanes.len());
                lemma_lanes_budget(known, before, before.lanes.len());
                lemma_frontiers(known, before, before.lanes.len());
                match search_after(known, parents, rounds) {
                    Ok(after) => {
                        assert forall|l: int, x: Seq<u8>|
                            0 <= l < parents.len()
                                && #[trigger] after.lanes[l].reached.contains(x) implies below(
                            known,
                            parents[l],
                            x,
                            rounds,
                        ) by {
                            let was = before.lanes[l];
                            assert(lane_moved(known, was, after.lanes[l], after.budget > 0));
                            if was.reached.contains(x) {
                                assert(below(known, parents[l], x, less));
                            } else {
                                let i = choose|i: int|
                                    0 <= i < was.frontier.len() && history(
                                        #[trigger] was.frontier[i],
                                    ).contains(x);
                                let child = was.frontier[i];
                                assert(was.frontier.contains(child));
                                assert(was.reached.contains(child));
                                assert(below(known, parents[l], child, less));
                                assert(history(child).contains(x));
                            }
                        }
                        if after.budget > 0 {
                            assert forall|l: int, x: Seq<u8>|
                                0 <= l < parents.len()
                                    && #[trigger] below(known, parents[l], x, rounds) implies after.lanes[l].reached.contains(
                                x,
                            ) by {
                                let was = before.lanes[l];
                                assert(lane_moved(known, was, after.lanes[l], true));
                                if below(known, parents[l], x, less) {
                                    assert(was.reached.contains(x));
                                } else {
                                    let child = choose|child: Seq<u8>|
                                        within_steps(history, seq![parents[l]], child, less)
                                            && #[trigger] history(child).contains(x);
                                    assert(below(known, parents[l], child, less));
                                    assert(was.reached.contains(child));
                                    if was.frontier.contains(child) {
                                        let i = choose|i: int|
                                            0 <= i < was.frontier.len() && was.frontier[i] == child;
                                        assert(history(was.frontier[i]).contains(x));
                                    } else {
                                        assert(was.reached.contains(x));
                                    }
                                }
                            }
                            assert forall|l: int, x: Seq<u8>, parent: Seq<u8>|
                                #![trigger after.lanes[l].reached.contains(x), history(x).contains(parent)]
                                0 <= l < parents.len() && after.lanes[l].reached.contains(x)
                                    && !after.lanes[l].frontier.contains(x) && history(
                                    x,
                                ).contains(parent) implies after.lanes[l].reached.contains(parent) by {
                                let was = before.lanes[l];
                                assert(lane_moved(known, was, after.lanes[l], true));
                                assert(was.reached.contains(x));
                                if was.frontier.contains(x) {
                                    let i = choose|i: int|
                                        0 <= i < was.frontier.len() && was.frontier[i] == x;
                                    assert(history(was.frontier[i]).contains(parent));
                                } else {
                                    assert(was.reached.contains(parent));
                                }
                            }
                        }
                    },
                    Err(_) => {},
                }
            },
            Err(_) => {},
        }
    }
}

proof fn lemma_lane_needs(
    known: Seq<(Seq<u8>, Seq<Seq<u8>>)>,
    lane: LaneModel,
    budget: nat,
    n: nat,
)
    ensures
        lane_after(known, lane, budget, n) matches Err(id) ==> known_parents(known, id) is None,
    decreases n,
{
    if n > 0 {
        lemma_lane_needs(known, lane, budget, (n - 1) as nat);
    }
}

proof fn lemma_lanes_need(known: Seq<(Seq<u8>, Seq<Seq<u8>>)>, state: SearchState, n: nat)
    ensures
        lanes_after(known, state, n) matches Err(id) ==> known_parents(known, id) is None,
    decreases n,
{
    if n > 0 {
        lemma_lanes_need(known, state, (n - 1) as nat);
        if lanes_after(known, state, (n - 1) as nat) is Ok {
            let before = lanes_after(known, state, (n - 1) as nat)->Ok_0;
            let lane = state.lanes[n - 1];
            lemma_lane_needs(known, lane, before.budget, lane.frontier.len());
        }
    }
}

/// A search may read a thousand and twenty-four operations. Each that it reads costs it one,
/// and a lane reads its frontier in order until nothing is left to spend.
pub proof fn each_operation_read_costs_one(
    known: Seq<(Seq<u8>, Seq<Seq<u8>>)>,
    parents: Seq<Seq<u8>>,
    lane: LaneModel,
    budget: nat,
    n: nat,
)
    requires
        n <= lane.frontier.len(),
    ensures
        search_start(parents).budget == 1024,
        lane_after(known, lane, budget, n) matches Ok(round) ==> round.budget == (if n <= budget {
            budget - n
        } else {
            0
        }),
        lane_after(known, lane, budget, n) is Err <==> exists|i: int|
            0 <= i < n && i < budget && known_parents(known, #[trigger] lane.frontier[i]) is None,
    decreases n,
{
    if n > 0 {
        each_operation_read_costs_one(known, parents, lane, budget, (n - 1) as nat);
        let last = lane.frontier[n - 1];
    }
}

/// The search asks only for operations that were not read yet.
pub proof fn the_search_asks_for_what_is_unread(
    known: Seq<(Seq<u8>, Seq<Seq<u8>>)>,
    parents: Seq<Seq<u8>>,
    rounds: nat,
    answer: BaseAnswer,
)
    requires
        search_ends(known, parents, rounds, answer),
    ensures
        answer matches BaseAnswer::Need(id) ==> known_parents(known, id@) is None,
{
    lemma_search_needs(known, parents, rounds);
}

proof fn lemma_search_needs(
    known: Seq<(Seq<u8>, Seq<Seq<u8>>)>,
    parents: Seq<Seq<u8>>,
    rounds: nat,
)
    ensures
        search_after(known, parents, rounds) matches Err(id) ==> known_parents(known, id) is None,
    decreases rounds,
{
    if rounds > 0 {
        lemma_search_needs(known, parents, (rounds - 1) as nat);
        if search_after(known, parents, (rounds - 1) as nat) is Ok {
            let state = search_after(known, parents, (rounds - 1) as nat)->Ok_0;
            lemma_lanes_need(known, state, state.lanes.len());
        }
    }
}

/// A base that is found is an ancestor of every parent.
pub proof fn a_base_is_below_every_parent(
    known: Seq<(Seq<u8>, Seq<Seq<u8>>)>,
    parents: Seq<Seq<u8>>,
    rounds: nat,
    answer: BaseAnswer,
    l: int,
)
    requires
        search_ends(known, parents, rounds, answer),
        answer is Found,
        0 <= l < parents.len(),
    ensures
        below(known, parents[l], answer->Found_0@, rounds),
{
    lemma_search_inv(known, parents, rounds);
    let state = search_after(known, parents, rounds)->Ok_0;
    assert(state.lanes[l].reached.contains(answer->Found_0@));
}

/// And it is the closest: nothing is fewer steps below every parent.
pub proof fn the_base_is_closest(
    known: Seq<(Seq<u8>, Seq<Seq<u8>>)>,
    parents: Seq<Seq<u8>>,
    rounds: nat,
    answer: BaseAnswer,
    steps: nat,
    other: Seq<u8>,
)
    requires
        parents.len() > 0,
        search_ends(known, parents, rounds, answer),
        steps < rounds,
    ensures
        exists|l: int| 0 <= l < parents.len() && !below(known, #[trigger] parents[l], other, steps),
{
    assert(goes_on(known, parents, steps));
    lemma_search_inv(known, parents, steps);
    let state = search_after(known, parents, steps)->Ok_0;
    assert(!shared_by_all(state.lanes, other));
    let l = choose|l: int|
        0 <= l < state.lanes.len() && !(#[trigger] state.lanes[l]).reached.contains(other);
    assert(!below(known, parents[l], other, steps));
}

/// Of several that are as close, the smallest is the base, where the search might still read.
pub proof fn the_smallest_of_the_closest_is_the_base(
    known: Seq<(Seq<u8>, Seq<Seq<u8>>)>,
    parents: Seq<Seq<u8>>,
    rounds: nat,
    answer: BaseAnswer,
    other: Seq<u8>,
)
    requires
        search_ends(known, parents, rounds, answer),
        answer is Found,
        search_after(known, parents, rounds)->Ok_0.budget > 0,
        forall|l: int|
            0 <= l < parents.len() ==> below(known, #[trigger] parents[l], other, rounds),
    ensures
        other == answer->Found_0@ || bytes_less(answer->Found_0@, other),
{
    lemma_search_inv(known, parents, rounds);
    let state = search_after(known, parents, rounds)->Ok_0;
    assert forall|l: int| 0 <= l < state.lanes.len() implies (
    #[trigger] state.lanes[l]).reached.contains(other) by {
        assert(below(known, parents[l], other, rounds));
    }
    assert(shared_by_all(state.lanes, other));
}

/// Where the search ends with nothing while it might still read, there is
/// nothing: no operation is below every parent.
pub proof fn no_base_is_missed(
    known: Seq<(Seq<u8>, Seq<Seq<u8>>)>,
    parents: Seq<Seq<u8>>,
    rounds: nat,
    answer: BaseAnswer,
    steps: nat,
    other: Seq<u8>,
)
    requires
        parents.len() > 0,
        search_ends(known, parents, rounds, answer),
        answer is NotFound,
        search_after(known, parents, rounds)->Ok_0.budget > 0,
    ensures
        exists|l: int| 0 <= l < parents.len() && !below(known, #[trigger] parents[l], other, steps),
{
    lemma_search_inv(known, parents, rounds);
    let state = search_after(known, parents, rounds)->Ok_0;
    assert(!shared_by_all(state.lanes, other));
    let l = choose|l: int|
        0 <= l < state.lanes.len() && !(#[trigger] state.lanes[l]).reached.contains(other);
    let lane = state.lanes[l];
    assert(lane.frontier.len() == 0);
    assert(below(known, parents[l], parents[l], 0)) by {
        assert(seq![parents[l]][0] == parents[l]);
    }
    lemma_below_grows(known, parents[l], parents[l], 0, rounds);
    assert(lane.reached.contains(parents[l]));
    if below(known, parents[l], other, steps) {
        lemma_lane_closed(known, parents[l], lane, steps, other);
    }
}

proof fn lemma_below_grows(
    known: Seq<(Seq<u8>, Seq<Seq<u8>>)>,
    parent: Seq<u8>,
    id: Seq<u8>,
    few: nat,
    many: nat,
)
    requires
        few <= many,
        below(known, parent, id, few),
    ensures
        below(known, parent, id, many),
    decreases many,
{
    if few < many {
        lemma_below_grows(known, parent, id, few, (many - 1) as nat);
    }
}

proof fn lemma_lane_closed(
    known: Seq<(Seq<u8>, Seq<Seq<u8>>)>,
    parent: Seq<u8>,
    lane: LaneModel,
    steps: nat,
    id: Seq<u8>,
)
    requires
        lane.reached.contains(parent),
        forall|x: Seq<u8>, p: Seq<u8>|
            #![trigger lane.reached.contains(x), known_history(known)(x).contains(p)]
            lane.reached.contains(x) && known_history(known)(x).contains(p)
                ==> lane.reached.contains(p),
        below(known, parent, id, steps),
    ensures
        lane.reached.contains(id),
    decreases steps,
{
    let history = known_history(known);
    if steps == 0 {
        assert(seq![parent].contains(id));
    } else {
        let less = (steps - 1) as nat;
        if within_steps(history, seq![parent], id, less) {
            lemma_lane_closed(known, parent, lane, less, id);
        } else {
            let child = choose|child: Seq<u8>|
                within_steps(history, seq![parent], child, less) && #[trigger] history(
                    child,
                ).contains(id);
            lemma_lane_closed(known, parent, lane, less, child);
        }
    }
}

// ─── The scope of a publish ───────────────────────────────────────────────────

/// Why the scope of a publish was not settled in its favour.
#[derive(Debug, PartialEq, Eq)]
pub enum ScopeFailure {
    /// The published operation or its view could not be read: it is the id and
    /// the reason.
    CannotCheck(Vec<u8>, String),
    /// The operation heads of the server could not be read.
    HeadsUnread(String),
    /// An operation head of the server is not a hex id.
    HeadNotHex(String),
    /// The publish is built on an operation this server does not serve.
    UnservedParent(Vec<u8>),
    /// A base could not be read.
    CannotReadOperation(Vec<u8>, String),
    CannotReadView(Vec<u8>, String),
    /// The publish changes what the token does not cover, for this reason.
    OutOfScope(String),
}

/// A failure, as a mathematical value.
#[verifier::ext_equal]
pub enum FailureModel {
    CannotCheck(Seq<u8>, Seq<char>),
    HeadsUnread(Seq<char>),
    HeadNotHex(Seq<char>),
    UnservedParent(Seq<u8>),
    CannotReadOperation(Seq<u8>, Seq<char>),
    CannotReadView(Seq<u8>, Seq<char>),
    OutOfScope(Seq<char>),
}

impl View for ScopeFailure {
    type V = FailureModel;

    open spec fn view(&self) -> FailureModel {
        match self {
            ScopeFailure::CannotCheck(id, why) => FailureModel::CannotCheck(id@, why@),
            ScopeFailure::HeadsUnread(why) => FailureModel::HeadsUnread(why@),
            ScopeFailure::HeadNotHex(head) => FailureModel::HeadNotHex(head@),
            ScopeFailure::UnservedParent(id) => FailureModel::UnservedParent(id@),
            ScopeFailure::CannotReadOperation(id, why) => FailureModel::CannotReadOperation(
                id@,
                why@,
            ),
            ScopeFailure::CannotReadView(id, why) => FailureModel::CannotReadView(id@, why@),
            ScopeFailure::OutOfScope(why) => FailureModel::OutOfScope(why@),
        }
    }
}

impl ScopeFailure {
    pub open spec fn text(self) -> Seq<char> {
        match self {
            ScopeFailure::CannotCheck(id, why) => "cannot check what operation "@ + hex_text(id@)
                + " publishes: "@ + why@,
            ScopeFailure::HeadsUnread(why) => why@,
            ScopeFailure::HeadNotHex(head) => "operation head "@ + head@ + " is not a hex id"@,
            ScopeFailure::UnservedParent(id) => "this token may not publish an operation built on "@
                + hex_text(id@)
                + " — that operation is not part of the history this server serves"@,
            ScopeFailure::CannotReadOperation(id, why) => "cannot read operation "@ + hex_text(id@)
                + ": "@ + why@,
            ScopeFailure::CannotReadView(id, why) => "cannot read the view of operation "@
                + hex_text(id@) + ": "@ + why@,
            ScopeFailure::OutOfScope(why) => why@,
        }
    }

    /// The sentence that names the failure.
    pub fn message(&self) -> (s: String)
        ensures
            s@ == self.text(),
    {
        match self {
            ScopeFailure::CannotCheck(id, why) => {
                let mut s = "cannot check what operation ".to_owned();
                s.append(to_hex(id.as_slice()).as_str());
                s.append(" publishes: ");
                s.append(why.as_str());
                s
            },
            ScopeFailure::HeadsUnread(why) | ScopeFailure::OutOfScope(why) => why.clone(),
            ScopeFailure::HeadNotHex(head) => {
                let mut s = "operation head ".to_owned();
                s.append(head.as_str());
                s.append(" is not a hex id");
                s
            },
            ScopeFailure::UnservedParent(id) => unserved_parent_message(id.as_slice()),
            ScopeFailure::CannotReadOperation(id, why) => {
                let mut s = "cannot read operation ".to_owned();
                s.append(to_hex(id.as_slice()).as_str());
                s.append(": ");
                s.append(why.as_str());
                s
            },
            ScopeFailure::CannotReadView(id, why) => {
                let mut s = "cannot read the view of operation ".to_owned();
                s.append(to_hex(id.as_slice()).as_str());
                s.append(": ");
                s.append(why.as_str());
                s
            },
        }
    }

    /// Whether the publish is refused for good. What the server cannot read of
    /// its own is its fault: the publish stops with a failure that the client may
    /// retry.
    pub open spec fn denies(self) -> bool {
        self is CannotCheck || self is UnservedParent || self is OutOfScope
    }

    pub fn is_denial(&self) -> (r: bool)
        ensures
            r == self.denies(),
            r <==> (self is CannotCheck || self is UnservedParent || self is OutOfScope),
    {
        match self {
            ScopeFailure::CannotCheck(_, _) | ScopeFailure::UnservedParent(_)
            | ScopeFailure::OutOfScope(_) => true,
            _ => false,
        }
    }
}

/// The heads of the server as ids; the first of them that is not hex stops the
/// check.
pub fn served_head_ids(heads: &Vec<String>) -> (r: Result<Vec<Vec<u8>>, ScopeFailure>)
    ensures
        match r {
            Ok(ids) => {
                &&& ids@.len() == heads@.len()
                &&& forall|i: int|
                    0 <= i < ids@.len() ==> hex_value(heads@[i]@) == Ok::<Seq<u8>, HexError>(
                        (#[trigger] ids@[i])@,
                    )
            },
            Err(failure) => failure matches ScopeFailure::HeadNotHex(head) && exists|i: int|
                0 <= i < heads@.len() && (#[trigger] heads@[i])@ == head@ && hex_value(
                    heads@[i]@,
                ) is Err && forall|j: int|
                    0 <= j < i ==> hex_value((#[trigger] heads@[j])@) is Ok,
        },
{
    let mut ids: Vec<Vec<u8>> = Vec::new();
    let mut i: usize = 0;
    while i < heads.len()
        invariant
            i <= heads@.len(),
            ids@.len() == i,
            forall|j: int|
                0 <= j < i ==> hex_value(heads@[j]@) == Ok::<Seq<u8>, HexError>(
                    (#[trigger] ids@[j])@,
                ),
        decreases heads@.len() - i,
    {
        match from_hex(heads[i].as_str()) {
            Ok(id) => ids.push(id),
            Err(_) => {
                proof {
                    assert forall|j: int| 0 <= j < i implies hex_value(
                        (#[trigger] heads@[j])@,
                    ) is Ok by {
                        assert(ids@[j]@ == ids@[j]@);
                    }
                }
                return Err(ScopeFailure::HeadNotHex(heads[i].clone()));
            },
        }
        i = i + 1;
    }
    Ok(ids)
}

/// What a publish is measured against.
#[derive(Debug, PartialEq, Eq)]
pub struct Bases<V> {
    /// The views of the operation's own parents.
    pub inherited: Vec<V>,
    /// The view of the closest operation all of them descend from.
    pub merge_base: Option<V>,
    /// The views of the heads this server serves.
    pub served: Vec<V>,
}

/// Put the bases together. A repo with no heads and no parents at all has the
/// empty repo as the only thing there is to measure against: this is the
/// operation `tandem init` records first.
pub fn assemble_bases<V>(
    inherited: Vec<V>,
    served: Vec<V>,
    merge_base: Option<V>,
    empty_repo: V,
) -> (r: Bases<V>)
    ensures
        r.inherited@ == inherited@,
        r.merge_base == merge_base,
        r.served@ == (if inherited@.len() == 0 && served@.len() == 0 {
            seq![empty_repo]
        } else {
            served@
        }),
{
    let mut served = served;
    if inherited.len() == 0 && served.len() == 0 {
        served.push(empty_repo);
        assert(served@ =~= seq![empty_repo]);
    }
    Bases { inherited, merge_base, served }
}

/// Whether the second commit is the first one rewritten: same change, different
/// commit. A commit this server cannot read is not a rewrite of anything.
pub fn is_rewrite_of(before: &Option<Vec<u8>>, after: &Option<Vec<u8>>) -> (r: bool)
    ensures
        r == (before matches Some(a) && after matches Some(b) && a@ == b@),
{
    match (before, after) {
        (Some(a), Some(b)) => same_bytes(a.as_slice(), b.as_slice()),
        _ => false,
    }
}

} // verus!
