//! A walk from some heads towards the root, each id once.
use vstd::prelude::*;

use crate::order::{copied, copied_ids, holds_bytes, lemma_pushed, same_bytes};
use crate::text::models;

verus! {

/// A walk: what is still to be visited, the next one last, and what was visited.
#[derive(Debug, PartialEq, Eq)]
pub struct ReachWalk {
    queue: Vec<Vec<u8>>,
    seen: Vec<Vec<u8>>,
}

/// Whether an id is passed over: it is the root, or was visited.
pub open spec fn passed_over(id: Seq<u8>, root: Option<Seq<u8>>, seen: Seq<Seq<u8>>) -> bool {
    root == Some(id) || seen.contains(id)
}

/// The next id to visit, and what is left to visit then.
pub open spec fn next_of(
    queue: Seq<Seq<u8>>,
    seen: Seq<Seq<u8>>,
    root: Option<Seq<u8>>,
) -> Option<(Seq<u8>, Seq<Seq<u8>>)>
    decreases queue.len(),
{
    if queue.len() == 0 {
        None
    } else if passed_over(queue.last(), root, seen) {
        next_of(queue.drop_last(), seen, root)
    } else {
        Some((queue.last(), queue.drop_last()))
    }
}

pub open spec fn maybe_id(id: Option<&[u8]>) -> Option<Seq<u8>> {
    match id {
        Some(id) => Some(id@),
        None => None,
    }
}

impl ReachWalk {
    pub closed spec fn queue(self) -> Seq<Seq<u8>> {
        models(self.queue@)
    }

    pub closed spec fn seen(self) -> Seq<Seq<u8>> {
        models(self.seen@)
    }

    /// A walk from these heads.
    pub fn new(heads: &Vec<Vec<u8>>) -> (r: Self)
        ensures
            r.queue() == models(heads@),
            r.seen() == Seq::<Seq<u8>>::empty(),
    {
        let seen: Vec<Vec<u8>> = Vec::new();
        assert(models(seen@) =~= Seq::<Seq<u8>>::empty());
        ReachWalk { queue: copied_ids(heads), seen }
    }

    /// Visit the next id that is neither the root nor was visited.
    pub fn next(&mut self, root: Option<&[u8]>) -> (r: Option<Vec<u8>>)
        ensures
            match r {
                Some(id) => next_of(old(self).queue(), old(self).seen(), maybe_id(root)) == Some(
                    (id@, final(self).queue()),
                ) && final(self).seen() == old(self).seen().push(id@),
                None => next_of(old(self).queue(), old(self).seen(), maybe_id(root)) is None
                    && final(self).queue() == Seq::<Seq<u8>>::empty() && final(self).seen() == old(
                    self,
                ).seen(),
            },
    {
        let ghost start = self.queue();
        while self.queue.len() > 0
            invariant
                self.seen() == old(self).seen(),
                start == old(self).queue(),
                next_of(start, self.seen(), maybe_id(root)) == next_of(
                    self.queue(),
                    self.seen(),
                    maybe_id(root),
                ),
            decreases self.queue@.len(),
        {
            let ghost before = self.queue();
            let id = match self.queue.pop() {
                Some(id) => id,
                None => {
                    return None;
                },
            };
            assert(before.last() == id@);
            assert(self.queue() =~= before.drop_last());
            let at_root = match root {
                Some(root) => same_bytes(id.as_slice(), root),
                None => false,
            };
            if !at_root && !holds_bytes(&self.seen, id.as_slice()) {
                let ghost had = self.seen();
                self.seen.push(copied(id.as_slice()));
                assert(self.seen() =~= had.push(id@));
                return Some(id);
            }
        }
        assert(self.queue() =~= Seq::<Seq<u8>>::empty());
        None
    }

    /// Take note of the parents of the id that was visited.
    pub fn took(&mut self, parents: &Vec<Vec<u8>>)
        ensures
            final(self).queue() == old(self).queue() + models(parents@),
            final(self).seen() == old(self).seen(),
    {
        let ghost before = self.queue();
        let mut i: usize = 0;
        assert(before + models(parents@).take(0) =~= before);
        while i < parents.len()
            invariant
                i <= parents@.len(),
                self.queue() == before + models(parents@).take(i as int),
                self.seen() == old(self).seen(),
            decreases parents@.len() - i,
        {
            let ghost had = self.queue@;
            self.queue.push(copied(parents[i].as_slice()));
            proof {
                let id = parents@[i as int]@;
                assert(models(self.queue@) =~= models(had).push(id));
                assert(models(parents@)[i as int] == id);
                assert(before + models(parents@).take(i + 1) =~= (before + models(parents@).take(
                    i as int,
                )).push(id));
            }
            i = i + 1;
        }
        assert(models(parents@).take(i as int) =~= models(parents@));
    }
}

// ─── What a walk finds ────────────────────────────────────────────────────────

/// Whether an id can be reached from the heads in `n` steps, each from an id other
/// than the root to a parent of it.
pub open spec fn reaches(
    heads: Seq<Seq<u8>>,
    parents: spec_fn(Seq<u8>) -> Seq<Seq<u8>>,
    root: Option<Seq<u8>>,
    id: Seq<u8>,
    n: nat,
) -> bool
    decreases n,
{
    if n == 0 {
        heads.contains(id)
    } else {
        exists|child: Seq<u8>|
            #![trigger parents(child)]
            reaches(heads, parents, root, child, (n - 1) as nat) && root != Some(child) && parents(
                child,
            ).contains(id)
    }
}

pub open spec fn met(
    id: Seq<u8>,
    root: Option<Seq<u8>>,
    seen: Seq<Seq<u8>>,
    queue: Seq<Seq<u8>>,
) -> bool {
    passed_over(id, root, seen) || queue.contains(id)
}

/// Whether a walk has lost nothing: every head, and every parent of an id that was
/// visited, was visited, is still to be, or is the root.
pub open spec fn whole(
    heads: Seq<Seq<u8>>,
    parents: spec_fn(Seq<u8>) -> Seq<Seq<u8>>,
    root: Option<Seq<u8>>,
    seen: Seq<Seq<u8>>,
    queue: Seq<Seq<u8>>,
) -> bool {
    &&& forall|id: Seq<u8>| #[trigger] heads.contains(id) ==> met(id, root, seen, queue)
    &&& forall|child: Seq<u8>, id: Seq<u8>|
        #![trigger seen.contains(child), parents(child).contains(id)]
        seen.contains(child) && parents(child).contains(id) ==> met(id, root, seen, queue)
}

/// A walk starts without having lost anything.
pub proof fn a_walk_starts_whole(
    heads: Seq<Seq<u8>>,
    parents: spec_fn(Seq<u8>) -> Seq<Seq<u8>>,
    root: Option<Seq<u8>>,
)
    ensures
        whole(heads, parents, root, Seq::empty(), heads),
{
}

proof fn lemma_next_of(queue: Seq<Seq<u8>>, seen: Seq<Seq<u8>>, root: Option<Seq<u8>>)
    ensures
        match next_of(queue, seen, root) {
            Some((id, rest)) => !passed_over(id, root, seen) && forall|x: Seq<u8>| #[trigger]
                queue.contains(x) ==> x == id || rest.contains(x) || passed_over(x, root, seen),
            None => forall|x: Seq<u8>| #[trigger] queue.contains(x) ==> passed_over(x, root, seen),
        },
    decreases queue.len(),
{
    if queue.len() > 0 {
        let rest = queue.drop_last();
        assert(queue =~= rest.push(queue.last()));
        lemma_pushed(rest, queue.last());
        if passed_over(queue.last(), root, seen) {
            lemma_next_of(rest, seen, root);
        }
    }
}

/// Visiting an id and taking note of its parents loses nothing, and no id is
/// visited twice.
pub proof fn a_step_loses_nothing(
    heads: Seq<Seq<u8>>,
    parents: spec_fn(Seq<u8>) -> Seq<Seq<u8>>,
    root: Option<Seq<u8>>,
    seen: Seq<Seq<u8>>,
    queue: Seq<Seq<u8>>,
)
    requires
        whole(heads, parents, root, seen, queue),
        next_of(queue, seen, root) is Some,
        seen.no_duplicates(),
    ensures
        ({
            let (id, rest) = next_of(queue, seen, root)->0;
            &&& whole(heads, parents, root, seen.push(id), rest + parents(id))
            &&& seen.push(id).no_duplicates()
        }),
{
    let (id, rest) = next_of(queue, seen, root)->0;
    lemma_next_of(queue, seen, root);
    let seen2 = seen.push(id);
    let queue2 = rest + parents(id);
    lemma_pushed(seen, id);
    assert forall|x: Seq<u8>| met(x, root, seen, queue) implies #[trigger] met(
        x,
        root,
        seen2,
        queue2,
    ) by {
        if rest.contains(x) {
            let k = choose|k: int| 0 <= k < rest.len() && rest[k] == x;
            assert(queue2[k] == x);
        }
    }
    assert forall|x: Seq<u8>| parents(id).contains(x) implies #[trigger] met(
        x,
        root,
        seen2,
        queue2,
    ) by {
        let mine = parents(id);
        let k = choose|k: int| 0 <= k < mine.len() && mine[k] == x;
        assert(queue2[rest.len() + k] == x);
    }
    assert forall|x: Seq<u8>| #[trigger] heads.contains(x) implies met(x, root, seen2, queue2) by {
        assert(met(x, root, seen, queue));
    }
    assert forall|child: Seq<u8>, x: Seq<u8>|
        #![trigger seen2.contains(child), parents(child).contains(x)]
        seen2.contains(child) && parents(child).contains(x) implies met(x, root, seen2, queue2) by {
        if child != id {
            assert(seen.contains(child));
            assert(met(x, root, seen, queue));
        }
    }
}

/// A walk that has lost nothing and finds nothing more has visited everything that
/// can be reached, but for the root.
pub proof fn a_finished_walk_has_seen_everything(
    heads: Seq<Seq<u8>>,
    parents: spec_fn(Seq<u8>) -> Seq<Seq<u8>>,
    root: Option<Seq<u8>>,
    seen: Seq<Seq<u8>>,
    queue: Seq<Seq<u8>>,
    id: Seq<u8>,
    n: nat,
)
    requires
        whole(heads, parents, root, seen, queue),
        next_of(queue, seen, root) is None,
        reaches(heads, parents, root, id, n),
    ensures
        passed_over(id, root, seen),
    decreases n,
{
    lemma_next_of(queue, seen, root);
    if n == 0 {
        assert(met(id, root, seen, queue));
    } else {
        let child = choose|child: Seq<u8>|
            #![trigger parents(child)]
            reaches(heads, parents, root, child, (n - 1) as nat) && root != Some(child) && parents(
                child,
            ).contains(id);
        a_finished_walk_has_seen_everything(
            heads,
            parents,
            root,
            seen,
            queue,
            child,
            (n - 1) as nat,
        );
        assert(seen.contains(child) && parents(child).contains(id));
        assert(met(id, root, seen, queue));
    }
}

/// Whether an id is below a head, or is one.
pub open spec fn below(
    heads: Seq<Seq<u8>>,
    parents: spec_fn(Seq<u8>) -> Seq<Seq<u8>>,
    root: Option<Seq<u8>>,
    id: Seq<u8>,
) -> bool {
    exists|n: nat| reaches(heads, parents, root, id, n)
}

/// Whether everything that is still to be visited is below a head.
pub open spec fn all_below(
    heads: Seq<Seq<u8>>,
    parents: spec_fn(Seq<u8>) -> Seq<Seq<u8>>,
    root: Option<Seq<u8>>,
    queue: Seq<Seq<u8>>,
) -> bool {
    forall|id: Seq<u8>| #[trigger] queue.contains(id) ==> below(heads, parents, root, id)
}

/// A walk starts at the heads.
pub proof fn a_walk_starts_at_the_heads(
    heads: Seq<Seq<u8>>,
    parents: spec_fn(Seq<u8>) -> Seq<Seq<u8>>,
    root: Option<Seq<u8>>,
)
    ensures
        all_below(heads, parents, root, heads),
{
    assert forall|id: Seq<u8>| #[trigger] heads.contains(id) implies below(
        heads,
        parents,
        root,
        id,
    ) by {
        assert(reaches(heads, parents, root, id, 0));
    }
}

proof fn lemma_next_is_queued(queue: Seq<Seq<u8>>, seen: Seq<Seq<u8>>, root: Option<Seq<u8>>)
    ensures
        next_of(queue, seen, root) matches Some((id, rest)) ==> queue.contains(id) && root != Some(
            id,
        ) && forall|x: Seq<u8>| #[trigger] rest.contains(x) ==> queue.contains(x),
    decreases queue.len(),
{
    if queue.len() > 0 {
        let rest = queue.drop_last();
        assert(queue =~= rest.push(queue.last()));
        lemma_pushed(rest, queue.last());
        if passed_over(queue.last(), root, seen) {
            lemma_next_is_queued(rest, seen, root);
        }
    }
}

/// A walk visits only what is below a head.
pub proof fn a_step_stays_below_the_heads(
    heads: Seq<Seq<u8>>,
    parents: spec_fn(Seq<u8>) -> Seq<Seq<u8>>,
    root: Option<Seq<u8>>,
    seen: Seq<Seq<u8>>,
    queue: Seq<Seq<u8>>,
)
    requires
        all_below(heads, parents, root, queue),
        next_of(queue, seen, root) is Some,
    ensures
        ({
            let (id, rest) = next_of(queue, seen, root)->0;
            &&& below(heads, parents, root, id)
            &&& all_below(heads, parents, root, rest + parents(id))
        }),
{
    let (id, rest) = next_of(queue, seen, root)->0;
    lemma_next_is_queued(queue, seen, root);
    let n = choose|n: nat| reaches(heads, parents, root, id, n);
    let queue2 = rest + parents(id);
    assert forall|x: Seq<u8>| #[trigger] queue2.contains(x) implies below(
        heads,
        parents,
        root,
        x,
    ) by {
        let k = choose|k: int| 0 <= k < queue2.len() && queue2[k] == x;
        if k < rest.len() {
            assert(rest[k] == x);
            assert(rest.contains(x));
        } else {
            assert(parents(id)[k - rest.len()] == x);
            assert(parents(id).contains(x));
            assert(reaches(heads, parents, root, x, n + 1));
        }
    }
}

} // verus!
