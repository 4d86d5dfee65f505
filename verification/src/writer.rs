//! One workspace, one writer.
//!
//! A workspace has at most one client writing to it at a time. This is the whole
//! of the mechanism: a map from workspace to the client that currently holds the
//! role, and the moment that hold runs out.
//!
//! The hold expires rather than being released, because the thing it protects
//! against is a client that stopped answering. A holder keeps the role by asking
//! for it again before its own expiry, and a client that stops asking loses it
//! without anybody having to notice.
//!
//! Spans of time are in nanoseconds, as `Duration::as_nanos` gives them; moments
//! are spans since the clock of a [`WriterRoles`] started.
use vstd::prelude::*;
use vstd::string::*;

use crate::text::{decimal, push_long_decimal, same_text};

verus! {

/// How long a claim lasts when the caller does not say: 30 seconds.
pub const DEFAULT_WRITER_TTL: u128 = 30_000_000_000;

/// The longest a claim may last: ten minutes. A holder that dies takes the
/// workspace with it for this long, so it is minutes rather than hours.
pub const MAX_WRITER_TTL: u128 = 600_000_000_000;

/// The longest span that a `Duration` holds.
pub const MAX_SPAN: u128 = 18_446_744_073_709_551_615_999_999_999;

/// The role as it stands after a successful claim.
#[derive(Debug, Clone, PartialEq, Eq)]
pub struct WriterRole {
    pub workspace_id: String,
    /// The client holding it, named by the client itself.
    pub holder: String,
    /// What is left of this hold.
    pub expires_in: u128,
}

/// Somebody else holds the role, and their hold has not run out.
#[derive(Debug, Clone, PartialEq, Eq)]
pub struct WriterConflict {
    pub workspace_id: String,
    pub holder: String,
    pub expires_in: u128,
}

impl WriterConflict {
    pub open spec fn text(self) -> Seq<char> {
        "workspace "@ + self.workspace_id@ + " already has a writer ("@ + self.holder@
            + "); its claim expires in "@ + decimal(self.expires_in as nat / 1_000_000) + " ms"@
    }

    /// The sentence a refused client gets.
    pub fn message(&self) -> (s: String)
        ensures
            s@ == self.text(),
    {
        let mut s = "workspace ".to_owned();
        s.append(self.workspace_id.as_str());
        s.append(" already has a writer (");
        s.append(self.holder.as_str());
        s.append("); its claim expires in ");
        push_long_decimal(&mut s, self.expires_in / 1_000_000);
        s.append(" ms");
        s
    }
}

/// A moment of the monotonic clock.
#[verifier::external_type_specification]
#[verifier::external_body]
pub struct ExInstant(std::time::Instant);

/// `Instant::now`. Which moment it is, nothing says.
#[verifier::external_body]
fn clock_start() -> std::time::Instant {
    std::time::Instant::now()
}

/// `Instant::elapsed`, in nanoseconds: never more than a `Duration` holds.
#[verifier::external_body]
fn clock_reads(start: &std::time::Instant) -> (nanos: u128)
    ensures
        nanos <= MAX_SPAN,
{
    start.elapsed().as_nanos()
}

// ─── The rule ─────────────────────────────────────────────────────────────────

/// One hold: who, and until when.
pub struct Hold {
    pub holder: Seq<char>,
    pub expires_at: nat,
}

/// The holds that have not run out.
pub open spec fn live(held: Map<Seq<char>, Hold>, now: nat) -> Map<Seq<char>, Hold> {
    held.restrict(Set::new(|w: Seq<char>| held.contains_key(w) && held[w].expires_at > now))
}

/// Whether `holder` may have the role: nobody else holds it.
pub open spec fn grants(
    held: Map<Seq<char>, Hold>,
    workspace: Seq<char>,
    holder: Seq<char>,
    now: nat,
) -> bool {
    live(held, now).contains_key(workspace) ==> held[workspace].holder == holder
}

pub open spec fn capped(ttl: nat) -> nat {
    if ttl < MAX_WRITER_TTL {
        ttl
    } else {
        MAX_WRITER_TTL as nat
    }
}

/// The holds after a claim.
pub open spec fn after_claim(
    held: Map<Seq<char>, Hold>,
    workspace: Seq<char>,
    holder: Seq<char>,
    ttl: nat,
    now: nat,
) -> Map<Seq<char>, Hold> {
    if grants(held, workspace, holder, now) {
        live(held, now).insert(workspace, Hold { holder, expires_at: now + capped(ttl) })
    } else {
        live(held, now)
    }
}

/// What a claim at `now` answers and leaves behind.
pub open spec fn claim_answers(
    held: Map<Seq<char>, Hold>,
    after: Map<Seq<char>, Hold>,
    workspace: Seq<char>,
    holder: Seq<char>,
    ttl: nat,
    now: nat,
    r: Result<WriterRole, WriterConflict>,
) -> bool {
    &&& after == after_claim(held, workspace, holder, ttl, now)
    &&& match r {
        Ok(role) => {
            &&& grants(held, workspace, holder, now)
            &&& role.workspace_id@ == workspace
            &&& role.holder@ == holder
            &&& role.expires_in == capped(ttl)
        },
        Err(conflict) => {
            &&& !grants(held, workspace, holder, now)
            &&& conflict.workspace_id@ == workspace
            &&& conflict.holder@ == held[workspace].holder
            &&& conflict.expires_in == held[workspace].expires_at - now
        },
    }
}

/// What asking who holds the role at `now` answers.
pub open spec fn current_answers(
    held: Map<Seq<char>, Hold>,
    workspace: Seq<char>,
    now: nat,
    r: Option<WriterRole>,
) -> bool {
    match r {
        Some(role) => {
            &&& live(held, now).contains_key(workspace)
            &&& role.workspace_id@ == workspace
            &&& role.holder@ == held[workspace].holder
            &&& role.expires_in == held[workspace].expires_at - now
        },
        None => !live(held, now).contains_key(workspace),
    }
}

// ─── The table ────────────────────────────────────────────────────────────────

struct Held {
    workspace: String,
    holder: String,
    expires_at: u128,
}

spec fn distinct(held: Seq<Held>) -> bool {
    forall|i: int, j: int|
        0 <= i < j < held.len() ==> #[trigger] held[i].workspace@ != #[trigger] held[j].workspace@
}

spec fn held_map(held: Seq<Held>) -> Map<Seq<char>, Hold>
    decreases held.len(),
{
    if held.len() == 0 {
        Map::empty()
    } else {
        held_map(held.drop_last()).insert(
            held.last().workspace@,
            Hold { holder: held.last().holder@, expires_at: held.last().expires_at as nat },
        )
    }
}

proof fn lemma_held_map(held: Seq<Held>)
    requires
        distinct(held),
    ensures
        forall|i: int|
            0 <= i < held.len() ==> held_map(held).contains_key((#[trigger] held[i]).workspace@)
                && held_map(held)[held[i].workspace@] == (Hold {
                holder: held[i].holder@,
                expires_at: held[i].expires_at as nat,
            }),
        forall|w: Seq<char>| #[trigger]
            held_map(held).contains_key(w) ==> exists|i: int|
                0 <= i < held.len() && (#[trigger] held[i]).workspace@ == w,
    decreases held.len(),
{
    if held.len() > 0 {
        let front = held.drop_last();
        lemma_held_map(front);
        let n = held.len() - 1;
        assert forall|i: int| 0 <= i < held.len() implies held_map(held).contains_key(
            (#[trigger] held[i]).workspace@,
        ) && held_map(held)[held[i].workspace@] == (Hold {
            holder: held[i].holder@,
            expires_at: held[i].expires_at as nat,
        }) by {
            if i < n {
                assert(front[i] == held[i]);
                assert(held[i].workspace@ != held[n].workspace@);
            }
        }
        assert forall|w: Seq<char>| #[trigger] held_map(held).contains_key(w) implies exists|i: int|
            0 <= i < held.len() && (#[trigger] held[i]).workspace@ == w by {
            if w == held[n].workspace@ {
            } else {
                assert(held_map(front).contains_key(w));
                let i = choose|i: int| 0 <= i < front.len() && (#[trigger] front[i]).workspace@ == w;
                assert(held[i].workspace@ == w);
            }
        }
    }
}

/// Who currently writes each workspace.
pub struct WriterRoles {
    clock: std::time::Instant,
    held: Vec<Held>,
}

impl View for WriterRoles {
    type V = Map<Seq<char>, Hold>;

    closed spec fn view(&self) -> Map<Seq<char>, Hold> {
        held_map(self.held@)
    }
}

impl WriterRoles {
    #[verifier::type_invariant]
    spec fn one_hold_each(self) -> bool {
        distinct(self.held@)
    }

    pub fn new() -> (r: WriterRoles)
        ensures
            r@ == Map::<Seq<char>, Hold>::empty(),
    {
        WriterRoles { clock: clock_start(), held: Vec::new() }
    }

    /// Drop the holds that have run out.
    fn drop_expired(&mut self, now: u128)
        ensures
            final(self)@ == live(old(self)@, now as nat),
            forall|i: int|
                0 <= i < final(self).held@.len() ==> (#[trigger] final(self).held@[i]).expires_at
                    > now,
    {
        proof {
            use_type_invariant(&*self);
            lemma_held_map(self.held@);
        }
        let ghost before = self.held@;
        let mut rest: Vec<Held> = Vec::new();
        std::mem::swap(&mut rest, &mut self.held);
        let mut kept: Vec<Held> = Vec::new();
        assert(rest@ + kept@ =~= rest@);
        assert(live(held_map(rest@), now as nat).union_prefer_right(held_map(kept@)) =~= live(
            held_map(before),
            now as nat,
        ));
        while rest.len() > 0
            invariant
                distinct(rest@ + kept@),
                forall|j: int| 0 <= j < kept@.len() ==> (#[trigger] kept@[j]).expires_at > now,
                live(held_map(rest@), now as nat).union_prefer_right(held_map(kept@)) == live(
                    held_map(before),
                    now as nat,
                ),
            decreases rest@.len(),
        {
            let ghost all = rest@;
            let ghost had = kept@;
            if let Some(entry) = rest.pop() {
                proof {
                    let n = all.len() - 1;
                    assert(all[n] == entry);
                    assert(rest@ =~= all.drop_last());
                    assert forall|i: int, j: int| 0 <= i < j < rest@.len() implies #[trigger]
                    rest@[i].workspace@ != #[trigger] rest@[j].workspace@ by {
                        assert((all + had)[i].workspace@ != (all + had)[j].workspace@);
                    }
                    lemma_held_map(rest@);
                    if held_map(rest@).contains_key(entry.workspace@) {
                        let i = choose|i: int|
                            0 <= i < rest@.len() && (#[trigger] rest@[i]).workspace@
                                == entry.workspace@;
                        assert((all + had)[i].workspace@ != (all + had)[n].workspace@);
                    }
                }
                if entry.expires_at > now {
                    kept.push(entry);
                    proof {
                        assert(kept@.drop_last() =~= had);
                        let n = all.len() - 1;
                        let m = had.len() as int;
                        let joined = rest@ + kept@;
                        let was = all + had;
                        let src = |i: int| -> int {
                            if i < n {
                                i
                            } else if i < n + m {
                                i + 1
                            } else {
                                n
                            }
                        };
                        assert forall|i: int| 0 <= i < joined.len() implies #[trigger] joined[i]
                            == was[src(i)] by {}
                        assert forall|i: int, j: int| 0 <= i < j < joined.len() implies #[trigger]
                        joined[i].workspace@ != #[trigger] joined[j].workspace@ by {
                            assert(joined[i] == was[src(i)] && joined[j] == was[src(j)]);
                            if src(i) < src(j) {
                                assert(was[src(i)].workspace@ != was[src(j)].workspace@);
                            } else {
                                assert(was[src(j)].workspace@ != was[src(i)].workspace@);
                            }
                        }
                        assert forall|i: int, j: int| 0 <= i < j < m implies #[trigger]
                        had[i].workspace@ != #[trigger] had[j].workspace@ by {
                            assert(was[n + 1 + i].workspace@ != was[n + 1 + j].workspace@);
                        }
                        lemma_held_map(had);
                        let w = all[n].workspace@;
                        if held_map(had).contains_key(w) {
                            let j = choose|j: int| 0 <= j < m && (#[trigger] had[j]).workspace@ == w;
                            assert(was[n].workspace@ != was[n + 1 + j].workspace@);
                        }
                        assert(live(held_map(rest@), now as nat).union_prefer_right(held_map(kept@))
                            =~= live(held_map(all), now as nat).union_prefer_right(held_map(had)));
                    }
                } else {
                    proof {
                        let joined = rest@ + kept@;
                        let was = all + had;
                        let n = all.len() - 1;
                        let src = |i: int| -> int {
                            if i < n {
                                i
                            } else {
                                i + 1
                            }
                        };
                        assert forall|i: int| 0 <= i < joined.len() implies #[trigger] joined[i]
                            == was[src(i)] by {}
                        assert forall|i: int, j: int| 0 <= i < j < joined.len() implies #[trigger]
                        joined[i].workspace@ != #[trigger] joined[j].workspace@ by {
                            assert(joined[i] == was[src(i)] && joined[j] == was[src(j)]);
                            assert(was[src(i)].workspace@ != was[src(j)].workspace@);
                        }
                        assert(live(held_map(rest@), now as nat) =~= live(
                            held_map(all),
                            now as nat,
                        ));
                    }
                }
            }
        }
        proof {
            assert(rest@ + kept@ =~= kept@);
            assert(live(held_map(rest@), now as nat).union_prefer_right(held_map(kept@)) =~= held_map(
                kept@,
            ));
        }
        self.held = kept;
    }

    /// Where a workspace stands in the table.
    fn position(&self, workspace_id: &str) -> (r: Option<usize>)
        ensures
            match r {
                Some(i) => i < self.held@.len() && self.held@[i as int].workspace@
                    == workspace_id@ && self@.contains_key(workspace_id@),
                None => !self@.contains_key(workspace_id@) && forall|i: int|
                    0 <= i < self.held@.len() ==> (#[trigger] self.held@[i]).workspace@
                        != workspace_id@,
            },
    {
        proof {
            use_type_invariant(self);
            lemma_held_map(self.held@);
        }
        let mut i: usize = 0;
        while i < self.held.len()
            invariant
                i <= self.held@.len(),
                forall|j: int| 0 <= j < i ==> (#[trigger] self.held@[j]).workspace@ != workspace_id@,
            decreases self.held@.len() - i,
        {
            if same_text(self.held[i].workspace.as_str(), workspace_id) {
                proof {
                    use_type_invariant(self);
                    lemma_held_map(self.held@);
                }
                assert(self@.contains_key(self.held@[i as int].workspace@));
                return Some(i);
            }
            i = i + 1;
        }
        None
    }

    /// Take the writer role for `workspace_id`, or keep it, at the moment `now`.
    ///
    /// The same holder asking again is a renewal and always succeeds: that is
    /// how a client keeps the role. A different holder succeeds only once the
    /// current hold has run out.
    pub fn claim_at(&mut self, workspace_id: &str, holder: &str, ttl: u128, now: u128) -> (r: Result<
        WriterRole,
        WriterConflict,
    >)
        requires
            now <= MAX_SPAN,
        ensures
            claim_answers(
                old(self)@,
                final(self)@,
                workspace_id@,
                holder@,
                ttl as nat,
                now as nat,
                r,
            ),
    {
        let ghost held = self@;
        let span: u128 = if ttl < MAX_WRITER_TTL {
            ttl
        } else {
            MAX_WRITER_TTL
        };
        self.drop_expired(now);
        proof {
            use_type_invariant(&*self);
            lemma_held_map(self.held@);
        }
        let at = self.position(workspace_id);
        let mut table: Vec<Held> = Vec::new();
        match at {
            Some(i) => {
                let ghost entry = self.held@[i as int];
                assert(self@[workspace_id@] == (Hold {
                    holder: entry.holder@,
                    expires_at: entry.expires_at as nat,
                }));
                assert(live(held, now as nat)[workspace_id@] == held[workspace_id@]);
                if !same_text(self.held[i].holder.as_str(), holder) {
                    return Err(
                        WriterConflict {
                            workspace_id: workspace_id.to_owned(),
                            holder: self.held[i].holder.clone(),
                            expires_in: self.held[i].expires_at - now,
                        },
                    );
                }
                std::mem::swap(&mut table, &mut self.held);
                let ghost was = table@;
                let fresh = Held {
                    workspace: workspace_id.to_owned(),
                    holder: holder.to_owned(),
                    expires_at: now + span,
                };
                table.set(i, fresh);
                proof {
                    assert forall|a: int, b: int| 0 <= a < b < table@.len() implies #[trigger]
                    table@[a].workspace@ != #[trigger] table@[b].workspace@ by {
                        assert(was[a].workspace@ != was[b].workspace@);
                    }
                    lemma_held_map(table@);
                    lemma_same_keys(was, table@, i as int);
                }
            },
            None => {
                std::mem::swap(&mut table, &mut self.held);
                let ghost was = table@;
                table.push(
                    Held {
                        workspace: workspace_id.to_owned(),
                        holder: holder.to_owned(),
                        expires_at: now + span,
                    },
                );
                proof {
                    assert(table@.drop_last() =~= was);
                    assert forall|a: int, b: int| 0 <= a < b < table@.len() implies #[trigger]
                    table@[a].workspace@ != #[trigger] table@[b].workspace@ by {
                        if b < was.len() {
                            assert(was[a].workspace@ != was[b].workspace@);
                        } else {
                            assert(was[a].workspace@ != workspace_id@);
                        }
                    }
                }
            },
        }
        self.held = table;
        Ok(
            WriterRole {
                workspace_id: workspace_id.to_owned(),
                holder: holder.to_owned(),
                expires_in: span,
            },
        )
    }

    /// Take the writer role for `workspace_id`, or keep it, now.
    pub fn claim(&mut self, workspace_id: &str, holder: &str, ttl: u128) -> (r: Result<
        WriterRole,
        WriterConflict,
    >)
        ensures
            exists|now: nat|
                now <= MAX_SPAN && #[trigger] claim_answers(
                    old(self)@,
                    final(self)@,
                    workspace_id@,
                    holder@,
                    ttl as nat,
                    now,
                    r,
                ),
    {
        let now: u128 = clock_reads(&self.clock);
        self.claim_at(workspace_id, holder, ttl, now)
    }

    /// Who holds the role at the moment `now`, if anybody does.
    pub fn current_at(&self, workspace_id: &str, now: u128) -> (r: Option<WriterRole>)
        ensures
            current_answers(self@, workspace_id@, now as nat, r),
    {
        proof {
            use_type_invariant(self);
            lemma_held_map(self.held@);
        }
        match self.position(workspace_id) {
            None => None,
            Some(i) => {
                let ghost entry = self.held@[i as int];
                assert(self@[entry.workspace@] == (Hold {
                    holder: entry.holder@,
                    expires_at: entry.expires_at as nat,
                }));
                if self.held[i].expires_at <= now {
                    return None;
                }
                Some(
                    WriterRole {
                        workspace_id: workspace_id.to_owned(),
                        holder: self.held[i].holder.clone(),
                        expires_in: self.held[i].expires_at - now,
                    },
                )
            },
        }
    }

    /// Who holds the role right now, if anybody does.
    pub fn current(&self, workspace_id: &str) -> (r: Option<WriterRole>)
        ensures
            exists|now: nat|
                now <= MAX_SPAN && #[trigger] current_answers(self@, workspace_id@, now, r),
    {
        let now: u128 = clock_reads(&self.clock);
        self.current_at(workspace_id, now)
    }
}

/// Replacing one entry of the table by another for the same workspace.
proof fn lemma_same_keys(before: Seq<Held>, after: Seq<Held>, i: int)
    requires
        distinct(before),
        distinct(after),
        0 <= i < before.len(),
        after.len() == before.len(),
        after[i].workspace@ == before[i].workspace@,
        forall|j: int| 0 <= j < before.len() && j != i ==> after[j] == before[j],
    ensures
        held_map(after) == held_map(before).insert(
            after[i].workspace@,
            Hold { holder: after[i].holder@, expires_at: after[i].expires_at as nat },
        ),
{
    lemma_held_map(before);
    lemma_held_map(after);
    let a = held_map(after);
    let b = held_map(before).insert(
        after[i].workspace@,
        Hold { holder: after[i].holder@, expires_at: after[i].expires_at as nat },
    );
    assert forall|w: Seq<char>| a.contains_key(w) <==> #[trigger] b.contains_key(w) by {
        if a.contains_key(w) {
            let j = choose|j: int| 0 <= j < after.len() && (#[trigger] after[j]).workspace@ == w;
            assert(before[j].workspace@ == w);
        }
        if b.contains_key(w) && w != after[i].workspace@ {
            let j = choose|j: int| 0 <= j < before.len() && (#[trigger] before[j]).workspace@ == w;
            assert(after[j].workspace@ == w);
        }
    }
    assert forall|w: Seq<char>| #[trigger] a.contains_key(w) implies a[w] == b[w] by {
        let j = choose|j: int| 0 <= j < after.len() && (#[trigger] after[j]).workspace@ == w;
        assert(before[j].workspace@ == w);
        if j != i {
            assert(after[j].workspace@ != after[i].workspace@) by {
                if j < i {
                    assert(after[j].workspace@ != after[i].workspace@);
                } else {
                    assert(after[i].workspace@ != after[j].workspace@);
                }
            }
        }
    }
    assert(a =~= b);
}

// ─── What the rule promises ───────────────────────────────────────────────────

/// The holder that got the role keeps it by asking again, at any later moment.
pub proof fn the_holder_always_renews(
    held: Map<Seq<char>, Hold>,
    workspace: Seq<char>,
    holder: Seq<char>,
    ttl: nat,
    now: nat,
    later: nat,
)
    requires
        grants(held, workspace, holder, now),
        now <= later,
    ensures
        grants(after_claim(held, workspace, holder, ttl, now), workspace, holder, later),
{
}

/// While a hold stands nobody else gets the role, and once it has run out
/// anybody does: at each moment a workspace has one writer at most.
pub proof fn one_writer_until_the_hold_runs_out(
    held: Map<Seq<char>, Hold>,
    workspace: Seq<char>,
    holder: Seq<char>,
    ttl: nat,
    now: nat,
    other: Seq<char>,
    later: nat,
)
    requires
        grants(held, workspace, holder, now),
        other != holder,
        now <= later,
    ensures
        grants(after_claim(held, workspace, holder, ttl, now), workspace, other, later) <==> later
            >= now + capped(ttl),
{
}

/// A refused claim changes nothing that anybody could see.
pub proof fn a_refusal_leaves_the_holds_alone(
    held: Map<Seq<char>, Hold>,
    workspace: Seq<char>,
    holder: Seq<char>,
    ttl: nat,
    now: nat,
    later: nat,
)
    requires
        !grants(held, workspace, holder, now),
        now <= later,
    ensures
        live(after_claim(held, workspace, holder, ttl, now), later) == live(held, later),
{
    assert(live(live(held, now), later) =~= live(held, later));
}

/// Claiming one workspace says nothing about another.
pub proof fn workspaces_do_not_meet(
    held: Map<Seq<char>, Hold>,
    workspace: Seq<char>,
    holder: Seq<char>,
    ttl: nat,
    now: nat,
    elsewhere: Seq<char>,
    other: Seq<char>,
    later: nat,
)
    requires
        elsewhere != workspace,
        now <= later,
    ensures
        grants(after_claim(held, workspace, holder, ttl, now), elsewhere, other, later) == grants(
            held,
            elsewhere,
            other,
            later,
        ),
{
    let after = after_claim(held, workspace, holder, ttl, now);
    assert(live(after, later).contains_key(elsewhere) == live(held, later).contains_key(elsewhere));
}

/// A claim that was granted is shown to whoever asks, with the holder that made it and
/// what is left of it, until it has run out; from then on nobody is.
pub proof fn a_claim_is_shown_until_it_runs_out(
    held: Map<Seq<char>, Hold>,
    workspace: Seq<char>,
    holder: Seq<char>,
    ttl: nat,
    now: nat,
    later: nat,
    r: Option<WriterRole>,
)
    requires
        grants(held, workspace, holder, now),
        now <= later,
        current_answers(
            after_claim(held, workspace, holder, ttl, now),
            workspace,
            later,
            r,
        ),
    ensures
        r is Some <==> later < now + capped(ttl),
        r matches Some(role) ==> role.workspace_id@ == workspace && role.holder@ == holder
            && role.expires_in == now + capped(ttl) - later,
{
    let after = after_claim(held, workspace, holder, ttl, now);
    assert(after[workspace] == (Hold { holder, expires_at: now + capped(ttl) }));
}

/// A claim is answered with the role for as long as was asked, but never for more than ten
/// minutes, or with who holds it and for how much longer.
pub proof fn a_claim_is_answered_with_who_writes(
    held: Map<Seq<char>, Hold>,
    after: Map<Seq<char>, Hold>,
    workspace: Seq<char>,
    holder: Seq<char>,
    ttl: nat,
    now: nat,
    r: Result<WriterRole, WriterConflict>,
)
    requires
        claim_answers(held, after, workspace, holder, ttl, now, r),
    ensures
        r is Err <==> held.contains_key(workspace) && held[workspace].expires_at > now
            && held[workspace].holder != holder,
        r matches Ok(role) ==> {
            &&& role.holder@ == holder
            &&& role.workspace_id@ == workspace
            &&& role.expires_in <= ttl
            &&& role.expires_in <= 600_000_000_000
            &&& role.expires_in == ttl || role.expires_in == 600_000_000_000
            &&& after.contains_key(workspace)
            &&& after[workspace].holder == holder
            &&& after[workspace].expires_at == now + role.expires_in
        },
        r matches Err(conflict) ==> {
            &&& conflict.holder@ == held[workspace].holder
            &&& conflict.workspace_id@ == workspace
            &&& now + conflict.expires_in == held[workspace].expires_at
            &&& after.contains_key(workspace) && after[workspace] == held[workspace]
        },
{
}

} // verus!
