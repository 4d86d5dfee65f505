//! The client's side of moving the heads: which version to start from, how often
//! to try again, and how long to wait in between.
//!
//! There is no lock on the client. The server's compare-and-swap decides, and a
//! publish that lost the race starts again from the version it was told.
use vstd::prelude::*;
use vstd::string::*;

use crate::heads::{
    refused_update, retired_ids, update_starts, MetadataModel, UpdateResult, UpdateStart,
};
use crate::order::same_bytes;
use crate::proto_convert::{decode_operation, operation_read};
use crate::text::{
    all_digits, decimal, decimal_is_digits, decimal_reads_back, is_digit, is_yes, models, parse_u64,
    parsed_u64, push_decimal, says_yes, trim, trimmed, CharClass,
};

verus! {

pub const CAS_MAX_ATTEMPTS: usize = 80;

pub const CAS_BACKOFF_BASE_MS: u64 = 2;

pub const CAS_BACKOFF_MAX_MS: u64 = 256;

pub const BENCH_DISABLE_OPTIMISTIC_VERSION_ENV: &'static str =
    "TANDEM_BENCH_DISABLE_OPTIMISTIC_OP_HEAD_VERSION_CACHE";

pub const VERSION_CACHE_FILE: &'static str = "heads_version_cache";

// ─── Backoff ──────────────────────────────────────────────────────────────────

/// A number drawn from an id, to spread the retries of different publishes.
pub open spec fn id_seed(id: Seq<u8>) -> u64
    decreases id.len(),
{
    if id.len() == 0 {
        0
    } else {
        id_seed(id.drop_last()).wrapping_mul(131).wrapping_add(id.last() as u64)
    }
}

/// The wait doubles with each attempt, from two milliseconds up to sixty-four.
pub open spec fn backoff_base(attempt: nat) -> nat {
    if attempt <= 1 {
        2
    } else if attempt == 2 {
        4
    } else if attempt == 3 {
        8
    } else if attempt == 4 {
        16
    } else if attempt == 5 {
        32
    } else {
        64
    }
}

/// The waits start at two milliseconds, double from each attempt to the next, and
/// stay at sixty-four once they got there.
pub proof fn waits_double(attempt: nat)
    ensures
        attempt <= 1 ==> backoff_base(attempt) == 2,
        1 <= attempt < 6 ==> backoff_base(attempt + 1) == 2 * backoff_base(attempt),
        attempt >= 6 ==> backoff_base(attempt) == 64,
{
}

/// How long to wait after `attempt`: the base and up to half of it on top.
pub open spec fn backoff(attempt: usize, new_id: Seq<u8>) -> nat {
    let base = backoff_base(attempt as nat);
    base + (id_seed(new_id).wrapping_add(attempt as u64) as nat) % (base / 2)
}

/// The seed of an id reads its bytes as the digits of a number to the base one hundred and
/// thirty-one, of which the low sixty-four bits stay. The wait after an attempt is the base and
/// what the seed and the attempt add up to, within half the base: so two attempts in a row
/// differ by one millisecond there, and different ids wait differently.
pub proof fn retries_are_spread(attempt: usize, id: Seq<u8>, byte: u8)
    ensures
        id_seed(Seq::empty()) == 0,
        id_seed(id.push(byte)) as int == (id_seed(id) * 131 + byte) % 0x1_0000_0000_0000_0000,
        backoff(attempt, id) >= backoff_base(attempt as nat),
        backoff(attempt, id) - backoff_base(attempt as nat) == ((id_seed(id) + attempt)
            % 0x1_0000_0000_0000_0000) % (backoff_base(attempt as nat) as int / 2),
{
    assert(id.push(byte).drop_last() =~= id);
    let product = id_seed(id).wrapping_mul(131);
    assert(product == (id_seed(id) * 131) % 0x1_0000_0000_0000_0000);
}

/// How many milliseconds to wait before the attempt that follows `attempt`.
pub fn cas_retry_backoff(attempt: usize, new_id: &[u8]) -> (millis: u64)
    ensures
        millis == backoff(attempt, new_id@),
        backoff_base(attempt as nat) <= millis < backoff_base(attempt as nat) + backoff_base(
            attempt as nat,
        ) / 2,
{
    let before: usize = attempt.saturating_sub(1);
    let shift: usize = if before < 5 {
        before
    } else {
        5
    };
    let exp_ms: u64 = if shift == 0 {
        CAS_BACKOFF_BASE_MS
    } else if shift == 1 {
        CAS_BACKOFF_BASE_MS * 2
    } else if shift == 2 {
        CAS_BACKOFF_BASE_MS * 4
    } else if shift == 3 {
        CAS_BACKOFF_BASE_MS * 8
    } else if shift == 4 {
        CAS_BACKOFF_BASE_MS * 16
    } else {
        CAS_BACKOFF_BASE_MS * 32
    };
    let base_ms: u64 = if exp_ms < CAS_BACKOFF_MAX_MS {
        exp_ms
    } else {
        CAS_BACKOFF_MAX_MS
    };
    let half: u64 = base_ms / 2;
    let jitter_window: u64 = if half > 1 {
        half
    } else {
        1
    };
    let mut seed: u64 = 0;
    let mut i: usize = 0;
    while i < new_id.len()
        invariant
            i <= new_id@.len(),
            seed == id_seed(new_id@.take(i as int)),
        decreases new_id@.len() - i,
    {
        assert(new_id@.take(i + 1).drop_last() =~= new_id@.take(i as int));
        seed = seed.wrapping_mul(131).wrapping_add(new_id[i] as u64);
        i = i + 1;
    }
    assert(new_id@.take(i as int) =~= new_id@);
    let jitter_ms: u64 = seed.wrapping_add(attempt as u64) % jitter_window;
    base_ms + jitter_ms
}

// ─── The version to start from ────────────────────────────────────────────────

/// Whether a publish may start from a remembered version, given what the
/// benchmark switch is set to.
pub fn optimistic_version_cache_enabled(switch: Option<&str>) -> (r: bool)
    ensures
        r == !(switch matches Some(value) && says_yes(value@)),
{
    match switch {
        Some(value) => !is_yes(value),
        None => true,
    }
}

/// The version that a cache file holds, if there is a file and it holds one.
pub fn load_cached_version(raw: Option<&str>) -> (r: Option<u64>)
    ensures
        r == (match raw {
            Some(text) => parsed_u64(trimmed(text@, CharClass::White)),
            None => None,
        }),
{
    match raw {
        Some(text) => {
            let word = trim(text, CharClass::White);
            parse_u64(word.as_str())
        },
        None => None,
    }
}

/// What the cache file is to hold.
pub fn persist_cached_version(version: u64) -> (text: String)
    ensures
        text@ == decimal(version as nat),
{
    let mut text = "".to_owned();
    push_decimal(&mut text, version);
    proof {
        reveal_strlit("");
        assert(text@ =~= decimal(version as nat));
    }
    text
}

/// A version that was persisted loads again.
pub proof fn a_cached_version_reads_back(version: u64)
    ensures
        parsed_u64(trimmed(decimal(version as nat), CharClass::White)) == Some(version),
{
    decimal_is_digits(version as nat);
    let text = decimal(version as nat);
    decimal_reads_back(version);
    lemma_digits_stay(text);
}

proof fn lemma_digits_stay(text: Seq<char>)
    requires
        text.len() > 0,
        all_digits(text),
    ensures
        trimmed(text, CharClass::White) == text,
{
    assert(is_digit(text[0]));
    assert(is_digit(text.last()));
}

/// The version a client last saw, in memory and, where publishes may start from
/// it, in a file.
#[derive(Debug, PartialEq, Eq)]
pub struct VersionCache {
    pub cached: Option<u64>,
    pub optimistic: bool,
}

/// What to do with the cache file.
#[derive(Debug, PartialEq, Eq)]
pub enum CacheFile {
    Keep,
    Write(String),
    Remove,
}

impl VersionCache {
    /// The cache a client starts with, given what its file holds.
    pub fn open(optimistic: bool, raw: Option<&str>) -> (r: VersionCache)
        ensures
            r.optimistic == optimistic,
            r.cached == (if optimistic {
                match raw {
                    Some(text) => parsed_u64(trimmed(text@, CharClass::White)),
                    None => None,
                }
            } else {
                None
            }),
    {
        if optimistic {
            VersionCache { cached: load_cached_version(raw), optimistic }
        } else {
            VersionCache { cached: None, optimistic }
        }
    }

    /// The version a publish may start from without asking the server, which
    /// saves the hot commit path one round trip.
    pub open spec fn start_of(self) -> Option<u64> {
        if self.optimistic {
            self.cached
        } else {
            None
        }
    }

    pub fn start(&self) -> (r: Option<u64>)
        ensures
            r == self.start_of(),
    {
        if self.optimistic {
            self.cached
        } else {
            None
        }
    }

    /// Remember the version the server is at.
    pub fn remember(&mut self, version: u64) -> (file: CacheFile)
        ensures
            final(self).optimistic == old(self).optimistic,
            final(self).cached == Some(version),
            match file {
                CacheFile::Keep => old(self).cached == Some(version) || !old(self).optimistic,
                CacheFile::Write(text) => old(self).cached != Some(version) && old(self).optimistic
                    && text@ == decimal(version as nat),
                CacheFile::Remove => false,
            },
    {
        let known = match self.cached {
            Some(cached) => cached == version,
            None => false,
        };
        if known {
            return CacheFile::Keep;
        }
        self.cached = Some(version);
        if self.optimistic {
            CacheFile::Write(persist_cached_version(version))
        } else {
            CacheFile::Keep
        }
    }

    /// Forget what was remembered.
    pub fn clear(&mut self) -> (file: CacheFile)
        ensures
            final(self).optimistic == old(self).optimistic,
            final(self).cached is None,
            match file {
                CacheFile::Keep => !old(self).optimistic,
                CacheFile::Remove => old(self).optimistic,
                CacheFile::Write(_) => false,
            },
    {
        self.cached = None;
        if self.optimistic {
            CacheFile::Remove
        } else {
            CacheFile::Keep
        }
    }
}

// ─── Publishing ───────────────────────────────────────────────────────────────

/// A publish on its way to the server: how many attempts were refused, and the
/// version the next one names.
#[derive(Debug, Clone, Copy, PartialEq, Eq, Structural)]
pub struct HeadUpdate {
    pub refused: usize,
    pub expected_version: u64,
}

/// What follows an answer of the server.
#[derive(Debug, Clone, Copy, PartialEq, Eq, Structural)]
pub enum UpdateStep {
    /// The heads moved.
    Done,
    /// Wait this many milliseconds and try again.
    Retry(u64),
    /// Too many attempts were refused.
    GiveUp,
}

impl HeadUpdate {
    /// A publish that starts from `version`.
    pub fn new(version: u64) -> (r: HeadUpdate)
        ensures
            r == (HeadUpdate { refused: 0, expected_version: version }),
    {
        HeadUpdate { refused: 0, expected_version: version }
    }

    /// What follows the answer `ok`, which came with `version`.
    pub open spec fn answer(self, ok: bool, version: u64, new_id: Seq<u8>) -> (
        HeadUpdate,
        UpdateStep,
    ) {
        if ok {
            (self, UpdateStep::Done)
        } else {
            let next = HeadUpdate {
                refused: (self.refused + 1) as usize,
                expected_version: version,
            };
            if self.refused + 1 >= CAS_MAX_ATTEMPTS {
                (next, UpdateStep::GiveUp)
            } else {
                (
                    next,
                    UpdateStep::Retry(backoff((self.refused + 1) as usize, new_id) as u64),
                )
            }
        }
    }

    /// The version the cache holds once the server answered: the new one where
    /// nobody was in the way, and nothing where somebody was.
    pub open spec fn remembers(self, step: UpdateStep, version: u64, cached: Option<u64>) -> Option<
        u64,
    > {
        match step {
            UpdateStep::Done => if self.refused > 0 {
                None
            } else {
                Some(version)
            },
            UpdateStep::Retry(_) => cached,
            UpdateStep::GiveUp => None,
        }
    }

    /// Take in the server's answer to an attempt.
    pub fn answered(&mut self, cache: &mut VersionCache, ok: bool, version: u64, new_id: &[u8]) -> (r: (
        UpdateStep,
        CacheFile,
    ))
        requires
            old(self).refused < CAS_MAX_ATTEMPTS,
        ensures
            (*final(self), r.0) == old(self).answer(ok, version, new_id@),
            final(cache).optimistic == old(cache).optimistic,
            final(cache).cached == old(self).remembers(r.0, version, old(cache).cached),
            r.0 is Retry ==> r.1 is Keep,
            r.0 is GiveUp ==> (r.1 is Remove <==> old(cache).optimistic) && !(r.1 is Write),
            r.0 is Done && old(self).refused > 0 ==> (r.1 is Remove <==> old(cache).optimistic)
                && !(r.1 is Write),
            r.0 is Done && old(self).refused == 0 ==> (r.1 is Write <==> old(cache).optimistic && old(
                cache,
            ).cached != Some(version)) && !(r.1 is Remove),
            r.1 matches CacheFile::Write(text) ==> text@ == decimal(version as nat),
    {
        if ok {
            let file = if self.refused > 0 {
                cache.clear()
            } else {
                cache.remember(version)
            };
            return (UpdateStep::Done, file);
        }
        self.refused = self.refused + 1;
        self.expected_version = version;
        if self.refused >= CAS_MAX_ATTEMPTS {
            let file = cache.clear();
            return (UpdateStep::GiveUp, file);
        }
        (UpdateStep::Retry(cas_retry_backoff(self.refused, new_id)), CacheFile::Keep)
    }
}

/// The sentence for a publish that was refused too often.
pub fn retry_limit_message() -> (s: String)
    ensures
        s@ == "CAS retry limit exceeded after "@ + decimal(CAS_MAX_ATTEMPTS as nat)
            + " attempts"@,
{
    let mut s = "CAS retry limit exceeded after ".to_owned();
    push_decimal(&mut s, CAS_MAX_ATTEMPTS as u64);
    s.append(" attempts");
    s
}

/// The version is remembered exactly where the heads moved at the first attempt; a publish
/// that was in a race forgets it once it is over, won or lost, and keeps what it had while
/// it goes on.
pub proof fn only_an_undisturbed_publish_is_remembered(
    update: HeadUpdate,
    ok: bool,
    version: u64,
    new_id: Seq<u8>,
    cached: Option<u64>,
)
    requires
        update.refused < CAS_MAX_ATTEMPTS,
    ensures
        ({
            let (after, step) = update.answer(ok, version, new_id);
            let kept = update.remembers(step, version, cached);
            &&& ok && update.refused == 0 ==> kept == Some(version)
            &&& ok && update.refused > 0 ==> kept is None
            &&& step is GiveUp ==> kept is None
            &&& step is Retry ==> kept == cached
            &&& ok ==> step is Done && after == update
            &&& !ok ==> after.refused == update.refused + 1 && after.expected_version == version
            &&& step is GiveUp <==> !ok && update.refused + 1 >= 80
        }),
{
}

/// A publish starts from what is remembered exactly where it may.
pub proof fn a_publish_starts_from_what_may_be_remembered(cache: VersionCache)
    ensures
        cache.optimistic ==> cache.start_of() == cache.cached,
        !cache.optimistic ==> cache.start_of() is None,
{
}

/// An answer of the server: whether the heads moved, and its version.
#[derive(Debug, PartialEq, Eq)]
pub struct ServerAnswer {
    pub ok: bool,
    pub version: u64,
}

/// A publish from `version` after the first `n` of the server's answers, and the
/// step that followed the last of them.
pub open spec fn update_after(
    version: u64,
    answers: Seq<ServerAnswer>,
    new_id: Seq<u8>,
    n: nat,
) -> (HeadUpdate, UpdateStep)
    decreases n,
{
    if n == 0 {
        (HeadUpdate { refused: 0, expected_version: version }, UpdateStep::Retry(0))
    } else {
        let (update, _) = update_after(version, answers, new_id, (n - 1) as nat);
        update.answer(answers[n - 1].ok, answers[n - 1].version, new_id)
    }
}

/// After each refusal the next attempt names the version that came with it. A
/// publish goes on until the first answer that is not a refusal, and gives up
/// after the last attempt it has.
pub proof fn a_publish_follows_the_server(
    version: u64,
    answers: Seq<ServerAnswer>,
    new_id: Seq<u8>,
    n: nat,
)
    requires
        0 < n <= answers.len(),
        n <= CAS_MAX_ATTEMPTS,
        forall|i: int| 0 <= i < n - 1 ==> !(#[trigger] answers[i]).ok,
    ensures
        ({
            let (update, step) = update_after(version, answers, new_id, n);
            &&& answers[n - 1].ok ==> step == UpdateStep::Done && update.refused == n - 1
            &&& !answers[n - 1].ok ==> update.refused == n && update.expected_version == answers[n
                - 1].version && (step == UpdateStep::GiveUp <==> n == CAS_MAX_ATTEMPTS) && (
            step is Retry <==> n < CAS_MAX_ATTEMPTS)
        }),
        n > 1 ==> update_after(version, answers, new_id, (n - 1) as nat).0.expected_version
            == answers[n - 2].version,
    decreases n,
{
    if n > 1 {
        a_publish_follows_the_server(version, answers, new_id, (n - 1) as nat);
    } else {
        reveal_with_fuel(update_after, 2);
    }
}

/// A publish that lost the race wins the next time, unless somebody else was faster
/// again: the refusal carries the version that the next attempt has to name.
pub proof fn a_retry_wins_unless_somebody_was_faster(
    update: HeadUpdate,
    metadata: MetadataModel,
    heads: Seq<Seq<char>>,
    old_ids: Seq<Seq<u8>>,
    new_id: Seq<u8>,
    refusal: UpdateResult,
    second: UpdateStart,
)
    requires
        update.expected_version != metadata.version,
        update_starts(
            UpdateStart::Refuse(refusal),
            metadata,
            heads,
            old_ids,
            new_id,
            update.expected_version,
        ),
        update_starts(
            second,
            metadata,
            heads,
            old_ids,
            new_id,
            update.answer(refusal.ok, refusal.version, new_id).0.expected_version,
        ),
    ensures
        second matches UpdateStart::Retire(ids) && models(ids@) == retired_ids(old_ids, new_id),
{
    assert(refusal@ == refused_update(metadata, heads));
}

// ─── The heads a workspace sees ───────────────────────────────────────────────

/// Whether the views of the two heads have to be compared.
pub open spec fn views_decide(heads: Seq<Seq<u8>>, workspace_head: Option<Seq<u8>>) -> bool {
    workspace_head matches Some(head) && heads.len() == 1 && heads[0] != head
}

/// The heads a workspace sees: the server's, and its own among them. During
/// workspace init there can be sibling operations that carry equivalent view
/// state. Letting jj resolve those heads can pick the global head and trip
/// sibling-operation checks before the first user command, so in that one case
/// the workspace's own operation stands for both.
pub open spec fn seen_heads(
    heads: Seq<Seq<u8>>,
    workspace_head: Option<Seq<u8>>,
    same_view: bool,
) -> Seq<Seq<u8>> {
    match workspace_head {
        Some(head) => if views_decide(heads, workspace_head) && same_view {
            seq![head]
        } else if heads.contains(head) {
            heads
        } else {
            heads.push(head)
        },
        None => heads,
    }
}

pub fn needs_views(heads: &Vec<Vec<u8>>, workspace_head: &Option<Vec<u8>>) -> (r: bool)
    ensures
        r == views_decide(
            models(heads@),
            match *workspace_head {
                Some(head) => Some(head@),
                None => None,
            },
        ),
{
    match workspace_head {
        Some(head) => {
            heads.len() == 1 && !same_bytes(heads[0].as_slice(), head.as_slice())
        },
        None => false,
    }
}

/// The id of the view of an operation, as its bytes say; nothing, where they are not
/// an operation's. What the id looks like is not asked.
pub fn operation_view_id(data: &[u8]) -> (r: Option<Vec<u8>>)
    ensures
        match operation_read(data@) {
            Some(form) => r matches Some(id) && id@ == form.view_id,
            None => r is None,
        },
{
    match decode_operation(data) {
        Ok(form) => Some(form.view_id),
        Err(_) => None,
    }
}

/// Whether two views were read and are the same.
pub fn same_views(global: &Option<Vec<u8>>, workspace: &Option<Vec<u8>>) -> (r: bool)
    ensures
        r == (global matches Some(a) && workspace matches Some(b) && a@ == b@),
        r ==> global is Some && workspace is Some,
{
    match (global, workspace) {
        (Some(a), Some(b)) => same_bytes(a.as_slice(), b.as_slice()),
        _ => false,
    }
}

pub fn heads_for_workspace(
    heads: Vec<Vec<u8>>,
    workspace_head: Option<Vec<u8>>,
    same_view: bool,
) -> (r: Vec<Vec<u8>>)
    ensures
        models(r@) == seen_heads(
            models(heads@),
            match workspace_head {
                Some(head) => Some(head@),
                None => None,
            },
            same_view,
        ),
        match workspace_head {
            Some(head) => {
                let stands_for_both = heads@.len() == 1 && heads@[0]@ != head@ && same_view;
                &&& models(r@).contains(head@)
                &&& forall|h: Seq<u8>| #[trigger]
                    models(r@).contains(h) <==> h == head@ || (models(heads@).contains(h)
                        && !stands_for_both)
            },
            None => r@ == heads@,
        },
{
    let ghost had = models(heads@);
    let ghost own: Option<Seq<u8>> = if workspace_head is Some {
        Some(workspace_head->0@)
    } else {
        None
    };
    proof {
        if own is Some {
            let head = own->0;
            assert(had.len() == 1 ==> had[0] == heads@[0]@);
            assert forall|h: Seq<u8>| #[trigger]
                seen_heads(had, Some(head), same_view).contains(h) <==> h == head || (had.contains(h)
                    && !(had.len() == 1 && had[0] != head && same_view)) by {
                a_workspace_sees_every_head(had, head, same_view, h);
            }
            a_workspace_sees_every_head(had, head, same_view, head);
        }
    }
    let decide = needs_views(&heads, &workspace_head);
    let mut ids = heads;
    match workspace_head {
        Some(head) => {
            if decide && same_view {
                let mut one: Vec<Vec<u8>> = Vec::new();
                one.push(head);
                assert(models(one@) =~= seq![head@]);
                return one;
            }
            let mut i: usize = 0;
            while i < ids.len()
                invariant
                    i <= ids@.len(),
                    had == models(ids@),
                    !(decide && same_view),
                    decide == views_decide(had, Some(head@)),
                    workspace_head == Some(head),
                    had == models(heads@),
                    forall|j: int| 0 <= j < i ==> (#[trigger] ids@[j])@ != head@,
                decreases ids@.len() - i,
            {
                if same_bytes(ids[i].as_slice(), head.as_slice()) {
                    assert(had[i as int] == head@);
                    return ids;
                }
                i = i + 1;
            }
            proof {
                if had.contains(head@) {
                    let j = choose|j: int| 0 <= j < had.len() && had[j] == head@;
                    assert(ids@[j]@ == head@);
                }
            }
            ids.push(head);
            assert(models(ids@) =~= had.push(head@));
            ids
        },
        None => ids,
    }
}

/// A workspace sees its own head and every head the server serves, and nothing else.
/// The one exception is a single head with the same view as the workspace's own: that
/// one it does not see.
pub proof fn a_workspace_sees_every_head(
    heads: Seq<Seq<u8>>,
    head: Seq<u8>,
    same_view: bool,
    h: Seq<u8>,
)
    ensures
        seen_heads(heads, Some(head), same_view).contains(h) <==> h == head || (heads.contains(h)
            && !(heads.len() == 1 && heads[0] != head && same_view)),
        heads.contains(h) && !(heads.len() == 1 && same_view) ==> seen_heads(
            heads,
            Some(head),
            same_view,
        ).contains(h),
        seen_heads(heads, None, same_view) == heads,
{
    let seen = seen_heads(heads, Some(head), same_view);
    if views_decide(heads, Some(head)) && same_view {
        assert(seen[0] == head);
    } else if !heads.contains(head) {
        assert(seen =~= heads.push(head));
        assert(seen[heads.len() as int] == head);
        if heads.contains(h) {
            let i = choose|i: int| 0 <= i < heads.len() && heads[i] == h;
            assert(seen[i] == h);
        }
        if seen.contains(h) && h != head {
            let i = choose|i: int| 0 <= i < seen.len() && seen[i] == h;
            assert(heads[i] == h);
        }
    }
}

/// The heads of the server keep their order and stand in front: a workspace that has
/// to add its own head adds it behind them, and one whose head is among them adds
/// nothing.
pub proof fn the_servers_heads_come_first(heads: Seq<Seq<u8>>, head: Seq<u8>, same_view: bool)
    requires
        !(heads.len() == 1 && same_view),
    ensures
        heads.is_prefix_of(seen_heads(heads, Some(head), same_view)),
        seen_heads(heads, Some(head), same_view).len() == heads.len() + if heads.contains(head) {
            0int
        } else {
            1
        },
{
    assert(heads.push(head).take(heads.len() as int) =~= heads);
}

/// A workspace's own operation is always among the heads it sees.
pub proof fn a_workspace_sees_its_own_head(
    heads: Seq<Seq<u8>>,
    head: Seq<u8>,
    same_view: bool,
)
    ensures
        seen_heads(heads, Some(head), same_view).contains(head),
{
    let seen = seen_heads(heads, Some(head), same_view);
    if views_decide(heads, Some(head)) && same_view {
        assert(seen[0] == head);
    } else if !heads.contains(head) {
        assert(seen[heads.len() as int] == head);
    }
}

} // verus!
