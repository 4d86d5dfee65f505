//! What must be true after every step of a run, whatever the schedule did.
//!
//! Each check takes what was observed of the server, its bucket and its agents, and
//! names the property that failed. All of them together are one function, so that a
//! run cannot pass by doing something nobody thought to check.
use vstd::prelude::*;
use vstd::string::*;

use crate::agent::{expected, Agent, Snapshot, WrittenFile, WrittenModel};
use crate::faults::bytes_view;
use crate::heads::HeadsMetadata;
use crate::hex::{from_hex, hex_text, hex_value, to_hex};
use crate::ids::{id_entries, ids_increase, lemma_id_entries, IdMap};
use crate::order::{
    bytes_less, copied, entries_map, keys_increase, lemma_entries_map, list_text, map_text,
    same_bytes, same_map, set_text, show_list, show_map, text_less, texts_increase, TextMap,
    TextSet,
};
use crate::text::{decimal, join, joined, models, push_decimal, same_text};
use crate::wal::{entry_read, IndexObject, WalEntry};
use crate::wire::HeadsBody;

verus! {

// ─── What the API says ────────────────────────────────────────────────────────

/// What the API says the head set is.
#[derive(Debug, PartialEq, Eq)]
pub struct ApiHeads {
    pub version: u64,
    pub heads: TextSet,
    pub workspace_heads: TextMap<String>,
}

/// What an answer of the API says.
pub fn api_heads(body: HeadsBody) -> (r: ApiHeads)
    ensures
        r.version == body.version,
        r.heads@ == models(body.heads@).to_set(),
        r.workspace_heads == body.workspace_heads,
{
    ApiHeads {
        version: body.version,
        heads: TextSet::from_list(&body.heads),
        workspace_heads: body.workspace_heads,
    }
}

// ─── Bytes in the log ─────────────────────────────────────────────────────────

/// Whether some stretch of `haystack` is `needle`, which is not empty.
pub open spec fn holds(haystack: Seq<u8>, needle: Seq<u8>) -> bool {
    needle.len() > 0 && exists|i: int|
        0 <= i <= haystack.len() - needle.len() && #[trigger] haystack.subrange(
            i,
            i + needle.len(),
        ) == needle
}

pub fn contains(haystack: &[u8], needle: &[u8]) -> (r: bool)
    ensures
        r == holds(haystack@, needle@),
{
    if needle.len() == 0 || needle.len() > haystack.len() {
        return false;
    }
    let total: usize = haystack.len();
    let last: usize = total - needle.len();
    let mut i: usize = 0;
    loop
        invariant
            i <= last,
            total == haystack@.len(),
            last == total - needle@.len(),
            needle@.len() > 0,
            forall|j: int|
                0 <= j < i ==> #[trigger] haystack@.subrange(j, j + needle@.len()) != needle@,
        decreases last - i,
    {
        let mut k: usize = 0;
        while k < needle.len() && haystack[i + k] == needle[k]
            invariant
                k <= needle@.len(),
                total == haystack@.len(),
                i + needle@.len() <= total,
                forall|j: int| 0 <= j < k ==> haystack@[i + j] == needle@[j],
            decreases needle@.len() - k,
        {
            k = k + 1;
        }
        if k == needle.len() {
            assert(haystack@.subrange(i as int, i + needle@.len()) =~= needle@);
            return true;
        }
        assert(haystack@.subrange(i as int, i + needle@.len())[k as int] != needle@[k as int]);
        if i == last {
            return false;
        }
        i = i + 1;
    }
}

pub open spec fn entry_names(entries: Seq<(String, Vec<u8>)>) -> Seq<Seq<char>> {
    Seq::new(entries.len(), |i: int| entries[i].0@)
}

/// Whether some entry of the log carries these bytes.
pub open spec fn is_durable(entries: Seq<(String, Vec<u8>)>, bytes: Seq<u8>) -> bool {
    exists|i: int| 0 <= i < entries.len() && holds(#[trigger] entries[i].1@, bytes)
}

/// Whether some entry of the log carries these bytes. The entries are given by
/// name, `None` where there is no log at all.
///
/// An object has no head of its own. One that was staged between two attempts of a
/// retried publish belongs to whichever publish comes next, and only the entries
/// show whether that one carried it.
pub fn assert_bytes_in_some_wal_entry(
    entries: &Option<Vec<(String, Vec<u8>)>>,
    bytes: &[u8],
    what: &str,
) -> (r: Result<(), String>)
    requires
        entries matches Some(list) ==> entry_names(list@).no_duplicates(),
    ensures
        match *entries {
            None => r matches Err(m) && m@ == what@
                + " is in no WAL entry: the bucket has no WAL directory at all"@,
            Some(list) => match r {
                Ok(_) => is_durable(list@, bytes@),
                Err(m) => !is_durable(list@, bytes@) && exists|names: Seq<Seq<char>>|
                    texts_increase(names) && names.to_set() == entry_names(
                        list@,
                    ).to_set() && m@ == #[trigger] not_durable(what@, bytes@.len(), list@.len(), names),
            },
        },
{
    let list = match entries {
        Some(list) => list,
        None => {
            let mut m = what.to_owned();
            m.append(" is in no WAL entry: the bucket has no WAL directory at all");
            return Err(m);
        },
    };
    let mut names: Vec<String> = Vec::new();
    let mut i: usize = 0;
    while i < list.len()
        invariant
            i <= list@.len(),
            *entries == Some(*list),
            names@.len() == i,
            forall|j: int| 0 <= j < i ==> (#[trigger] names@[j])@ == list@[j].0@,
            forall|j: int| 0 <= j < i ==> !holds(#[trigger] list@[j].1@, bytes@),
        decreases list@.len() - i,
    {
        if contains(list[i].1.as_slice(), bytes) {
            assert(holds(list@[i as int].1@, bytes@));
            return Ok(());
        }
        names.push(list[i].0.clone());
        i = i + 1;
    }
    assert(models(names@) =~= entry_names(list@));
    let sorted = TextSet::from_list(&names);
    let shown = sorted.texts();
    let mut m = what.to_owned();
    m.append(" (");
    push_decimal(&mut m, bytes.len() as u64);
    m.append(" bytes) is in none of the ");
    push_decimal(&mut m, list.len() as u64);
    m.append(" WAL entries, so it is durable nowhere: ");
    m.append(show_list(shown).as_str());
    assert(m@ == not_durable(what@, bytes@.len(), list@.len(), sorted.items()));
    Err(m)
}

pub open spec fn not_durable(
    what: Seq<char>,
    size: nat,
    entries: nat,
    names: Seq<Seq<char>>,
) -> Seq<char> {
    what + " ("@ + decimal(size) + " bytes) is in none of the "@ + decimal(entries)
        + " WAL entries, so it is durable nowhere: "@ + list_text(names)
}

// ─── Convergence ──────────────────────────────────────────────────────────────

/// How often the agents are read before they have to agree.
pub const ROUNDS: usize = 8;

pub open spec fn see_the_same(a: Snapshot, b: Snapshot) -> bool {
    a.view_heads@ == b.view_heads@ && a.working_copies@ == b.working_copies@
}

/// Whether all agents see the same view.
pub open spec fn agreed(snapshots: Seq<Snapshot>) -> bool {
    forall|i: int|
        0 <= i < snapshots.len() - 1 ==> see_the_same(#[trigger] snapshots[i], snapshots[i + 1])
}

/// What to do after a round of reads.
#[derive(Debug, PartialEq, Eq)]
pub enum Convergence {
    Agreed,
    ReadAgain,
    GaveUp(String),
}

pub open spec fn report_line(snapshot: Snapshot) -> Seq<char> {
    "  "@ + snapshot.name@ + ": heads "@ + set_text(snapshot.view_heads.items())
        + " working copies "@ + map_text(snapshot.working_copies.items())
}

pub open spec fn report_lines(snapshots: Seq<Snapshot>) -> Seq<Seq<char>> {
    Seq::new(snapshots.len(), |i: int| report_line(snapshots[i]))
}

pub fn is_agreed(snapshots: &Vec<Snapshot>) -> (r: bool)
    ensures
        r == agreed(snapshots@),
{
    if snapshots.len() == 0 {
        return true;
    }
    let mut i: usize = 0;
    while i < snapshots.len() - 1
        invariant
            0 < snapshots@.len(),
            i <= snapshots@.len() - 1,
            forall|j: int| 0 <= j < i ==> see_the_same(#[trigger] snapshots@[j], snapshots@[j + 1]),
        decreases snapshots@.len() - i,
    {
        let a = &snapshots[i];
        let b = &snapshots[i + 1];
        if !a.view_heads.same(&b.view_heads) || !same_map(&a.working_copies, &b.working_copies) {
            assert(!see_the_same(snapshots@[i as int], snapshots@[i + 1]));
            return false;
        }
        i = i + 1;
    }
    true
}

/// What to do after the round of reads that gave these pictures. A read is not
/// passive: loading a repository whose heads have diverged is how they are merged,
/// so agreement may take a few, but no more than a bounded number.
pub fn converge(round: usize, snapshots: &Vec<Snapshot>) -> (r: Convergence)
    requires
        round < ROUNDS,
    ensures
        match r {
            Convergence::Agreed => agreed(snapshots@),
            Convergence::ReadAgain => !agreed(snapshots@) && round + 1 < ROUNDS && round + 1 < 8,
            Convergence::GaveUp(m) => !agreed(snapshots@) && round + 1 == ROUNDS && m@
                == apart_message(snapshots@),
        },
{
    if is_agreed(snapshots) {
        return Convergence::Agreed;
    }
    if round + 1 < ROUNDS {
        return Convergence::ReadAgain;
    }
    Convergence::GaveUp(report(snapshots))
}

/// What is said of agents that do not see the same view, as often as they look.
pub open spec fn apart_message(snapshots: Seq<Snapshot>) -> Seq<char> {
    "agents did not converge after "@ + decimal(ROUNDS as nat) + " reads:\n"@ + joined(
        report_lines(snapshots),
        "\n"@,
    )
}

fn report(snapshots: &Vec<Snapshot>) -> (m: String)
    ensures
        m@ == apart_message(snapshots@),
{
    let mut lines: Vec<String> = Vec::new();
    let mut i: usize = 0;
    while i < snapshots.len()
        invariant
            i <= snapshots@.len(),
            lines@.len() == i,
            forall|j: int| 0 <= j < i ==> (#[trigger] lines@[j])@ == report_line(snapshots@[j]),
        decreases snapshots@.len() - i,
    {
        let mut line = "  ".to_owned();
        line.append(snapshots[i].name.as_str());
        line.append(": heads ");
        line.append(snapshots[i].view_heads.show().as_str());
        line.append(" working copies ");
        line.append(show_map(&snapshots[i].working_copies).as_str());
        lines.push(line);
        i = i + 1;
    }
    assert(models(lines@) =~= report_lines(snapshots@));
    let mut m = "agents did not converge after ".to_owned();
    push_decimal(&mut m, ROUNDS as u64);
    m.append(" reads:\n");
    m.append(join(&lines, "\n").as_str());
    m
}

/// Where all agents agree, any two of them do.
pub proof fn agreement_is_between_all(snapshots: Seq<Snapshot>, i: int, j: int)
    requires
        agreed(snapshots),
        0 <= i <= j < snapshots.len(),
    ensures
        see_the_same(snapshots[i], snapshots[j]),
    decreases j - i,
{
    if i < j {
        agreement_is_between_all(snapshots, i, j - 1);
        assert(see_the_same(snapshots[j - 1], snapshots[j - 1 + 1]));
    }
}

/// The agents agree exactly when any two of them see the same heads and the same working
/// copies.
pub proof fn agreement_is_the_same_picture_for_all(snapshots: Seq<Snapshot>)
    ensures
        agreed(snapshots) <==> forall|i: int, j: int|
            0 <= i <= j < snapshots.len() ==> (#[trigger] snapshots[i]).view_heads@ == (
            #[trigger] snapshots[j]).view_heads@ && snapshots[i].working_copies@
                == snapshots[j].working_copies@,
{
    if agreed(snapshots) {
        assert forall|i: int, j: int| 0 <= i <= j < snapshots.len() implies (
        #[trigger] snapshots[i]).view_heads@ == (#[trigger] snapshots[j]).view_heads@
            && snapshots[i].working_copies@ == snapshots[j].working_copies@ by {
            agreement_is_between_all(snapshots, i, j);
        }
    }
}

// ─── The checks ───────────────────────────────────────────────────────────────

/// The first agent that the converged view has no working copy for.
pub open spec fn copies_failure(agents: Seq<Agent>, first: Snapshot, n: nat) -> Option<Seq<char>>
    decreases n,
{
    if n == 0 {
        None
    } else {
        match copies_failure(agents, first, (n - 1) as nat) {
            Some(m) => Some(m),
            None => if first.working_copies@.contains_key(agents[n - 1].name@) {
                None
            } else {
                Some(
                    "the converged view has no working copy for "@ + agents[n - 1].name@ + ": "@
                        + map_text(first.working_copies.items()),
                )
            },
        }
    }
}

/// A workspace without a working-copy commit is one the shared view has forgotten.
pub open spec fn views_failure(agents: Seq<Agent>, snapshots: Seq<Snapshot>) -> Option<Seq<char>> {
    if snapshots.len() == 0 {
        None
    } else {
        copies_failure(agents, snapshots[0], agents.len())
    }
}

/// The API is a view of the op-heads store, not a record beside it.
pub open spec fn heads_failure(jj: TextSet, api: ApiHeads) -> Option<Seq<char>> {
    if jj@ == api.heads@ {
        None
    } else {
        Some(
            "the API head set and the server's jj op heads disagree:\n  jj:  "@ + set_text(
                jj.items(),
            ) + "\n  api: "@ + set_text(api.heads.items()),
        )
    }
}

/// A head has to name an operation that the server can load; `owner` holds it.
pub open spec fn head_failure(
    head: Seq<char>,
    owner: Seq<char>,
    stored: Set<Seq<char>>,
) -> Option<Seq<char>> {
    if hex_value(head) is Err {
        Some(owner + " holds head "@ + head + ", which is not hex"@)
    } else if !stored.contains(head) {
        Some(owner + " holds head "@ + head + ", which is not stored"@)
    } else {
        None
    }
}

pub open spec fn all_heads_failure(
    heads: Seq<Seq<char>>,
    owner: Seq<char>,
    stored: Set<Seq<char>>,
    n: nat,
) -> Option<Seq<char>>
    decreases n,
{
    if n == 0 {
        None
    } else {
        match all_heads_failure(heads, owner, stored, (n - 1) as nat) {
            Some(m) => Some(m),
            None => head_failure(heads[n - 1], owner, stored),
        }
    }
}

/// A head that the index names needs a log entry of its own, or nobody can replay
/// it.
pub open spec fn entry_failure(head: Seq<char>, entries: Map<Seq<char>, Seq<u8>>) -> Option<
    Seq<char>,
> {
    if !entries.contains_key(head) {
        Some("the index names head "@ + head + " but the bucket has no WAL entry for it"@)
    } else {
        match entry_read(entries[head]) {
            Err(_) => Some("the WAL entry for "@ + head + " does not decode"@),
            Ok(entry) => if hex_text(entry.op_id) == head {
                None
            } else {
                Some("the WAL entry at wal/"@ + head + " carries op id "@ + hex_text(entry.op_id))
            },
        }
    }
}

pub open spec fn entries_failure(
    heads: Seq<Seq<char>>,
    entries: Map<Seq<char>, Seq<u8>>,
    n: nat,
) -> Option<Seq<char>>
    decreases n,
{
    if n == 0 {
        None
    } else {
        match entries_failure(heads, entries, (n - 1) as nat) {
            Some(m) => Some(m),
            None => entry_failure(heads[n - 1], entries),
        }
    }
}

/// The local copy never claims to be ahead of the durable one. The other direction
/// is allowed: a crash between the two writes leaves it, and the next start
/// repairs it.
pub open spec fn sidecar_failure(
    sidecar: HeadsMetadata,
    index_version: u64,
    api: ApiHeads,
) -> Option<Seq<char>> {
    if sidecar.version > index_version {
        Some(
            "local version "@ + decimal(sidecar.version as nat) + " is ahead of index version "@
                + decimal(index_version as nat),
        )
    } else if sidecar.workspace_heads@ != api.workspace_heads@ {
        Some(
            "the sidecar and the API disagree about workspace heads:\n  sidecar: "@ + map_text(
                sidecar.workspace_heads.items(),
            ) + "\n  api:     "@ + map_text(api.workspace_heads.items()),
        )
    } else {
        None
    }
}

pub open spec fn agent_heads_failure(
    snapshots: Seq<Snapshot>,
    stored: Set<Seq<char>>,
    n: nat,
) -> Option<Seq<char>>
    decreases n,
{
    if n == 0 {
        None
    } else {
        match agent_heads_failure(snapshots, stored, (n - 1) as nat) {
            Some(m) => Some(m),
            None => {
                let heads = snapshots[n - 1].op_heads.items();
                all_heads_failure(heads, snapshots[n - 1].name@, stored, heads.len())
            },
        }
    }
}

/// One change, one commit, from an agent's point of view.
pub open spec fn change_failure(
    name: Seq<char>,
    changes: Seq<(String, TextSet)>,
    n: nat,
) -> Option<Seq<char>>
    decreases n,
{
    if n == 0 {
        None
    } else {
        match change_failure(name, changes, (n - 1) as nat) {
            Some(m) => Some(m),
            None => if changes[n - 1].1.items().len() > 1 {
                Some(
                    name + " sees change "@ + changes[n - 1].0@ + " on more than one commit: "@
                        + set_text(changes[n - 1].1.items()),
                )
            } else {
                None
            },
        }
    }
}

pub open spec fn changes_failure(snapshots: Seq<Snapshot>, n: nat) -> Option<Seq<char>>
    decreases n,
{
    if n == 0 {
        None
    } else {
        match changes_failure(snapshots, (n - 1) as nat) {
            Some(m) => Some(m),
            None => {
                let changes = snapshots[n - 1].changes.items();
                change_failure(snapshots[n - 1].name@, changes, changes.len())
            },
        }
    }
}

/// A file that one agent wrote and another reads.
#[derive(Debug, Clone, PartialEq, Eq)]
pub struct ReadTask {
    pub reader: String,
    pub writer: String,
    pub commit: Vec<u8>,
    pub path: String,
    pub bytes: Vec<u8>,
}

#[verifier::ext_equal]
pub struct ReadTaskModel {
    pub reader: Seq<char>,
    pub writer: Seq<char>,
    pub commit: Seq<u8>,
    pub path: Seq<char>,
    pub bytes: Seq<u8>,
}

impl View for ReadTask {
    type V = ReadTaskModel;

    open spec fn view(&self) -> ReadTaskModel {
        ReadTaskModel {
            reader: self.reader@,
            writer: self.writer@,
            commit: self.commit@,
            path: self.path@,
            bytes: self.bytes@,
        }
    }
}

/// Every byte that an agent wrote reads back.
pub open spec fn read_failure(task: ReadTaskModel, read: Option<Seq<u8>>) -> Option<Seq<char>> {
    match read {
        None => Some(
            task.reader + " cannot read "@ + task.path + " from "@ + hex_text(task.commit)
                + " (written by "@ + task.writer + ")"@,
        ),
        Some(bytes) => if bytes == task.bytes {
            None
        } else {
            Some(
                task.reader + " read "@ + decimal(bytes.len()) + " bytes of "@ + task.path
                    + " from "@ + hex_text(task.commit) + "; "@ + task.writer + " wrote "@
                    + decimal(task.bytes.len()) + " bytes"@,
            )
        },
    }
}

pub open spec fn reads_failure(
    tasks: Seq<ReadTask>,
    reads: Seq<Option<Vec<u8>>>,
    n: nat,
) -> Option<Seq<char>>
    decreases n,
{
    if n == 0 {
        None
    } else {
        match reads_failure(tasks, reads, (n - 1) as nat) {
            Some(m) => Some(m),
            None => read_failure(tasks[n - 1]@, bytes_view(reads[n - 1])),
        }
    }
}

/// Everything that was observed for one check.
#[derive(Debug, PartialEq, Eq)]
pub struct Observed {
    /// The agents' pictures, of the last round in which they were read.
    pub snapshots: Vec<Snapshot>,
    pub api: ApiHeads,
    /// The heads in the server's own store.
    pub jj_heads: TextSet,
    /// The heads that the server could load.
    pub stored: TextSet,
    pub index: Option<IndexObject>,
    /// The log entries that the bucket has, by head.
    pub entries: TextMap<Vec<u8>>,
    pub sidecar: Option<HeadsMetadata>,
    /// The reads that were to be made, as [`reads_to_make`] lists them, and what each
    /// gave.
    pub tasks: Vec<ReadTask>,
    pub reads: Vec<Option<Vec<u8>>>,
}

pub open spec fn index_failure(seen: Observed) -> Option<Seq<char>> {
    match seen.index {
        None => None,
        Some(index) => match entries_failure(
            models(index.op_heads@),
            seen.entries@,
            index.op_heads@.len(),
        ) {
            Some(m) => Some(m),
            None => match seen.sidecar {
                None => None,
                Some(sidecar) => sidecar_failure(sidecar, index.version, seen.api),
            },
        },
    }
}

pub open spec fn or_else(first: Option<Seq<char>>, second: Option<Seq<char>>) -> Option<Seq<char>> {
    match first {
        Some(m) => Some(m),
        None => second,
    }
}

/// All agents see the same view.
pub open spec fn agreement_failure(snapshots: Seq<Snapshot>) -> Option<Seq<char>> {
    if agreed(snapshots) {
        None
    } else {
        Some(apart_message(snapshots))
    }
}

/// The first property that what was observed breaks, by its message.
pub open spec fn failure(agents: Seq<Agent>, seen: Observed) -> Option<Seq<char>> {
    or_else(agreement_failure(seen.snapshots@), settled_failure(agents, seen))
}

/// The first property that is broken where the agents agree.
pub open spec fn settled_failure(agents: Seq<Agent>, seen: Observed) -> Option<Seq<char>> {
    let snapshots = seen.snapshots@;
    or_else(
        views_failure(agents, snapshots),
        or_else(
            heads_failure(seen.jj_heads, seen.api),
            or_else(
                all_heads_failure(
                    seen.api.heads.items(),
                    "the API"@,
                    seen.stored@,
                    seen.api.heads.items().len(),
                ),
                or_else(
                    index_failure(seen),
                    or_else(
                        agent_heads_failure(snapshots, seen.stored@, snapshots.len()),
                        or_else(
                            changes_failure(snapshots, snapshots.len()),
                            reads_failure(seen.tasks@, seen.reads@, seen.tasks@.len()),
                        ),
                    ),
                ),
            ),
        ),
    )
}

/// Whether a check found what it should: nothing, or the failure that is there.
pub open spec fn answers(r: Result<(), String>, failure: Option<Seq<char>>) -> bool {
    match r {
        Ok(_) => failure is None,
        Err(m) => failure == Some(m@),
    }
}

pub fn check_working_copies(agents: &Vec<Agent>, snapshots: &Vec<Snapshot>) -> (r: Result<
    (),
    String,
>)
    ensures
        answers(r, views_failure(agents@, snapshots@)),
{
    if snapshots.len() == 0 {
        return Ok(());
    }
    let first = &snapshots[0];
    let mut i: usize = 0;
    while i < agents.len()
        invariant
            i <= agents@.len(),
            0 < snapshots@.len(),
            *first == snapshots@[0],
            copies_failure(agents@, *first, i as nat) is None,
        decreases agents@.len() - i,
    {
        if !first.working_copies.contains_key(agents[i].name.as_str()) {
            let mut m = "the converged view has no working copy for ".to_owned();
            m.append(agents[i].name.as_str());
            m.append(": ");
            m.append(show_map(&first.working_copies).as_str());
            proof {
                lemma_copies_stay(agents@, *first, (i + 1) as nat, agents@.len());
            }
            return Err(m);
        }
        i = i + 1;
    }
    Ok(())
}

proof fn lemma_copies_stay(agents: Seq<Agent>, first: Snapshot, n: nat, total: nat)
    requires
        n <= total,
        copies_failure(agents, first, n) is Some,
    ensures
        copies_failure(agents, first, total) == copies_failure(agents, first, n),
    decreases total,
{
    if n < total {
        lemma_copies_stay(agents, first, n, (total - 1) as nat);
    }
}

pub fn check_op_heads(jj: &TextSet, api: &ApiHeads) -> (r: Result<(), String>)
    ensures
        answers(r, heads_failure(*jj, *api)),
{
    if jj.same(&api.heads) {
        return Ok(());
    }
    let mut m = "the API head set and the server's jj op heads disagree:\n  jj:  ".to_owned();
    m.append(jj.show().as_str());
    m.append("\n  api: ");
    m.append(api.heads.show().as_str());
    Err(m)
}

fn check_head(head: &str, owner: &str, stored: &TextSet) -> (r: Result<(), String>)
    ensures
        answers(r, head_failure(head@, owner@, stored@)),
{
    let readable = from_hex(head).is_ok();
    if readable && stored.contains(head) {
        return Ok(());
    }
    let mut m = owner.to_owned();
    m.append(" holds head ");
    m.append(head);
    if readable {
        m.append(", which is not stored");
    } else {
        m.append(", which is not hex");
    }
    Err(m)
}

/// Whether every head in a set names an operation that the server can load.
pub fn check_heads_stored(heads: &TextSet, owner: &str, stored: &TextSet) -> (r: Result<
    (),
    String,
>)
    ensures
        answers(r, all_heads_failure(heads.items(), owner@, stored@, heads.items().len())),
{
    let texts = heads.texts();
    let mut i: usize = 0;
    while i < texts.len()
        invariant
            i <= texts@.len(),
            models(texts@) == heads.items(),
            all_heads_failure(heads.items(), owner@, stored@, i as nat) is None,
        decreases texts@.len() - i,
    {
        assert(heads.items()[i as int] == texts@[i as int]@);
        match check_head(texts[i].as_str(), owner, stored) {
            Ok(_) => {},
            Err(m) => {
                proof {
                    lemma_heads_stay(
                        heads.items(),
                        owner@,
                        stored@,
                        (i + 1) as nat,
                        heads.items().len(),
                    );
                }
                return Err(m);
            },
        }
        i = i + 1;
    }
    Ok(())
}

proof fn lemma_heads_stay(
    heads: Seq<Seq<char>>,
    owner: Seq<char>,
    stored: Set<Seq<char>>,
    n: nat,
    total: nat,
)
    requires
        n <= total,
        all_heads_failure(heads, owner, stored, n) is Some,
    ensures
        all_heads_failure(heads, owner, stored, total) == all_heads_failure(
            heads,
            owner,
            stored,
            n,
        ),
    decreases total,
{
    if n < total {
        lemma_heads_stay(heads, owner, stored, n, (total - 1) as nat);
    }
}

fn check_entry(head: &str, entries: &TextMap<Vec<u8>>) -> (r: Result<(), String>)
    ensures
        answers(r, entry_failure(head@, entries@)),
{
    let bytes = match entries.get(head) {
        Some(bytes) => bytes,
        None => {
            let mut m = "the index names head ".to_owned();
            m.append(head);
            m.append(" but the bucket has no WAL entry for it");
            return Err(m);
        },
    };
    match WalEntry::decode(bytes.as_slice()) {
        Err(_) => {
            let mut m = "the WAL entry for ".to_owned();
            m.append(head);
            m.append(" does not decode");
            Err(m)
        },
        Ok(entry) => {
            let id = to_hex(entry.op_id.as_slice());
            if same_text(id.as_str(), head) {
                Ok(())
            } else {
                let mut m = "the WAL entry at wal/".to_owned();
                m.append(head);
                m.append(" carries op id ");
                m.append(id.as_str());
                Err(m)
            }
        },
    }
}

fn check_entries(heads: &Vec<String>, entries: &TextMap<Vec<u8>>) -> (r: Result<(), String>)
    ensures
        answers(r, entries_failure(models(heads@), entries@, heads@.len())),
{
    let ghost all = models(heads@);
    let mut i: usize = 0;
    while i < heads.len()
        invariant
            i <= heads@.len(),
            all == models(heads@),
            entries_failure(all, entries@, i as nat) is None,
        decreases heads@.len() - i,
    {
        assert(all[i as int] == heads@[i as int]@);
        match check_entry(heads[i].as_str(), entries) {
            Ok(_) => {},
            Err(m) => {
                proof {
                    lemma_entries_stay(all, entries@, (i + 1) as nat, all.len());
                }
                return Err(m);
            },
        }
        i = i + 1;
    }
    Ok(())
}

proof fn lemma_entries_stay(
    heads: Seq<Seq<char>>,
    entries: Map<Seq<char>, Seq<u8>>,
    n: nat,
    total: nat,
)
    requires
        n <= total,
        entries_failure(heads, entries, n) is Some,
    ensures
        entries_failure(heads, entries, total) == entries_failure(heads, entries, n),
    decreases total,
{
    if n < total {
        lemma_entries_stay(heads, entries, n, (total - 1) as nat);
    }
}

fn check_sidecar(sidecar: &HeadsMetadata, index_version: u64, api: &ApiHeads) -> (r: Result<
    (),
    String,
>)
    ensures
        answers(r, sidecar_failure(*sidecar, index_version, *api)),
{
    if sidecar.version > index_version {
        let mut m = "local version ".to_owned();
        push_decimal(&mut m, sidecar.version);
        m.append(" is ahead of index version ");
        push_decimal(&mut m, index_version);
        return Err(m);
    }
    if !same_map(&sidecar.workspace_heads, &api.workspace_heads) {
        let mut m =
            "the sidecar and the API disagree about workspace heads:\n  sidecar: ".to_owned();
        m.append(show_map(&sidecar.workspace_heads).as_str());
        m.append("\n  api:     ");
        m.append(show_map(&api.workspace_heads).as_str());
        return Err(m);
    }
    Ok(())
}

/// Whether the durable index, its log and the local copy fit together.
pub fn check_index(seen: &Observed) -> (r: Result<(), String>)
    ensures
        answers(r, index_failure(*seen)),
{
    match &seen.index {
        None => Ok(()),
        Some(index) => {
            match check_entries(&index.op_heads, &seen.entries) {
                Ok(_) => {},
                Err(m) => {
                    return Err(m);
                },
            }
            match &seen.sidecar {
                None => Ok(()),
                Some(sidecar) => check_sidecar(sidecar, index.version, &seen.api),
            }
        },
    }
}

/// Whether every head that an agent acts on names an operation that the server can
/// load.
pub fn check_agent_heads(snapshots: &Vec<Snapshot>, stored: &TextSet) -> (r: Result<(), String>)
    ensures
        answers(r, agent_heads_failure(snapshots@, stored@, snapshots@.len())),
{
    let mut i: usize = 0;
    while i < snapshots.len()
        invariant
            i <= snapshots@.len(),
            agent_heads_failure(snapshots@, stored@, i as nat) is None,
        decreases snapshots@.len() - i,
    {
        match check_heads_stored(&snapshots[i].op_heads, snapshots[i].name.as_str(), stored) {
            Ok(_) => {},
            Err(m) => {
                proof {
                    lemma_agent_heads_stay(snapshots@, stored@, (i + 1) as nat, snapshots@.len());
                }
                return Err(m);
            },
        }
        i = i + 1;
    }
    Ok(())
}

proof fn lemma_agent_heads_stay(
    snapshots: Seq<Snapshot>,
    stored: Set<Seq<char>>,
    n: nat,
    total: nat,
)
    requires
        n <= total,
        agent_heads_failure(snapshots, stored, n) is Some,
    ensures
        agent_heads_failure(snapshots, stored, total) == agent_heads_failure(snapshots, stored, n),
    decreases total,
{
    if n < total {
        lemma_agent_heads_stay(snapshots, stored, n, (total - 1) as nat);
    }
}

fn check_picture(snapshot: &Snapshot) -> (r: Result<(), String>)
    ensures
        answers(
            r,
            change_failure(
                snapshot.name@,
                snapshot.changes.items(),
                snapshot.changes.items().len(),
            ),
        ),
{
    let entries = snapshot.changes.entries();
    let mut i: usize = 0;
    while i < entries.len()
        invariant
            i <= entries@.len(),
            entries@ == snapshot.changes.items(),
            change_failure(snapshot.name@, entries@, i as nat) is None,
        decreases entries@.len() - i,
    {
        let commits = entries[i].1.texts();
        assert(commits@.len() == models(commits@).len());
        if commits.len() > 1 {
            let mut m = snapshot.name.clone();
            m.append(" sees change ");
            m.append(entries[i].0.as_str());
            m.append(" on more than one commit: ");
            m.append(entries[i].1.show().as_str());
            proof {
                lemma_change_stays(snapshot.name@, entries@, (i + 1) as nat, entries@.len());
            }
            return Err(m);
        }
        i = i + 1;
    }
    Ok(())
}

proof fn lemma_change_stays(
    name: Seq<char>,
    changes: Seq<(String, TextSet)>,
    n: nat,
    total: nat,
)
    requires
        n <= total,
        change_failure(name, changes, n) is Some,
    ensures
        change_failure(name, changes, total) == change_failure(name, changes, n),
    decreases total,
{
    if n < total {
        lemma_change_stays(name, changes, n, (total - 1) as nat);
    }
}

/// Whether every agent sees one commit for each change.
pub fn check_changes(snapshots: &Vec<Snapshot>) -> (r: Result<(), String>)
    ensures
        answers(r, changes_failure(snapshots@, snapshots@.len())),
{
    let mut i: usize = 0;
    while i < snapshots.len()
        invariant
            i <= snapshots@.len(),
            changes_failure(snapshots@, i as nat) is None,
        decreases snapshots@.len() - i,
    {
        match check_picture(&snapshots[i]) {
            Ok(_) => {},
            Err(m) => {
                proof {
                    lemma_changes_stay(snapshots@, (i + 1) as nat, snapshots@.len());
                }
                return Err(m);
            },
        }
        i = i + 1;
    }
    Ok(())
}

proof fn lemma_changes_stay(snapshots: Seq<Snapshot>, n: nat, total: nat)
    requires
        n <= total,
        changes_failure(snapshots, n) is Some,
    ensures
        changes_failure(snapshots, total) == changes_failure(snapshots, n),
    decreases total,
{
    if n < total {
        lemma_changes_stay(snapshots, n, (total - 1) as nat);
    }
}

/// Whether a read gave what was written.
pub fn check_read(task: &ReadTask, read: &Option<Vec<u8>>) -> (r: Result<(), String>)
    ensures
        answers(r, read_failure(task@, bytes_view(*read))),
{
    match read {
        None => {
            let mut m = task.reader.clone();
            m.append(" cannot read ");
            m.append(task.path.as_str());
            m.append(" from ");
            m.append(to_hex(task.commit.as_slice()).as_str());
            m.append(" (written by ");
            m.append(task.writer.as_str());
            m.append(")");
            Err(m)
        },
        Some(bytes) => {
            if same_bytes(bytes.as_slice(), task.bytes.as_slice()) {
                return Ok(());
            }
            let mut m = task.reader.clone();
            m.append(" read ");
            push_decimal(&mut m, bytes.len() as u64);
            m.append(" bytes of ");
            m.append(task.path.as_str());
            m.append(" from ");
            m.append(to_hex(task.commit.as_slice()).as_str());
            m.append("; ");
            m.append(task.writer.as_str());
            m.append(" wrote ");
            push_decimal(&mut m, task.bytes.len() as u64);
            m.append(" bytes");
            Err(m)
        },
    }
}

pub fn check_reads(tasks: &Vec<ReadTask>, reads: &Vec<Option<Vec<u8>>>) -> (r: Result<(), String>)
    requires
        tasks@.len() == reads@.len(),
    ensures
        answers(r, reads_failure(tasks@, reads@, tasks@.len())),
{
    let mut i: usize = 0;
    while i < tasks.len()
        invariant
            i <= tasks@.len() == reads@.len(),
            reads_failure(tasks@, reads@, i as nat) is None,
        decreases tasks@.len() - i,
    {
        match check_read(&tasks[i], &reads[i]) {
            Ok(_) => {},
            Err(m) => {
                proof {
                    lemma_reads_stay(tasks@, reads@, (i + 1) as nat, tasks@.len());
                }
                return Err(m);
            },
        }
        i = i + 1;
    }
    Ok(())
}

proof fn lemma_reads_stay(
    tasks: Seq<ReadTask>,
    reads: Seq<Option<Vec<u8>>>,
    n: nat,
    total: nat,
)
    requires
        n <= total,
        reads_failure(tasks, reads, n) is Some,
    ensures
        reads_failure(tasks, reads, total) == reads_failure(tasks, reads, n),
    decreases total,
{
    if n < total {
        lemma_reads_stay(tasks, reads, n, (total - 1) as nat);
    }
}

/// Check every property; the first that is broken is reported.
pub fn check_inner(agents: &Vec<Agent>, seen: &Observed) -> (r: Result<(), String>)
    requires
        is_reading_list(agents@, seen.snapshots@, models(seen.tasks@)),
        seen.tasks@.len() == seen.reads@.len(),
    ensures
        answers(r, failure(agents@, *seen)),
{
    if !is_agreed(&seen.snapshots) {
        return Err(report(&seen.snapshots));
    }
    match check_working_copies(agents, &seen.snapshots) {
        Ok(_) => {},
        Err(m) => {
            return Err(m);
        },
    }
    match check_op_heads(&seen.jj_heads, &seen.api) {
        Ok(_) => {},
        Err(m) => {
            return Err(m);
        },
    }
    match check_heads_stored(&seen.api.heads, "the API", &seen.stored) {
        Ok(_) => {},
        Err(m) => {
            return Err(m);
        },
    }
    match check_index(seen) {
        Ok(_) => {},
        Err(m) => {
            return Err(m);
        },
    }
    match check_agent_heads(&seen.snapshots, &seen.stored) {
        Ok(_) => {},
        Err(m) => {
            return Err(m);
        },
    }
    match check_changes(&seen.snapshots) {
        Ok(_) => {},
        Err(m) => {
            return Err(m);
        },
    }
    check_reads(&seen.tasks, &seen.reads)
}

/// What a failure is reported as: the step that led to it comes first.
pub fn check(agents: &Vec<Agent>, seen: &Observed, context: &str) -> (r: Result<
    (),
    (String, String),
>)
    requires
        is_reading_list(agents@, seen.snapshots@, models(seen.tasks@)),
        seen.tasks@.len() == seen.reads@.len(),
    ensures
        match r {
            Ok(_) => failure(agents@, *seen) is None,
            Err((step, m)) => step@ == "oracle failed after "@ + context@ && failure(agents@, *seen)
                == Some(m@),
        },
{
    match check_inner(agents, seen) {
        Ok(_) => Ok(()),
        Err(m) => {
            let mut step = "oracle failed after ".to_owned();
            step.append(context);
            Err((step, m))
        },
    }
}

// ─── What has to be read back ─────────────────────────────────────────────────

/// The order of files: commit by commit, path by path.
pub open spec fn file_less(a: WrittenModel, b: WrittenModel) -> bool {
    bytes_less(a.commit, b.commit) || a.commit == b.commit && text_less(a.path, b.path)
}

/// Whether a file is one of these, which are given by commit and path.
pub open spec fn is_file_of(
    commits: Map<Seq<u8>, Map<Seq<char>, Seq<u8>>>,
    file: WrittenModel,
) -> bool {
    &&& commits.contains_key(file.commit)
    &&& commits[file.commit].contains_key(file.path)
    &&& commits[file.commit][file.path] == file.bytes
}

/// Whether the list has each of the files once, in order.
pub open spec fn lists_files(
    commits: Map<Seq<u8>, Map<Seq<char>, Seq<u8>>>,
    files: Seq<WrittenModel>,
) -> bool {
    &&& forall|i: int, j: int|
        0 <= i < j < files.len() ==> file_less(#[trigger] files[i], #[trigger] files[j])
    &&& forall|i: int| 0 <= i < files.len() ==> is_file_of(commits, #[trigger] files[i])
    &&& forall|file: WrittenModel| #[trigger] is_file_of(commits, file) ==> files.contains(file)
}

/// One file is read by every agent.
pub open spec fn reads_of_file(writer: Seq<char>, file: WrittenModel, snapshots: Seq<Snapshot>) -> Seq<
    ReadTaskModel,
> {
    Seq::new(
        snapshots.len(),
        |i: int|
            ReadTaskModel {
                reader: snapshots[i].name@,
                writer,
                commit: file.commit,
                path: file.path,
                bytes: file.bytes,
            },
    )
}

/// The first `n` files are read by every agent.
pub open spec fn reads_of_files(
    writer: Seq<char>,
    files: Seq<WrittenModel>,
    snapshots: Seq<Snapshot>,
    n: nat,
) -> Seq<ReadTaskModel>
    decreases n,
{
    if n == 0 {
        Seq::empty()
    } else {
        reads_of_files(writer, files, snapshots, (n - 1) as nat) + reads_of_file(
            writer,
            files[n - 1],
            snapshots,
        )
    }
}

/// What the first `n` agents wrote, `files` by `files`, is read by every agent.
pub open spec fn reads_of_agents(
    agents: Seq<Agent>,
    files: Seq<Seq<WrittenModel>>,
    snapshots: Seq<Snapshot>,
    n: nat,
) -> Seq<ReadTaskModel>
    decreases n,
{
    if n == 0 {
        Seq::empty()
    } else {
        reads_of_agents(agents, files, snapshots, (n - 1) as nat) + reads_of_files(
            agents[n - 1].name@,
            files[n - 1],
            snapshots,
            files[n - 1].len(),
        )
    }
}

/// Whether `files` lists what each of the agents wrote.
pub open spec fn lists_all_files(agents: Seq<Agent>, files: Seq<Seq<WrittenModel>>) -> bool {
    &&& files.len() == agents.len()
    &&& forall|i: int|
        0 <= i < agents.len() ==> lists_files(
            expected(agents[i].written@, agents[i].written@.len()),
            #[trigger] files[i],
        )
}

/// Whether these are the reads of every file that any agent wrote by every agent:
/// agent by agent, commit by commit, path by path, reader by reader.
pub open spec fn is_reading_list(
    agents: Seq<Agent>,
    snapshots: Seq<Snapshot>,
    tasks: Seq<ReadTaskModel>,
) -> bool {
    exists|files: Seq<Seq<WrittenModel>>| #[trigger]
        lists_all_files(agents, files) && tasks == reads_of_agents(
            agents,
            files,
            snapshots,
            agents.len(),
        )
}

/// The files in order.
fn listed_files(commits: &IdMap<TextMap<Vec<u8>>>) -> (r: Vec<WrittenFile>)
    ensures
        lists_files(commits@, models(r@)),
{
    let list = commits.entries();
    let mut r: Vec<WrittenFile> = Vec::new();
    let mut c: usize = 0;
    while c < list.len()
        invariant
            c <= list@.len(),
            ids_increase(list@),
            is_listed_so_far(list@, models(r@), c as int),
        decreases list@.len() - c,
    {
        let ghost before = models(r@);
        let commit = &list[c].0;
        let files = list[c].1.entries();
        let mut f: usize = 0;
        assert(before + files_of_commit(commit@, files@, 0) =~= before);
        while f < files.len()
            invariant
                f <= files@.len(),
                models(r@) == before + files_of_commit(commit@, files@, f as int),
            decreases files@.len() - f,
        {
            let ghost had = r@;
            r.push(
                WrittenFile {
                    commit: copied(commit.as_slice()),
                    path: files[f].0.clone(),
                    bytes: copied(files[f].1.as_slice()),
                },
            );
            proof {
                assert(models(r@) =~= models(had).push(r@.last()@));
                assert(r@.last()@ =~= files_of_commit(commit@, files@, f + 1)[f as int]);
                assert(before + files_of_commit(commit@, files@, f + 1) =~= (before
                    + files_of_commit(commit@, files@, f as int)).push(r@.last()@));
            }
            f = f + 1;
        }
        proof {
            lemma_commit_listed(list@, before, c as int, files@);
        }
        c = c + 1;
    }
    proof {
        lemma_all_listed(list@, models(r@));
    }
    r
}

/// The first `n` files of a commit.
spec fn files_of_commit(commit: Seq<u8>, files: Seq<(String, Vec<u8>)>, n: int) -> Seq<
    WrittenModel,
> {
    Seq::new(
        n as nat,
        |i: int| WrittenModel { commit, path: files[i].0@, bytes: files[i].1@ },
    )
}

spec fn is_listed_so_far(
    list: Seq<(Vec<u8>, TextMap<Vec<u8>>)>,
    files: Seq<WrittenModel>,
    c: int,
) -> bool {
    &&& forall|i: int, j: int|
        0 <= i < j < files.len() ==> file_less(#[trigger] files[i], #[trigger] files[j])
    &&& forall|i: int| 0 <= i < files.len() ==> is_file_before(list, c, #[trigger] files[i])
    &&& forall|a: int, file: WrittenModel|
        0 <= a < c && #[trigger] is_file_at(list, a, file) ==> files.contains(file)
}

spec fn is_file_before(
    list: Seq<(Vec<u8>, TextMap<Vec<u8>>)>,
    c: int,
    file: WrittenModel,
) -> bool {
    exists|a: int| 0 <= a < c && is_file_at(list, a, file)
}

spec fn is_file_at(
    list: Seq<(Vec<u8>, TextMap<Vec<u8>>)>,
    a: int,
    file: WrittenModel,
) -> bool {
    &&& file.commit == list[a].0@
    &&& list[a].1@.contains_key(file.path)
    &&& list[a].1@[file.path] == file.bytes
}

proof fn lemma_commit_listed(
    list: Seq<(Vec<u8>, TextMap<Vec<u8>>)>,
    before: Seq<WrittenModel>,
    c: int,
    files: Seq<(String, Vec<u8>)>,
)
    requires
        0 <= c < list.len(),
        ids_increase(list),
        is_listed_so_far(list, before, c),
        keys_increase(files),
        list[c].1@ == entries_map(files),
    ensures
        is_listed_so_far(
            list,
            before + files_of_commit(list[c].0@, files, files.len() as int),
            c + 1,
        ),
{
    let commit = list[c].0@;
    let more = files_of_commit(commit, files, files.len() as int);
    let after = before + more;
    lemma_entries_map(files);
    assert forall|i: int, j: int| 0 <= i < j < after.len() implies file_less(
        #[trigger] after[i],
        #[trigger] after[j],
    ) by {
        if j < before.len() {
            assert(after[i] == before[i] && after[j] == before[j]);
        } else if i >= before.len() {
            let k = i - before.len();
            let l = j - before.len();
            assert(text_less(files[k].0@, files[l].0@));
        } else {
            assert(after[i] == before[i]);
            assert(is_file_before(list, c, before[i]));
            let a = choose|a: int| 0 <= a < c && is_file_at(list, a, before[i]);
            assert(bytes_less(list[a].0@, list[c].0@));
        }
    }
    assert forall|i: int| 0 <= i < after.len() implies is_file_before(
        list,
        c + 1,
        #[trigger] after[i],
    ) by {
        if i < before.len() {
            assert(after[i] == before[i]);
            assert(is_file_before(list, c, before[i]));
            let a = choose|a: int| 0 <= a < c && is_file_at(list, a, before[i]);
            assert(is_file_at(list, a, after[i]));
        } else {
            let k = i - before.len();
            assert(entries_map(files).contains_key(files[k].0@));
            assert(is_file_at(list, c, after[i]));
        }
    }
    assert forall|a: int, file: WrittenModel|
        0 <= a < c + 1 && #[trigger] is_file_at(list, a, file) implies after.contains(file) by {
        if a < c {
            let i = choose|i: int| 0 <= i < before.len() && before[i] == file;
            assert(after[i] == file);
        } else {
            let k = choose|k: int| 0 <= k < files.len() && #[trigger] files[k].0@ == file.path;
            assert(entries_map(files)[files[k].0@] == files[k].1@);
            assert(after[before.len() + k] =~= file);
        }
    }
}

proof fn lemma_all_listed(list: Seq<(Vec<u8>, TextMap<Vec<u8>>)>, files: Seq<WrittenModel>)
    requires
        ids_increase(list),
        is_listed_so_far(list, files, list.len() as int),
    ensures
        lists_files(id_entries(list), files),
{
    let commits = id_entries(list);
    lemma_id_entries(list);
    assert forall|i: int| 0 <= i < files.len() implies is_file_of(commits, #[trigger] files[i]) by {
        assert(is_file_before(list, list.len() as int, files[i]));
        let a = choose|a: int| 0 <= a < list.len() && is_file_at(list, a, files[i]);
        assert(commits.contains_key(list[a].0@));
    }
    assert forall|file: WrittenModel| #[trigger] is_file_of(commits, file) implies files.contains(
        file,
    ) by {
        let a = choose|a: int| 0 <= a < list.len() && #[trigger] list[a].0@ == file.commit;
        assert(commits[list[a].0@] == list[a].1@);
        assert(is_file_at(list, a, file));
    }
}

/// Every file that an agent wrote, to be read by every agent: commit by commit,
/// path by path.
pub fn reads_of(writer: &str, commits: &IdMap<TextMap<Vec<u8>>>, snapshots: &Vec<Snapshot>) -> (r:
    Vec<ReadTask>)
    ensures
        exists|files: Seq<WrittenModel>| #[trigger]
            lists_files(commits@, files) && models(r@) == reads_of_files(
                writer@,
                files,
                snapshots@,
                files.len(),
            ),
{
    let files = listed_files(commits);
    let mut r: Vec<ReadTask> = Vec::new();
    assert(models(r@) =~= Seq::<ReadTaskModel>::empty());
    let mut f: usize = 0;
    while f < files.len()
        invariant
            f <= files@.len(),
            models(r@) == reads_of_files(writer@, models(files@), snapshots@, f as nat),
        decreases files@.len() - f,
    {
        let ghost so_far = models(r@);
        let ghost one = reads_of_file(writer@, models(files@)[f as int], snapshots@);
        let mut s: usize = 0;
        assert(so_far + one.take(0) =~= so_far);
        while s < snapshots.len()
            invariant
                f < files@.len(),
                s <= snapshots@.len(),
                one == reads_of_file(writer@, models(files@)[f as int], snapshots@),
                models(r@) == so_far + one.take(s as int),
            decreases snapshots@.len() - s,
        {
            let ghost had = r@;
            r.push(
                ReadTask {
                    reader: snapshots[s].name.clone(),
                    writer: writer.to_owned(),
                    commit: copied(files[f].commit.as_slice()),
                    path: files[f].path.clone(),
                    bytes: copied(files[f].bytes.as_slice()),
                },
            );
            proof {
                assert(models(r@) =~= models(had).push(r@.last()@));
                assert(r@.last()@ =~= one[s as int]);
                assert(so_far + one.take(s + 1) =~= (so_far + one.take(s as int)).push(
                    one[s as int],
                ));
            }
            s = s + 1;
        }
        assert(one.take(s as int) =~= one);
        f = f + 1;
    }
    assert(lists_files(commits@, models(files@)));
    r
}

/// The reads that a check needs: every file that any agent wrote, by every agent.
pub fn reads_to_make(agents: &Vec<Agent>, snapshots: &Vec<Snapshot>) -> (r: Vec<ReadTask>)
    ensures
        is_reading_list(agents@, snapshots@, models(r@)),
{
    let mut r: Vec<ReadTask> = Vec::new();
    assert(models(r@) =~= Seq::<ReadTaskModel>::empty());
    let ghost mut files: Seq<Seq<WrittenModel>> = Seq::empty();
    let mut i: usize = 0;
    while i < agents.len()
        invariant
            i <= agents@.len(),
            files.len() == i,
            lists_all_files(agents@.take(i as int), files),
            models(r@) == reads_of_agents(agents@, files, snapshots@, i as nat),
        decreases agents@.len() - i,
    {
        let commits = agents[i].expected_files();
        let mut more = reads_of(agents[i].name.as_str(), &commits, snapshots);
        let ghost before = r@;
        let ghost added = more@;
        r.append(&mut more);
        proof {
            let own = choose|own: Seq<WrittenModel>| #[trigger]
                lists_files(commits@, own) && models(added) == reads_of_files(
                    agents@[i as int].name@,
                    own,
                    snapshots@,
                    own.len(),
                );
            assert(models(r@) =~= models(before) + models(added));
            let all = files.push(own);
            lemma_reads_so_far(agents@, files, all, snapshots@, i as nat);
            assert(lists_all_files(agents@.take(i + 1), all)) by {
                assert forall|k: int| 0 <= k < i + 1 implies lists_files(
                    expected(
                        agents@.take(i + 1)[k].written@,
                        agents@.take(i + 1)[k].written@.len(),
                    ),
                    #[trigger] all[k],
                ) by {
                    if k < i {
                        assert(agents@.take(i + 1)[k] == agents@.take(i as int)[k]);
                        assert(all[k] == files[k]);
                    }
                }
            }
            files = all;
        }
        i = i + 1;
    }
    assert(agents@.take(i as int) =~= agents@);
    r
}

proof fn lemma_reads_so_far(
    agents: Seq<Agent>,
    few: Seq<Seq<WrittenModel>>,
    many: Seq<Seq<WrittenModel>>,
    snapshots: Seq<Snapshot>,
    n: nat,
)
    requires
        n <= few.len() <= many.len(),
        forall|i: int| 0 <= i < few.len() ==> few[i] == #[trigger] many[i],
    ensures
        reads_of_agents(agents, few, snapshots, n) == reads_of_agents(agents, many, snapshots, n),
    decreases n,
{
    if n > 0 {
        lemma_reads_so_far(agents, few, many, snapshots, (n - 1) as nat);
        assert(few[n - 1] == many[n - 1]);
    }
}

proof fn lemma_file_is_read(
    writer: Seq<char>,
    files: Seq<WrittenModel>,
    snapshots: Seq<Snapshot>,
    n: nat,
    f: int,
    s: int,
)
    requires
        0 <= f < n <= files.len(),
        0 <= s < snapshots.len(),
    ensures
        reads_of_files(writer, files, snapshots, n).contains(
            reads_of_file(writer, files[f], snapshots)[s],
        ),
    decreases n,
{
    let before = reads_of_files(writer, files, snapshots, (n - 1) as nat);
    let last = reads_of_file(writer, files[n - 1], snapshots);
    if f < n - 1 {
        lemma_file_is_read(writer, files, snapshots, (n - 1) as nat, f, s);
        let task = reads_of_file(writer, files[f], snapshots)[s];
        let i = choose|i: int| 0 <= i < before.len() && before[i] == task;
        assert((before + last)[i] == task);
    } else {
        assert((before + last)[before.len() + s] == last[s]);
    }
}

proof fn lemma_agent_is_read(
    agents: Seq<Agent>,
    files: Seq<Seq<WrittenModel>>,
    snapshots: Seq<Snapshot>,
    n: nat,
    a: int,
    task: ReadTaskModel,
)
    requires
        0 <= a < n <= files.len(),
        reads_of_files(agents[a].name@, files[a], snapshots, files[a].len()).contains(task),
    ensures
        reads_of_agents(agents, files, snapshots, n).contains(task),
    decreases n,
{
    let before = reads_of_agents(agents, files, snapshots, (n - 1) as nat);
    let last = reads_of_files(
        agents[n - 1].name@,
        files[n - 1],
        snapshots,
        files[n - 1].len(),
    );
    if a < n - 1 {
        lemma_agent_is_read(agents, files, snapshots, (n - 1) as nat, a, task);
        let i = choose|i: int| 0 <= i < before.len() && before[i] == task;
        assert((before + last)[i] == task);
    } else {
        let i = choose|i: int| 0 <= i < last.len() && last[i] == task;
        assert((before + last)[before.len() + i] == task);
    }
}

/// The reading list leaves nothing out: every file that any agent wrote is read by
/// every agent.
pub proof fn nothing_is_left_unread(
    agents: Seq<Agent>,
    snapshots: Seq<Snapshot>,
    tasks: Seq<ReadTaskModel>,
    a: int,
    s: int,
    file: WrittenModel,
)
    requires
        is_reading_list(agents, snapshots, tasks),
        0 <= a < agents.len(),
        0 <= s < snapshots.len(),
        is_file_of(expected(agents[a].written@, agents[a].written@.len()), file),
    ensures
        tasks.contains(reads_of_file(agents[a].name@, file, snapshots)[s]),
{
    let files = choose|files: Seq<Seq<WrittenModel>>| #[trigger]
        lists_all_files(agents, files) && tasks == reads_of_agents(
            agents,
            files,
            snapshots,
            agents.len(),
        );
    assert(files[a].contains(file));
    let f = choose|f: int| 0 <= f < files[a].len() && files[a][f] == file;
    lemma_file_is_read(agents[a].name@, files[a], snapshots, files[a].len(), f, s);
    lemma_agent_is_read(
        agents,
        files,
        snapshots,
        agents.len(),
        a,
        reads_of_file(agents[a].name@, file, snapshots)[s],
    );
}

// ─── What a check that passes says ────────────────────────────────────────────

/// The state that a check is about: what every agent and every copy of the heads
/// has to agree on.
pub open spec fn sound(agents: Seq<Agent>, seen: Observed) -> bool {
    let snapshots = seen.snapshots@;
    // All agents see the same view, and none of them falls out of it.
    &&& agreed(snapshots)
    &&& snapshots.len() > 0 ==> forall|i: int|
        0 <= i < agents.len() ==> snapshots[0].working_copies@.contains_key(
            (#[trigger] agents[i]).name@,
        )
    // The API shows what the store has.
    &&& seen.jj_heads@ == seen.api.heads@
    // No head is a name with nothing behind it.
    &&& forall|i: int|
        0 <= i < seen.api.heads.items().len() ==> seen.stored@.contains(
            #[trigger] seen.api.heads.items()[i],
        )
    &&& forall|s: int, i: int|
        0 <= s < snapshots.len() && 0 <= i < snapshots[s].op_heads.items().len()
            ==> seen.stored@.contains(#[trigger] snapshots[s].op_heads.items()[i])
    // Every head in the index can be replayed, and the local copy is not ahead.
    &&& seen.index matches Some(index) ==> {
        &&& forall|i: int|
            0 <= i < index.op_heads@.len() ==> has_entry(
                (#[trigger] index.op_heads@[i])@,
                seen.entries@,
            )
        &&& seen.sidecar matches Some(sidecar) ==> sidecar.version <= index.version
            && sidecar.workspace_heads@ == seen.api.workspace_heads@
    }
    // One change, one commit.
    &&& forall|s: int, i: int|
        0 <= s < snapshots.len() && 0 <= i < snapshots[s].changes.items().len()
            ==> (#[trigger] snapshots[s].changes.items()[i]).1.items().len() <= 1
    // What any agent wrote reads back, from every agent.
    &&& forall|a: int, s: int, file: WrittenModel|
        0 <= a < agents.len() && 0 <= s < snapshots.len() && is_file_of(
            expected(agents[a].written@, agents[a].written@.len()),
            file,
        ) ==> #[trigger] was_read(seen, reads_of_file(agents[a].name@, file, snapshots)[s])
}

/// Whether a read was made, and gave the bytes that were written.
pub open spec fn was_read(seen: Observed, task: ReadTaskModel) -> bool {
    exists|i: int|
        0 <= i < seen.tasks@.len() && (#[trigger] seen.tasks@[i])@ == task && bytes_view(
            seen.reads@[i],
        ) == Some(task.bytes)
}

/// Whether the log has an entry for a head, and it is that head's.
pub open spec fn has_entry(head: Seq<char>, entries: Map<Seq<char>, Seq<u8>>) -> bool {
    entries.contains_key(head) && (entry_read(entries[head]) matches Ok(entry) && hex_text(
        entry.op_id,
    ) == head)
}

/// A check that passes means that the state is sound.
pub proof fn a_passing_state_is_sound(agents: Seq<Agent>, seen: Observed)
    requires
        is_reading_list(agents, seen.snapshots@, models(seen.tasks@)),
        failure(agents, seen) is None,
    ensures
        sound(agents, seen),
{
    let snapshots = seen.snapshots@;
    if snapshots.len() > 0 {
        assert forall|i: int| 0 <= i < agents.len() implies snapshots[0].working_copies@.contains_key(
            (#[trigger] agents[i]).name@,
        ) by {
            lemma_no_copy_failure(agents, snapshots[0], (i + 1) as nat, agents.len());
        }
    }
    let heads = seen.api.heads.items();
    assert forall|i: int| 0 <= i < heads.len() implies seen.stored@.contains(#[trigger] heads[i]) by {
        lemma_no_head_failure(heads, "the API"@, seen.stored@, (i + 1) as nat, heads.len());
    }
    assert forall|s: int, i: int|
        0 <= s < snapshots.len() && 0 <= i < snapshots[s].op_heads.items().len() implies
        seen.stored@.contains(#[trigger] snapshots[s].op_heads.items()[i]) by {
        lemma_no_agent_failure(snapshots, seen.stored@, (s + 1) as nat, snapshots.len());
        let held = snapshots[s].op_heads.items();
        lemma_no_head_failure(held, snapshots[s].name@, seen.stored@, (i + 1) as nat, held.len());
    }
    if seen.index is Some {
        let index = seen.index->0;
        let all = models(index.op_heads@);
        assert forall|i: int| 0 <= i < index.op_heads@.len() implies has_entry(
            (#[trigger] index.op_heads@[i])@,
            seen.entries@,
        ) by {
            assert(all[i] == index.op_heads@[i]@);
            lemma_no_entry_failure(all, seen.entries@, (i + 1) as nat, all.len());
        }
    }
    assert forall|s: int, i: int|
        0 <= s < snapshots.len() && 0 <= i < snapshots[s].changes.items().len() implies (
    #[trigger] snapshots[s].changes.items()[i]).1.items().len() <= 1 by {
        lemma_no_changes_failure(snapshots, (s + 1) as nat, snapshots.len());
        let changes = snapshots[s].changes.items();
        lemma_no_change_failure(snapshots[s].name@, changes, (i + 1) as nat, changes.len());
    }
    let tasks = models(seen.tasks@);
    assert forall|a: int, s: int, file: WrittenModel|
        0 <= a < agents.len() && 0 <= s < snapshots.len() && is_file_of(
            expected(agents[a].written@, agents[a].written@.len()),
            file,
        ) implies #[trigger] was_read(
        seen,
        reads_of_file(agents[a].name@, file, snapshots)[s],
    ) by {
        nothing_is_left_unread(agents, snapshots, tasks, a, s, file);
        let task = reads_of_file(agents[a].name@, file, snapshots)[s];
        let i = choose|i: int| 0 <= i < tasks.len() && tasks[i] == task;
        assert(seen.tasks@[i]@ == task);
        lemma_no_read_failure(seen.tasks@, seen.reads@, (i + 1) as nat, seen.tasks@.len());
    }
}

proof fn lemma_no_copy_failure(agents: Seq<Agent>, first: Snapshot, n: nat, total: nat)
    requires
        n <= total,
        copies_failure(agents, first, total) is None,
    ensures
        copies_failure(agents, first, n) is None,
    decreases total,
{
    if n < total {
        lemma_no_copy_failure(agents, first, n, (total - 1) as nat);
    }
}

proof fn lemma_no_head_failure(
    heads: Seq<Seq<char>>,
    owner: Seq<char>,
    stored: Set<Seq<char>>,
    n: nat,
    total: nat,
)
    requires
        n <= total,
        all_heads_failure(heads, owner, stored, total) is None,
    ensures
        all_heads_failure(heads, owner, stored, n) is None,
    decreases total,
{
    if n < total {
        lemma_no_head_failure(heads, owner, stored, n, (total - 1) as nat);
    }
}

proof fn lemma_no_agent_failure(
    snapshots: Seq<Snapshot>,
    stored: Set<Seq<char>>,
    n: nat,
    total: nat,
)
    requires
        n <= total,
        agent_heads_failure(snapshots, stored, total) is None,
    ensures
        agent_heads_failure(snapshots, stored, n) is None,
    decreases total,
{
    if n < total {
        lemma_no_agent_failure(snapshots, stored, n, (total - 1) as nat);
    }
}

proof fn lemma_no_entry_failure(
    heads: Seq<Seq<char>>,
    entries: Map<Seq<char>, Seq<u8>>,
    n: nat,
    total: nat,
)
    requires
        n <= total,
        entries_failure(heads, entries, total) is None,
    ensures
        entries_failure(heads, entries, n) is None,
    decreases total,
{
    if n < total {
        lemma_no_entry_failure(heads, entries, n, (total - 1) as nat);
    }
}

proof fn lemma_no_change_failure(
    name: Seq<char>,
    changes: Seq<(String, TextSet)>,
    n: nat,
    total: nat,
)
    requires
        n <= total,
        change_failure(name, changes, total) is None,
    ensures
        change_failure(name, changes, n) is None,
    decreases total,
{
    if n < total {
        lemma_no_change_failure(name, changes, n, (total - 1) as nat);
    }
}

proof fn lemma_no_changes_failure(snapshots: Seq<Snapshot>, n: nat, total: nat)
    requires
        n <= total,
        changes_failure(snapshots, total) is None,
    ensures
        changes_failure(snapshots, n) is None,
    decreases total,
{
    if n < total {
        lemma_no_changes_failure(snapshots, n, (total - 1) as nat);
    }
}

proof fn lemma_no_read_failure(
    tasks: Seq<ReadTask>,
    reads: Seq<Option<Vec<u8>>>,
    n: nat,
    total: nat,
)
    requires
        n <= total,
        reads_failure(tasks, reads, total) is None,
    ensures
        reads_failure(tasks, reads, n) is None,
    decreases total,
{
    if n < total {
        lemma_no_read_failure(tasks, reads, n, (total - 1) as nat);
    }
}

proof fn lemma_copies_exact(agents: Seq<Agent>, first: Snapshot, n: nat)
    requires
        n <= agents.len(),
    ensures
        copies_failure(agents, first, n) is None <==> forall|i: int|
            0 <= i < n ==> first.working_copies@.contains_key((#[trigger] agents[i]).name@),
    decreases n,
{
    if n > 0 {
        lemma_copies_exact(agents, first, (n - 1) as nat);
    }
}

proof fn lemma_heads_exact(
    heads: Seq<Seq<char>>,
    owner: Seq<char>,
    stored: Set<Seq<char>>,
    n: nat,
)
    requires
        n <= heads.len(),
    ensures
        all_heads_failure(heads, owner, stored, n) is None <==> forall|i: int|
            0 <= i < n ==> hex_value(#[trigger] heads[i]) is Ok && stored.contains(heads[i]),
    decreases n,
{
    if n > 0 {
        lemma_heads_exact(heads, owner, stored, (n - 1) as nat);
    }
}

proof fn lemma_entries_exact(heads: Seq<Seq<char>>, entries: Map<Seq<char>, Seq<u8>>, n: nat)
    requires
        n <= heads.len(),
    ensures
        entries_failure(heads, entries, n) is None <==> forall|i: int|
            0 <= i < n ==> entries.contains_key(#[trigger] heads[i]) && (entry_read(
                entries[heads[i]],
            ) matches Ok(entry) && hex_text(entry.op_id) == heads[i]),
    decreases n,
{
    if n > 0 {
        lemma_entries_exact(heads, entries, (n - 1) as nat);
    }
}

proof fn lemma_agent_heads_exact(snapshots: Seq<Snapshot>, stored: Set<Seq<char>>, n: nat)
    requires
        n <= snapshots.len(),
    ensures
        agent_heads_failure(snapshots, stored, n) is None <==> forall|s: int, i: int|
            0 <= s < n && 0 <= i < snapshots[s].op_heads.items().len() ==> hex_value(
                #[trigger] snapshots[s].op_heads.items()[i],
            ) is Ok && stored.contains(snapshots[s].op_heads.items()[i]),
    decreases n,
{
    if n > 0 {
        lemma_agent_heads_exact(snapshots, stored, (n - 1) as nat);
        let heads = snapshots[n - 1].op_heads.items();
        lemma_heads_exact(heads, snapshots[n - 1].name@, stored, heads.len());
    }
}

proof fn lemma_change_exact(name: Seq<char>, changes: Seq<(String, TextSet)>, n: nat)
    requires
        n <= changes.len(),
    ensures
        change_failure(name, changes, n) is None <==> forall|i: int|
            0 <= i < n ==> (#[trigger] changes[i]).1.items().len() <= 1,
    decreases n,
{
    if n > 0 {
        lemma_change_exact(name, changes, (n - 1) as nat);
    }
}

proof fn lemma_changes_exact(snapshots: Seq<Snapshot>, n: nat)
    requires
        n <= snapshots.len(),
    ensures
        changes_failure(snapshots, n) is None <==> forall|s: int, i: int|
            0 <= s < n && 0 <= i < snapshots[s].changes.items().len()
                ==> (#[trigger] snapshots[s].changes.items()[i]).1.items().len() <= 1,
    decreases n,
{
    if n > 0 {
        lemma_changes_exact(snapshots, (n - 1) as nat);
        let changes = snapshots[n - 1].changes.items();
        lemma_change_exact(snapshots[n - 1].name@, changes, changes.len());
    }
}

proof fn lemma_reads_exact(tasks: Seq<ReadTask>, reads: Seq<Option<Vec<u8>>>, n: nat)
    requires
        n <= tasks.len(),
    ensures
        reads_failure(tasks, reads, n) is None <==> forall|i: int|
            0 <= i < n ==> bytes_view(reads[i]) == Some((#[trigger] tasks[i]).bytes@),
    decreases n,
{
    if n > 0 {
        lemma_reads_exact(tasks, reads, (n - 1) as nat);
        assert(tasks[n - 1]@.bytes == tasks[n - 1].bytes@);
    }
}

/// Each check passes exactly when what it is about holds: the working copies, the heads of
/// the API and of the agents, the index with its log and the local copy beside it, one
/// commit for each change, and every read.
pub proof fn each_check_passes_exactly_when_it_holds(agents: Seq<Agent>, seen: Observed)
    ensures
        views_failure(agents, seen.snapshots@) is None <==> (seen.snapshots@.len() > 0 ==> forall|
            i: int,
        |
            0 <= i < agents.len() ==> seen.snapshots@[0].working_copies@.contains_key(
                (#[trigger] agents[i]).name@,
            )),
        heads_failure(seen.jj_heads, seen.api) is None <==> seen.jj_heads@ == seen.api.heads@,
        all_heads_failure(
            seen.api.heads.items(),
            "the API"@,
            seen.stored@,
            seen.api.heads.items().len(),
        ) is None <==> forall|i: int|
            0 <= i < seen.api.heads.items().len() ==> hex_value(
                #[trigger] seen.api.heads.items()[i],
            ) is Ok && seen.stored@.contains(seen.api.heads.items()[i]),
        index_failure(seen) is None <==> (seen.index matches Some(index) ==> {
            &&& forall|i: int|
                0 <= i < index.op_heads@.len() ==> seen.entries@.contains_key(
                    (#[trigger] index.op_heads@[i])@,
                ) && (entry_read(seen.entries@[index.op_heads@[i]@]) matches Ok(entry) && hex_text(
                    entry.op_id,
                ) == index.op_heads@[i]@)
            &&& seen.sidecar matches Some(sidecar) ==> sidecar.version <= index.version
                && sidecar.workspace_heads@ == seen.api.workspace_heads@
        }),
        agent_heads_failure(seen.snapshots@, seen.stored@, seen.snapshots@.len()) is None
            <==> forall|s: int, i: int|
            0 <= s < seen.snapshots@.len() && 0 <= i < seen.snapshots@[s].op_heads.items().len()
                ==> hex_value(#[trigger] seen.snapshots@[s].op_heads.items()[i]) is Ok
                && seen.stored@.contains(seen.snapshots@[s].op_heads.items()[i]),
        changes_failure(seen.snapshots@, seen.snapshots@.len()) is None <==> forall|s: int, i: int|
            0 <= s < seen.snapshots@.len() && 0 <= i < seen.snapshots@[s].changes.items().len()
                ==> (#[trigger] seen.snapshots@[s].changes.items()[i]).1.items().len() <= 1,
        reads_failure(seen.tasks@, seen.reads@, seen.tasks@.len()) is None <==> forall|i: int|
            0 <= i < seen.tasks@.len() ==> bytes_view(seen.reads@[i]) == Some(
                (#[trigger] seen.tasks@[i]).bytes@,
            ),
{
    let snapshots = seen.snapshots@;
    if snapshots.len() > 0 {
        lemma_copies_exact(agents, snapshots[0], agents.len());
    }
    let heads = seen.api.heads.items();
    lemma_heads_exact(heads, "the API"@, seen.stored@, heads.len());
    match seen.index {
        Some(index) => {
            let named = models(index.op_heads@);
            lemma_entries_exact(named, seen.entries@, named.len());
            assert(forall|i: int|
                0 <= i < named.len() ==> #[trigger] named[i] == index.op_heads@[i]@);
            if entries_failure(named, seen.entries@, named.len()) is None {
                assert forall|i: int| 0 <= i < index.op_heads@.len() implies seen.entries@.contains_key(
                    (#[trigger] index.op_heads@[i])@,
                ) && (entry_read(seen.entries@[index.op_heads@[i]@]) matches Ok(entry) && hex_text(
                    entry.op_id,
                ) == index.op_heads@[i]@) by {
                    assert(seen.entries@.contains_key(named[i]));
                }
            }
        },
        None => {},
    }
    lemma_agent_heads_exact(snapshots, seen.stored@, snapshots.len());
    lemma_changes_exact(snapshots, snapshots.len());
    lemma_reads_exact(seen.tasks@, seen.reads@, seen.tasks@.len());
}

/// Nothing is reported exactly when the agents agree and every check passes, and what is
/// reported is what one of them found.
pub proof fn nothing_is_reported_exactly_when_every_check_passes(
    agents: Seq<Agent>,
    seen: Observed,
)
    ensures
        failure(agents, seen) is None <==> {
            &&& agreed(seen.snapshots@)
            &&& views_failure(agents, seen.snapshots@) is None
            &&& heads_failure(seen.jj_heads, seen.api) is None
            &&& all_heads_failure(
                seen.api.heads.items(),
                "the API"@,
                seen.stored@,
                seen.api.heads.items().len(),
            ) is None
            &&& index_failure(seen) is None
            &&& agent_heads_failure(seen.snapshots@, seen.stored@, seen.snapshots@.len()) is None
            &&& changes_failure(seen.snapshots@, seen.snapshots@.len()) is None
            &&& reads_failure(seen.tasks@, seen.reads@, seen.tasks@.len()) is None
        },
{
}

} // verus!
