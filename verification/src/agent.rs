//! What an agent that drives a workspace keeps account of, and the picture it
//! takes of the repository.
use vstd::prelude::*;
use vstd::string::*;

use crate::heads::op_heads_in_order;
use crate::hex::{
    hex_reads_back, hex_text, hex_text_is_injective, hex_texts, hex_value, to_hex, to_hex_all, HexError,
};
use crate::ids::IdMap;
use crate::order::{
    copied, entries_map, lemma_pushed, same_bytes, texts_ascend, TextMap, TextSet,
};
use crate::proto_convert::{TreeValue, TreeValueModel};
use crate::reach::{
    a_finished_walk_has_seen_everything, a_step_loses_nothing, a_step_stays_below_the_heads,
    a_walk_starts_at_the_heads, a_walk_starts_whole, all_below, below, next_of, reaches, whole,
    ReachWalk,
};
use crate::text::models;
use crate::views::RepoView;

verus! {

// ─── What was written ─────────────────────────────────────────────────────────

/// A file that an agent has written, and the commit it wrote it in.
#[derive(Debug, Clone, PartialEq, Eq)]
pub struct WrittenFile {
    pub commit: Vec<u8>,
    pub path: String,
    pub bytes: Vec<u8>,
}

#[verifier::ext_equal]
pub struct WrittenModel {
    pub commit: Seq<u8>,
    pub path: Seq<char>,
    pub bytes: Seq<u8>,
}

impl View for WrittenFile {
    type V = WrittenModel;

    open spec fn view(&self) -> WrittenModel {
        WrittenModel { commit: self.commit@, path: self.path@, bytes: self.bytes@ }
    }
}

/// An agent, by what it has written.
#[derive(Debug, Clone, PartialEq, Eq)]
pub struct Agent {
    pub name: String,
    pub written: Vec<WrittenFile>,
}

/// The files of a commit, none where it has none.
pub open spec fn files_in(
    files: Map<Seq<u8>, Map<Seq<char>, Seq<u8>>>,
    commit: Seq<u8>,
) -> Map<Seq<char>, Seq<u8>> {
    if files.contains_key(commit) {
        files[commit]
    } else {
        Map::empty()
    }
}

/// What the first `n` files come to: for each commit its files by path, the later
/// of two at one path.
pub open spec fn expected(written: Seq<WrittenFile>, n: nat) -> Map<
    Seq<u8>,
    Map<Seq<char>, Seq<u8>>,
>
    decreases n,
{
    if n == 0 {
        Map::empty()
    } else {
        let before = expected(written, (n - 1) as nat);
        let file = written[n - 1]@;
        before.insert(file.commit, files_in(before, file.commit).insert(file.path, file.bytes))
    }
}

/// A commit is expected to have a file at a path exactly when one was written there, and
/// it is the one that was written last.
pub proof fn the_last_file_at_a_path_is_expected(
    written: Seq<WrittenFile>,
    n: nat,
    commit: Seq<u8>,
    path: Seq<char>,
)
    requires
        n <= written.len(),
    ensures
        files_in(expected(written, n), commit).contains_key(path) <==> exists|i: int|
            0 <= i < n && (#[trigger] written[i]).commit@ == commit && written[i].path@ == path,
        forall|i: int|
            0 <= i < n && (#[trigger] written[i]).commit@ == commit && written[i].path@ == path && (
            forall|j: int|
                i < j < n ==> (#[trigger] written[j]).commit@ != commit || written[j].path@ != path)
                ==> files_in(expected(written, n), commit)[path] == written[i].bytes@,
        expected(written, n).contains_key(commit) <==> exists|i: int|
            0 <= i < n && (#[trigger] written[i]).commit@ == commit,
    decreases n,
{
    if n > 0 {
        the_last_file_at_a_path_is_expected(written, (n - 1) as nat, commit, path);
        let before = expected(written, (n - 1) as nat);
        let after = expected(written, n);
        let file = written[n - 1]@;
        if file.commit == commit {
            assert(after.contains_key(commit));
            assert(after[commit] == files_in(before, commit).insert(file.path, file.bytes));
            if file.path == path {
                assert(written[n - 1].commit@ == commit && written[n - 1].path@ == path);
            }
        } else {
            assert(files_in(after, commit) == files_in(before, commit));
        }
        if files_in(before, commit).contains_key(path) {
            let i = choose|i: int|
                0 <= i < n - 1 && (#[trigger] written[i]).commit@ == commit && written[i].path@
                    == path;
            assert(written[i].commit@ == commit);
        }
        if before.contains_key(commit) {
            let i = choose|i: int| 0 <= i < n - 1 && (#[trigger] written[i]).commit@ == commit;
            assert(written[i].commit@ == commit);
        }
    }
}

/// The file, in the commit it is in once one commit was rewritten as another.
pub open spec fn moved(file: WrittenModel, from: Seq<u8>, to: Seq<u8>) -> WrittenModel {
    if file.commit == from {
        WrittenModel { commit: to, ..file }
    } else {
        file
    }
}

impl Agent {
    /// An agent that has written nothing.
    pub fn new(name: &str) -> (r: Self)
        ensures
            r.name@ == name@,
            r.written@.len() == 0,
    {
        Agent { name: name.to_owned(), written: Vec::new() }
    }

    /// Every commit this agent believes it wrote, with its files.
    pub fn expected_files(&self) -> (r: IdMap<TextMap<Vec<u8>>>)
        ensures
            r@ == expected(self.written@, self.written@.len()),
    {
        let mut r: IdMap<TextMap<Vec<u8>>> = IdMap::new();
        let mut i: usize = 0;
        while i < self.written.len()
            invariant
                i <= self.written@.len(),
                r@ == expected(self.written@, i as nat),
            decreases self.written@.len() - i,
        {
            let ghost before = r@;
            let file = &self.written[i];
            let mut files = match r.remove(file.commit.as_slice()) {
                Some(files) => files,
                None => TextMap::new(),
            };
            assert(files@ == files_in(before, file.commit@));
            files.insert(file.path.as_str(), copied(file.bytes.as_slice()));
            r.insert(file.commit.as_slice(), files);
            assert(r@ =~= expected(self.written@, (i + 1) as nat));
            i = i + 1;
        }
        r
    }

    /// Take note of the files of a commit that was published.
    pub fn wrote(&mut self, commit: &[u8], files: &Vec<(String, Vec<u8>)>)
        ensures
            final(self).name == old(self).name,
            final(self).written@.len() == old(self).written@.len() + files@.len(),
            final(self).written@.take(old(self).written@.len() as int) == old(self).written@,
            forall|i: int|
                0 <= i < files@.len() ==> (#[trigger] final(self).written@[old(
                    self,
                ).written@.len() + i])@ == (WrittenModel {
                    commit: commit@,
                    path: files@[i].0@,
                    bytes: files@[i].1@,
                }),
    {
        let ghost before = self.written@;
        let mut i: usize = 0;
        while i < files.len()
            invariant
                i <= files@.len(),
                self.name == old(self).name,
                before == old(self).written@,
                self.written@.len() == before.len() + i,
                forall|j: int| 0 <= j < before.len() ==> self.written@[j] == before[j],
                forall|j: int|
                    0 <= j < i ==> (#[trigger] self.written@[before.len() + j])@ == (WrittenModel {
                        commit: commit@,
                        path: files@[j].0@,
                        bytes: files@[j].1@,
                    }),
            decreases files@.len() - i,
        {
            self.written.push(
                WrittenFile {
                    commit: copied(commit),
                    path: files[i].0.clone(),
                    bytes: copied(files[i].1.as_slice()),
                },
            );
            i = i + 1;
        }
        assert(self.written@.take(before.len() as int) =~= before);
    }

    /// Take note that a commit was rewritten: the bytes travel with it.
    pub fn rewrote(&mut self, from: &[u8], to: &[u8])
        ensures
            final(self).name == old(self).name,
            final(self).written@.len() == old(self).written@.len(),
            forall|i: int|
                0 <= i < final(self).written@.len() ==> (#[trigger] final(self).written@[i])@
                    == moved(old(self).written@[i]@, from@, to@),
            forall|i: int|
                0 <= i < final(self).written@.len() ==> {
                    let file = #[trigger] final(self).written@[i];
                    &&& file.path@ == old(self).written@[i].path@
                    &&& file.bytes@ == old(self).written@[i].bytes@
                    &&& old(self).written@[i].commit@ == from@ ==> file.commit@ == to@
                    &&& old(self).written@[i].commit@ != from@ ==> file.commit@ == old(
                        self,
                    ).written@[i].commit@
                },
    {
        let ghost before = self.written@;
        let mut written: Vec<WrittenFile> = Vec::new();
        let mut i: usize = 0;
        while i < self.written.len()
            invariant
                i <= self.written@.len(),
                self.written@ == before,
                self.name == old(self).name,
                written@.len() == i,
                forall|j: int|
                    0 <= j < i ==> (#[trigger] written@[j])@ == moved(before[j]@, from@, to@),
            decreases self.written@.len() - i,
        {
            let file = &self.written[i];
            let commit = if same_bytes(file.commit.as_slice(), from) {
                copied(to)
            } else {
                copied(file.commit.as_slice())
            };
            written.push(
                WrittenFile {
                    commit,
                    path: file.path.clone(),
                    bytes: copied(file.bytes.as_slice()),
                },
            );
            i = i + 1;
        }
        self.written = written;
    }

    /// What the operation that publishes a commit says.
    pub fn commit_message(&self, description: &str) -> (r: String)
        ensures
            r@ == self.name@ + " commits "@ + description@,
    {
        let mut r = self.name.clone();
        r.append(" commits ");
        r.append(description);
        r
    }

    /// What the operation that publishes a new description says.
    pub fn describe_message(&self, description: &str) -> (r: String)
        ensures
            r@ == self.name@ + " describes "@ + description@,
    {
        let mut r = self.name.clone();
        r.append(" describes ");
        r.append(description);
        r
    }
}

/// The commit that a workspace has checked out, the root where it has none.
pub open spec fn checked_out(
    commits: Map<Seq<char>, Seq<u8>>,
    name: Seq<char>,
    root: Seq<u8>,
) -> Seq<u8> {
    if commits.contains_key(name) {
        commits[name]
    } else {
        root
    }
}

/// The id of each workspace's commit, in hex.
pub open spec fn hex_commits(commits: Map<Seq<char>, Seq<u8>>) -> Map<Seq<char>, Seq<char>> {
    commits.map_values(|id: Seq<u8>| hex_text(id))
}

/// Every workspace is shown, and no other, with the hex of the commit it has checked out.
pub proof fn every_workspace_is_shown(commits: Map<Seq<char>, Seq<u8>>, workspace: Seq<char>)
    ensures
        hex_commits(commits).contains_key(workspace) <==> commits.contains_key(workspace),
        commits.contains_key(workspace) ==> hex_value(hex_commits(commits)[workspace]) == Ok::<
            Seq<u8>,
            HexError,
        >(commits[workspace]),
{
    if commits.contains_key(workspace) {
        hex_reads_back(commits[workspace]);
    }
}

fn commits_in_hex(commits: &TextMap<Vec<u8>>) -> (r: TextMap<String>)
    ensures
        r@ == hex_commits(commits@),
{
    let entries = commits.entries();
    let mut r: TextMap<String> = TextMap::new();
    let mut i: usize = 0;
    assert(r@ =~= hex_commits(entries_map(entries@.take(0))));
    while i < entries.len()
        invariant
            i <= entries@.len(),
            r@ == hex_commits(entries_map(entries@.take(i as int))),
        decreases entries@.len() - i,
    {
        r.insert(entries[i].0.as_str(), to_hex(entries[i].1.as_slice()));
        proof {
            let longer = entries@.take(i + 1);
            assert(longer.drop_last() =~= entries@.take(i as int));
            assert(longer.last() == entries@[i as int]);
            assert(r@ =~= hex_commits(entries_map(longer)));
        }
        i = i + 1;
    }
    assert(entries@.take(i as int) =~= entries@);
    r
}

impl Agent {
    /// The commit that this agent works on: what its workspace has checked out, the
    /// root where it has nothing.
    pub fn working_commit_id(&self, view: &RepoView, root: &[u8]) -> (r: Vec<u8>)
        ensures
            r@ == checked_out(view.wc_commit_ids@, self.name@, root@),
            view.wc_commit_ids@.contains_key(self.name@) ==> r@ == view.wc_commit_ids@[self.name@],
            !view.wc_commit_ids@.contains_key(self.name@) ==> r@ == root@,
    {
        match view.wc_commit_ids.get(self.name.as_str()) {
            Some(id) => copied(id.as_slice()),
            None => copied(root),
        }
    }

    /// The commit that a new description rewrites; the root stays as it is.
    pub fn commit_to_describe(&self, view: &RepoView, root: &[u8]) -> (r: Option<Vec<u8>>)
        ensures
            match r {
                Some(id) => id@ == checked_out(view.wc_commit_ids@, self.name@, root@) && id@
                    != root@,
                None => checked_out(view.wc_commit_ids@, self.name@, root@) == root@,
            },
            r matches Some(id) ==> view.wc_commit_ids@.contains_key(self.name@) && id@
                == view.wc_commit_ids@[self.name@],
            r is None ==> !view.wc_commit_ids@.contains_key(self.name@)
                || view.wc_commit_ids@[self.name@] == root@,
    {
        let id = self.working_commit_id(view, root);
        if same_bytes(id.as_slice(), root) {
            None
        } else {
            Some(id)
        }
    }

    /// The operation heads that its store reports, in hex, sorted.
    pub fn op_heads(&self, heads: &Vec<Vec<u8>>) -> (r: Vec<String>)
        ensures
            texts_ascend(models(r@)),
            models(r@).to_multiset() == hex_texts(models(heads@)).to_multiset(),
    {
        op_heads_in_order(heads)
    }

    /// The picture that it takes of a view and of the operation heads that its store
    /// reports, the commits that can be reached from the view by their change.
    pub fn snapshot(
        &self,
        op_heads: &Vec<Vec<u8>>,
        view: &RepoView,
        changes: TextMap<TextSet>,
    ) -> (r: Snapshot)
        ensures
            r.name@ == self.name@,
            r.op_heads@ == hex_texts(models(op_heads@)).to_set(),
            r.view_heads@ == hex_texts(models(view.head_ids@)).to_set(),
            r.working_copies@ == hex_commits(view.wc_commit_ids@),
            r.changes == changes,
    {
        Snapshot {
            name: self.name.clone(),
            op_heads: TextSet::from_list(&to_hex_all(op_heads.as_slice())),
            view_heads: TextSet::from_list(&to_hex_all(view.head_ids.as_slice())),
            working_copies: commits_in_hex(&view.wc_commit_ids),
            changes,
        }
    }
}

/// A rewritten commit has the files that it had under its old name, no file is left
/// under that name, and every other commit keeps its files. The new name is one
/// that nothing was written under.
pub proof fn a_rewrite_keeps_the_files(
    before: Seq<WrittenFile>,
    after: Seq<WrittenFile>,
    from: Seq<u8>,
    to: Seq<u8>,
    n: nat,
)
    requires
        n <= before.len() == after.len(),
        from != to,
        forall|i: int| 0 <= i < before.len() ==> (#[trigger] before[i])@.commit != to,
        forall|i: int|
            0 <= i < before.len() ==> (#[trigger] after[i])@ == moved(before[i]@, from, to),
    ensures
        !expected(after, n).contains_key(from),
        !expected(before, n).contains_key(to),
        expected(after, n).contains_key(to) == expected(before, n).contains_key(from),
        files_in(expected(after, n), to) == files_in(expected(before, n), from),
        forall|commit: Seq<u8>|
            commit != from && commit != to ==> #[trigger] files_in(expected(after, n), commit)
                == files_in(expected(before, n), commit),
    decreases n,
{
    if n > 0 {
        a_rewrite_keeps_the_files(before, after, from, to, (n - 1) as nat);
        let m = (n - 1) as nat;
        let old_file = before[n - 1]@;
        assert(after[n - 1]@ == moved(old_file, from, to));
        assert forall|commit: Seq<u8>| commit != from && commit != to implies #[trigger] files_in(
            expected(after, n),
            commit,
        ) == files_in(expected(before, n), commit) by {
            assert(files_in(expected(after, m), commit) == files_in(expected(before, m), commit));
        }
    }
}

// ─── Pictures ─────────────────────────────────────────────────────────────────

/// One agent's picture of the repository at one moment.
#[derive(Debug, PartialEq, Eq)]
pub struct Snapshot {
    pub name: String,
    /// The operation heads this agent's store reports. It may hold this agent's
    /// own workspace head in addition to the server's global set.
    pub op_heads: TextSet,
    /// The commit heads of the view this agent resolved to.
    pub view_heads: TextSet,
    /// Workspace name to working-copy commit, hex.
    pub working_copies: TextMap<String>,
    /// The reachable commits of each change, hex.
    pub changes: TextMap<TextSet>,
}

/// The commits of a change, none where it was not met.
pub open spec fn commits_of(
    changes: Map<Seq<char>, Set<Seq<char>>>,
    change: Seq<char>,
) -> Set<Seq<char>> {
    if changes.contains_key(change) {
        changes[change]
    } else {
        Set::empty()
    }
}

/// Take note of a commit that was reached.
pub fn note_commit(changes: &mut TextMap<TextSet>, change: &str, commit: &str)
    ensures
        final(changes)@ == old(changes)@.insert(
            change@,
            commits_of(old(changes)@, change@).insert(commit@),
        ),
{
    let ghost before = changes@;
    let mut commits = match changes.remove(change) {
        Some(commits) => commits,
        None => TextSet::new(),
    };
    assert(commits@ == commits_of(before, change@));
    commits.insert(commit);
    changes.insert(change, commits);
    assert(changes@ =~= before.insert(change@, commits_of(before, change@).insert(commit@)));
}

/// A walk over the commits that can be reached from a view, which sorts them by their
/// change.
#[derive(Debug, PartialEq, Eq)]
pub struct CommitWalk {
    walk: ReachWalk,
    changes: TextMap<TextSet>,
}

/// The walk, as a mathematical value.
#[verifier::ext_equal]
pub struct CommitWalkModel {
    /// The commits that were visited.
    pub seen: Seq<Seq<u8>>,
    /// Those that are still to be visited, the next one last.
    pub queue: Seq<Seq<u8>>,
    pub changes: Map<Seq<char>, Set<Seq<char>>>,
}

impl View for CommitWalk {
    type V = CommitWalkModel;

    closed spec fn view(&self) -> CommitWalkModel {
        CommitWalkModel {
            seen: self.walk.seen(),
            queue: self.walk.queue(),
            changes: self.changes@,
        }
    }
}

/// The changes once a commit was noted under its change.
pub open spec fn with_commit(
    changes: Map<Seq<char>, Set<Seq<char>>>,
    change: Seq<u8>,
    id: Seq<u8>,
) -> Map<Seq<char>, Set<Seq<char>>> {
    changes.insert(
        hex_text(change),
        commits_of(changes, hex_text(change)).insert(hex_text(id)),
    )
}

impl CommitWalk {
    /// A walk from the heads of a view.
    pub fn new(heads: &Vec<Vec<u8>>) -> (r: Self)
        ensures
            r@ == (CommitWalkModel {
                seen: Seq::empty(),
                queue: models(heads@),
                changes: Map::empty(),
            }),
    {
        CommitWalk { walk: ReachWalk::new(heads), changes: TextMap::new() }
    }

    /// The next commit to load.
    pub fn next(&mut self) -> (r: Option<Vec<u8>>)
        ensures
            final(self)@.changes == old(self)@.changes,
            match r {
                Some(id) => next_of(old(self)@.queue, old(self)@.seen, None) == Some(
                    (id@, final(self)@.queue),
                ) && final(self)@.seen == old(self)@.seen.push(id@),
                None => next_of(old(self)@.queue, old(self)@.seen, None) is None
                    && final(self)@.queue == Seq::<Seq<u8>>::empty() && final(self)@.seen == old(
                    self,
                )@.seen,
            },
    {
        self.walk.next(None)
    }

    /// Take note of the change and the parents of the commit that was loaded.
    pub fn took(&mut self, id: &[u8], change: &[u8], parents: &Vec<Vec<u8>>)
        ensures
            final(self)@ == (CommitWalkModel {
                seen: old(self)@.seen,
                queue: old(self)@.queue + models(parents@),
                changes: with_commit(old(self)@.changes, change@, id@),
            }),
    {
        note_commit(&mut self.changes, to_hex(change).as_str(), to_hex(id).as_str());
        self.walk.took(parents);
    }

    /// The commits that were noted, by their change.
    pub fn finish(self) -> (r: TextMap<TextSet>)
        ensures
            r@ == self@.changes,
    {
        self.changes
    }
}

/// A walk after it was given so many commits, where it had any left to visit.
pub open spec fn walked(
    heads: Seq<Seq<u8>>,
    parents: spec_fn(Seq<u8>) -> Seq<Seq<u8>>,
    change_of: spec_fn(Seq<u8>) -> Seq<u8>,
    rounds: nat,
) -> CommitWalkModel
    decreases rounds,
{
    if rounds == 0 {
        CommitWalkModel { seen: Seq::empty(), queue: heads, changes: Map::empty() }
    } else {
        let before = walked(heads, parents, change_of, (rounds - 1) as nat);
        match next_of(before.queue, before.seen, None) {
            Some((id, rest)) => CommitWalkModel {
                seen: before.seen.push(id),
                queue: rest + parents(id),
                changes: with_commit(before.changes, change_of(id), id),
            },
            None => before,
        }
    }
}

spec fn walked_well(
    heads: Seq<Seq<u8>>,
    parents: spec_fn(Seq<u8>) -> Seq<Seq<u8>>,
    change_of: spec_fn(Seq<u8>) -> Seq<u8>,
    walk: CommitWalkModel,
) -> bool {
    &&& whole(heads, parents, None, walk.seen, walk.queue)
    &&& all_below(heads, parents, None, walk.queue)
    &&& walk.seen.no_duplicates()
    &&& forall|id: Seq<u8>| #[trigger]
        walk.seen.contains(id) ==> below(heads, parents, None, id)
    &&& forall|change: Seq<u8>, id: Seq<u8>| #[trigger]
        commits_of(walk.changes, hex_text(change)).contains(hex_text(id)) <==> walk.seen.contains(
            id,
        ) && change_of(id) == change
}

proof fn lemma_walked_well(
    heads: Seq<Seq<u8>>,
    parents: spec_fn(Seq<u8>) -> Seq<Seq<u8>>,
    change_of: spec_fn(Seq<u8>) -> Seq<u8>,
    rounds: nat,
)
    ensures
        walked_well(heads, parents, change_of, walked(heads, parents, change_of, rounds)),
    decreases rounds,
{
    if rounds == 0 {
        a_walk_starts_whole(heads, parents, None);
        a_walk_starts_at_the_heads(heads, parents, None);
    } else {
        let before = walked(heads, parents, change_of, (rounds - 1) as nat);
        lemma_walked_well(heads, parents, change_of, (rounds - 1) as nat);
        if next_of(before.queue, before.seen, None) is Some {
            let (id, rest) = next_of(before.queue, before.seen, None)->0;
            a_step_loses_nothing(heads, parents, None, before.seen, before.queue);
            a_step_stays_below_the_heads(heads, parents, None, before.seen, before.queue);
            lemma_pushed(before.seen, id);
            let after = walked(heads, parents, change_of, rounds);
            assert forall|change: Seq<u8>, other: Seq<u8>| #[trigger]
                commits_of(after.changes, hex_text(change)).contains(hex_text(other))
                    <==> after.seen.contains(other) && change_of(other) == change by {
                if hex_text(change) == hex_text(change_of(id)) {
                    hex_text_is_injective(change, change_of(id));
                }
                if hex_text(other) == hex_text(id) {
                    hex_text_is_injective(other, id);
                }
                assert(commits_of(before.changes, hex_text(change)).contains(hex_text(other))
                    <==> before.seen.contains(other) && change_of(other) == change);
            }
        }
    }
}

/// A walk that finds nothing more has sorted exactly the commits that can be reached: a
/// commit stands under a change where it is of that change and is a head or below one,
/// and nowhere else.
pub proof fn every_reachable_commit_is_under_its_change(
    heads: Seq<Seq<u8>>,
    parents: spec_fn(Seq<u8>) -> Seq<Seq<u8>>,
    change_of: spec_fn(Seq<u8>) -> Seq<u8>,
    rounds: nat,
    change: Seq<u8>,
    id: Seq<u8>,
)
    requires
        ({
            let walk = walked(heads, parents, change_of, rounds);
            next_of(walk.queue, walk.seen, None) is None
        }),
    ensures
        commits_of(
            walked(heads, parents, change_of, rounds).changes,
            hex_text(change),
        ).contains(hex_text(id)) <==> below(heads, parents, None, id) && change_of(id) == change,
{
    let walk = walked(heads, parents, change_of, rounds);
    lemma_walked_well(heads, parents, change_of, rounds);
    if below(heads, parents, None, id) {
        let n = choose|n: nat| reaches(heads, parents, None, id, n);
        a_finished_walk_has_seen_everything(heads, parents, None, walk.seen, walk.queue, id, n);
    }
}

/// What is said where a path does not lead to a plain file.
pub open spec fn no_file_message(
    who: Seq<char>,
    path: Seq<char>,
    commit: Seq<u8>,
) -> Seq<char> {
    who + ": "@ + path + " is not a plain file in "@ + hex_text(commit)
}

/// The file at a path in a commit, by what the path leads to where there is no
/// conflict.
pub fn file_at(who: &str, path: &str, commit: &[u8], value: Option<&TreeValue>) -> (r: Result<
    Vec<u8>,
    String,
>)
    ensures
        match r {
            Ok(id) => value is Some && (value->0@ matches TreeValueModel::File { id: file, .. }
                && id@ == file),
            Err(m) => !(value is Some && value->0@ is File) && m@ == no_file_message(
                who@,
                path@,
                commit@,
            ),
        },
{
    match value {
        Some(TreeValue::File { id, .. }) => Ok(copied(id.as_slice())),
        _ => {
            let mut m = who.to_owned();
            m.append(": ");
            m.append(path);
            m.append(" is not a plain file in ");
            m.append(to_hex(commit).as_str());
            Err(m)
        },
    }
}

impl Snapshot {
    /// The id of the file at a path in a commit, in hex: the handle a caller needs to
    /// ask the server for the same bytes without a client in the way.
    pub fn file_id(&self, commit: &[u8], path: &str, value: Option<&TreeValue>) -> (r: Result<
        String,
        String,
    >)
        ensures
            match r {
                Ok(hex) => value is Some && (value->0@ matches TreeValueModel::File { id, .. }
                    && hex@ == hex_text(id)),
                Err(m) => !(value is Some && value->0@ is File) && m@ == no_file_message(
                    self.name@,
                    path@,
                    commit@,
                ),
            },
    {
        match file_at(self.name.as_str(), path, commit, value) {
            Ok(id) => Ok(to_hex(id.as_slice())),
            Err(m) => Err(m),
        }
    }
}

} // verus!
