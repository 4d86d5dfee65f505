//! A change that is prepared in a local repository before it is published: what the
//! request holds, what has to be imported first, and how a published change is
//! found again.
use vstd::prelude::*;
use vstd::string::*;

use crate::hex::{
    from_hex, hex_reads_back, hex_text, hex_texts, hex_value, to_hex, to_hex_all, HexError,
};
use crate::http_client::HeadsState;
use crate::order::{copied, same_bytes};
use crate::proto_convert::{
    commit_read, formed_tree, is_commit_form, is_tree_form, read_commit, read_tree, storable,
    tree_bytes, tree_form, tree_read, write_tree, CommitFormModel, MessageError, Operation, Tree,
    TreeValue, TreeValueModel,
};
use crate::reach::{
    a_finished_walk_has_seen_everything, below, next_of, reaches, whole, ReachWalk,
};
use crate::text::{models, same_text};
use crate::views::RepoView;
use crate::wire::{
    PreparedObject, PreparedPublish, UpdateHeadsBody, KIND_COMMIT, KIND_FILE, KIND_TREE,
};

verus! {

// ─── Objects of a request ─────────────────────────────────────────────────────

#[verifier::ext_equal]
pub struct ObjectModel {
    pub kind: u16,
    pub id: Seq<u8>,
    pub data: Seq<u8>,
}

impl View for PreparedObject {
    type V = ObjectModel;

    open spec fn view(&self) -> ObjectModel {
        ObjectModel { kind: self.kind, id: self.id@, data: self.data@ }
    }
}

/// The ids of the subtrees of a tree, in order.
pub open spec fn subtrees(tree: Seq<(Seq<char>, TreeValueModel)>) -> Seq<Seq<u8>>
    decreases tree.len(),
{
    if tree.len() == 0 {
        Seq::empty()
    } else {
        let before = subtrees(tree.drop_last());
        match tree.last().1 {
            TreeValueModel::Tree(id) => before.push(id),
            _ => before,
        }
    }
}

/// The subtrees of a tree are the trees among its entries, each entry once and in their
/// order.
pub proof fn the_subtrees_are_the_trees_among_the_entries(
    tree: Seq<(Seq<char>, TreeValueModel)>,
    more: Seq<(Seq<char>, TreeValueModel)>,
)
    ensures
        subtrees(tree + more) == subtrees(tree) + subtrees(more),
        tree.len() == 1 ==> subtrees(tree) == (match tree[0].1 {
            TreeValueModel::Tree(id) => seq![id],
            _ => Seq::<Seq<u8>>::empty(),
        }),
    decreases more.len(),
{
    if tree.len() == 1 {
        assert(subtrees(tree.drop_last()) =~= Seq::<Seq<u8>>::empty());
        assert(subtrees(tree) =~= (match tree[0].1 {
            TreeValueModel::Tree(id) => seq![id],
            _ => Seq::<Seq<u8>>::empty(),
        }));
    }
    if more.len() == 0 {
        assert(tree + more =~= tree);
        assert(subtrees(tree) + subtrees(more) =~= subtrees(tree));
    } else {
        assert((tree + more).drop_last() =~= tree + more.drop_last());
        the_subtrees_are_the_trees_among_the_entries(tree, more.drop_last());
        assert(subtrees(tree + more) =~= subtrees(tree) + subtrees(more));
    }
}

/// A tree as an object of a request.
pub open spec fn tree_object(id: Seq<u8>, tree: Seq<(Seq<char>, TreeValueModel)>) -> ObjectModel {
    ObjectModel { kind: KIND_TREE, id, data: tree_bytes(tree_form(tree)) }
}

/// A step of the collection that is still to be made.
#[derive(Debug, PartialEq, Eq)]
pub enum TreeStep {
    /// A tree is to be read.
    Visit(Vec<u8>),
    /// A tree was read, and comes after its subtrees.
    Emit(PreparedObject),
}

pub enum TreeStepModel {
    Visit(Seq<u8>),
    Emit(ObjectModel),
}

impl View for TreeStep {
    type V = TreeStepModel;

    open spec fn view(&self) -> TreeStepModel {
        match *self {
            TreeStep::Visit(id) => TreeStepModel::Visit(id@),
            TreeStep::Emit(object) => TreeStepModel::Emit(object@),
        }
    }
}

/// The trees below a root, each after its subtrees. The next step is the last one.
#[derive(Debug, PartialEq, Eq)]
pub struct TreeCollection {
    pub steps: Vec<TreeStep>,
    pub objects: Vec<PreparedObject>,
}

/// What is emitted before the next tree has to be read: the steps and the objects
/// then.
pub open spec fn emitted(steps: Seq<TreeStepModel>, objects: Seq<ObjectModel>) -> (
    Seq<TreeStepModel>,
    Seq<ObjectModel>,
)
    decreases steps.len(),
{
    if steps.len() == 0 {
        (steps, objects)
    } else {
        match steps.last() {
            TreeStepModel::Emit(object) => emitted(steps.drop_last(), objects.push(object)),
            TreeStepModel::Visit(_) => (steps, objects),
        }
    }
}

/// Visits in the order of the ids: the last one is made first.
pub open spec fn visits(ids: Seq<Seq<u8>>) -> Seq<TreeStepModel> {
    Seq::new(ids.len(), |i: int| TreeStepModel::Visit(ids[ids.len() - 1 - i]))
}

impl TreeCollection {
    /// The collection of the trees below `root`, after these objects.
    pub fn new(root: &[u8], objects: Vec<PreparedObject>) -> (r: Self)
        ensures
            models(r.steps@) == seq![TreeStepModel::Visit(root@)],
            r.objects == objects,
    {
        let mut steps: Vec<TreeStep> = Vec::new();
        steps.push(TreeStep::Visit(copied(root)));
        assert(models(steps@) =~= seq![TreeStepModel::Visit(root@)]);
        TreeCollection { steps, objects }
    }

    /// The next tree to read.
    pub fn next(&mut self) -> (r: Option<Vec<u8>>)
        ensures
            ({
                let (steps, objects) = emitted(models(old(self).steps@), models(old(self).objects@));
                &&& models(final(self).objects@) == objects
                &&& match r {
                    Some(id) => steps.len() > 0 && steps.last() == TreeStepModel::Visit(id@)
                        && models(final(self).steps@) == steps.drop_last(),
                    None => steps.len() == 0 && final(self).steps@.len() == 0,
                }
            }),
    {
        let ghost start = (models(self.steps@), models(self.objects@));
        while self.steps.len() > 0
            invariant
                start == (models(old(self).steps@), models(old(self).objects@)),
                emitted(start.0, start.1) == emitted(models(self.steps@), models(self.objects@)),
            decreases self.steps@.len(),
        {
            let ghost before = models(self.steps@);
            let ghost had = models(self.objects@);
            let step = self.steps.pop();
            assert(models(self.steps@) =~= before.drop_last());
            match step {
                Some(TreeStep::Visit(id)) => {
                    assert(before.last() == TreeStepModel::Visit(id@));
                    return Some(id);
                },
                Some(TreeStep::Emit(object)) => {
                    let ghost model = object@;
                    assert(before.last() == TreeStepModel::Emit(model));
                    self.objects.push(object);
                    assert(models(self.objects@) =~= had.push(model));
                },
                None => {},
            }
        }
        None
    }

    /// A tree was read: its subtrees come first, then the tree itself. Git
    /// submodules cannot be stored.
    pub fn took(&mut self, id: &[u8], tree: &Tree)
        requires
            storable(tree@),
        ensures
            final(self).objects == old(self).objects,
            models(final(self).steps@) == models(old(self).steps@).push(
                TreeStepModel::Emit(tree_object(id@, tree@)),
            ) + visits(subtrees(tree@)),
    {
        let ghost before = models(self.steps@);
        let object = PreparedObject { kind: KIND_TREE, id: copied(id), data: write_tree(tree) };
        let ghost model = object@;
        assert(model =~= tree_object(id@, tree@));
        self.steps.push(TreeStep::Emit(object));
        let ghost base = models(self.steps@);
        assert(base =~= before.push(TreeStepModel::Emit(model)));
        let ids = subtree_ids(tree);
        let ghost all = models(ids@);
        let mut i: usize = ids.len();
        assert(base + visits(all).take(0) =~= base);
        while i > 0
            invariant
                i <= ids@.len(),
                all == models(ids@),
                self.objects == old(self).objects,
                models(self.steps@) == base + visits(all).take(ids@.len() - i),
            decreases i,
        {
            i = i - 1;
            let ghost had = models(self.steps@);
            let next = copied(ids[i].as_slice());
            self.steps.push(TreeStep::Visit(next));
            proof {
                let k = ids@.len() - 1 - i;
                let model = TreeStepModel::Visit(ids@[i as int]@);
                assert(models(self.steps@) =~= had.push(model));
                assert(all[i as int] == ids@[i as int]@);
                assert(visits(all)[k] == model);
                assert(base + visits(all).take(k + 1) =~= (base + visits(all).take(k)).push(model));
            }
        }
        assert(visits(all).take(ids@.len() as int) =~= visits(all));
    }
}

fn subtree_ids(tree: &Tree) -> (r: Vec<Vec<u8>>)
    ensures
        models(r@) == subtrees(tree@),
{
    let mut r: Vec<Vec<u8>> = Vec::new();
    assert(models(r@) =~= Seq::<Seq<u8>>::empty());
    assert(tree@.take(0) =~= Seq::empty());
    let mut i: usize = 0;
    while i < tree.entries.len()
        invariant
            i <= tree.entries@.len(),
            tree@.len() == tree.entries@.len(),
            models(r@) == subtrees(tree@.take(i as int)),
        decreases tree.entries@.len() - i,
    {
        let ghost before = models(r@);
        assert(tree@.take(i + 1).drop_last() =~= tree@.take(i as int));
        assert(tree@.take(i + 1).last() == tree@[i as int]);
        assert(tree@[i as int].1 == tree.entries@[i as int].1@);
        match &tree.entries[i].1 {
            TreeValue::Tree(id) => {
                r.push(copied(id.as_slice()));
                assert(models(r@) =~= before.push(id@));
            },
            _ => {},
        }
        i = i + 1;
    }
    assert(tree@.take(i as int) =~= tree@);
    r
}

// ─── The order of the collection ──────────────────────────────────────────────

/// What a repository holds: the tree of each id, and how deep it is.
pub struct TreeFacts {
    pub tree: spec_fn(Seq<u8>) -> Seq<(Seq<char>, TreeValueModel)>,
    pub depth: spec_fn(Seq<u8>) -> nat,
}

/// A tree is deeper than its subtrees.
pub open spec fn no_cycles(facts: TreeFacts) -> bool {
    forall|id: Seq<u8>, i: int|
        0 <= i < subtrees((facts.tree)(id)).len() ==> (facts.depth)(
            #[trigger] subtrees((facts.tree)(id))[i],
        ) < (facts.depth)(id)
}

/// The trees at and below some ids that are less deep than `bound`: for each id its
/// subtrees, then itself.
pub open spec fn post_order(facts: TreeFacts, ids: Seq<Seq<u8>>, bound: nat) -> Seq<ObjectModel>
    decreases bound, ids.len(),
{
    if ids.len() == 0 {
        Seq::empty()
    } else {
        let id = ids.last();
        let before = post_order(facts, ids.drop_last(), bound);
        if (facts.depth)(id) < bound {
            before + post_order(facts, subtrees((facts.tree)(id)), (facts.depth)(id)) + seq![
                tree_object(id, (facts.tree)(id)),
            ]
        } else {
            before
        }
    }
}

/// The trees at and below one id.
pub open spec fn trees_of(facts: TreeFacts, id: Seq<u8>) -> Seq<ObjectModel> {
    post_order(facts, subtrees((facts.tree)(id)), (facts.depth)(id)) + seq![
        tree_object(id, (facts.tree)(id)),
    ]
}

/// What the steps still have to emit.
pub open spec fn still_to_come(facts: TreeFacts, steps: Seq<TreeStepModel>) -> Seq<ObjectModel>
    decreases steps.len(),
{
    if steps.len() == 0 {
        Seq::empty()
    } else {
        let rest = still_to_come(facts, steps.drop_last());
        match steps.last() {
            TreeStepModel::Visit(id) => trees_of(facts, id) + rest,
            TreeStepModel::Emit(object) => seq![object] + rest,
        }
    }
}

proof fn lemma_visits_emit(
    facts: TreeFacts,
    base: Seq<TreeStepModel>,
    ids: Seq<Seq<u8>>,
    bound: nat,
)
    requires
        forall|i: int| 0 <= i < ids.len() ==> (facts.depth)(#[trigger] ids[i]) < bound,
    ensures
        still_to_come(facts, base + visits(ids)) == post_order(facts, ids, bound) + still_to_come(
            facts,
            base,
        ),
    decreases ids.len(),
{
    let rest = still_to_come(facts, base);
    if ids.len() == 0 {
        assert(base + visits(ids) =~= base);
        assert(Seq::<ObjectModel>::empty() + rest =~= rest);
    } else {
        // The last id is visited last: it stands right above the base.
        let front = ids.drop_last();
        let last = ids.last();
        let above = base.push(TreeStepModel::Visit(last));
        assert forall|i: int| 0 <= i < front.len() implies (facts.depth)(#[trigger] front[i])
            < bound by {
            assert(front[i] == ids[i]);
        }
        lemma_visits_emit(facts, above, front, bound);
        assert(base + visits(ids) =~= above + visits(front)) by {
            assert forall|i: int| 0 <= i < visits(ids).len() implies #[trigger] visits(ids)[i] == (if i
                == 0 {
                TreeStepModel::Visit(last)
            } else {
                visits(front)[i - 1]
            }) by {}
        }
        assert(above.drop_last() =~= base);
        assert((facts.depth)(ids[ids.len() - 1]) < bound);
        let a = post_order(facts, front, bound);
        let b = post_order(facts, subtrees((facts.tree)(last)), (facts.depth)(last));
        let c = seq![tree_object(last, (facts.tree)(last))];
        assert(a + ((b + c) + rest) =~= (a + b + c) + rest);
    }
}

/// Reading a tree and emitting what was read never changes what comes out in the
/// end: the objects so far, then every tree that is still to come.
pub proof fn collecting_keeps_the_outcome(
    facts: TreeFacts,
    steps: Seq<TreeStepModel>,
    objects: Seq<ObjectModel>,
)
    requires
        no_cycles(facts),
    ensures
        ({
            let (later, more) = emitted(steps, objects);
            &&& more + still_to_come(facts, later) == objects + still_to_come(facts, steps)
            &&& later.len() > 0 ==> {
                &&& later.last() is Visit
                &&& ({
                    let id = later.last()->Visit_0;
                    let tree = (facts.tree)(id);
                    let after = later.drop_last().push(
                        TreeStepModel::Emit(tree_object(id, tree)),
                    ) + visits(subtrees(tree));
                    still_to_come(facts, after) == still_to_come(facts, later)
                })
            }
        }),
    decreases steps.len(),
{
    if steps.len() > 0 {
        match steps.last() {
            TreeStepModel::Emit(object) => {
                let rest = steps.drop_last();
                collecting_keeps_the_outcome(facts, rest, objects.push(object));
                assert(objects.push(object) + still_to_come(facts, rest) =~= objects + (
                seq![object] + still_to_come(facts, rest)));
            },
            TreeStepModel::Visit(id) => {
                let tree = (facts.tree)(id);
                let base = steps.drop_last().push(TreeStepModel::Emit(tree_object(id, tree)));
                assert(base.drop_last() =~= steps.drop_last());
                let ids = subtrees(tree);
                assert forall|i: int| 0 <= i < ids.len() implies (facts.depth)(#[trigger] ids[i])
                    < (facts.depth)(id) by {
                    assert(subtrees((facts.tree)(id))[i] == ids[i]);
                }
                lemma_visits_emit(facts, base, ids, (facts.depth)(id));
                let a = post_order(facts, ids, (facts.depth)(id));
                let c = seq![tree_object(id, tree)];
                let rest = still_to_come(facts, steps.drop_last());
                assert(a + (c + rest) =~= (a + c) + rest);
            },
        }
    }
}

/// What a collection starts out to give is what it has to: the objects it was
/// given, then all trees at and below the root, subtrees first.
pub proof fn a_collection_starts_with_everything_to_come(
    facts: TreeFacts,
    root: Seq<u8>,
    objects: Seq<ObjectModel>,
)
    ensures
        objects + still_to_come(facts, seq![TreeStepModel::Visit(root)]) == objects + trees_of(
            facts,
            root,
        ),
        still_to_come(facts, Seq::empty()) == Seq::<ObjectModel>::empty(),
{
    let steps = seq![TreeStepModel::Visit(root)];
    reveal_with_fuel(still_to_come, 2);
    assert(steps.last() == TreeStepModel::Visit(root));
    assert(steps.drop_last() =~= Seq::empty());
    assert(trees_of(facts, root) + Seq::<ObjectModel>::empty() =~= trees_of(facts, root));
}

// ─── The request ──────────────────────────────────────────────────────────────

/// The request that publishes a prepared change: the edited file, the trees, the
/// commit, then the view and the operation, and the heads that it moves.
pub fn prepared_publish(
    file: PreparedObject,
    trees: Vec<PreparedObject>,
    commit: PreparedObject,
    view: Vec<u8>,
    operation: Vec<u8>,
    parent_ids: &Vec<Vec<u8>>,
    operation_id: &[u8],
    workspace: &str,
) -> (r: PreparedPublish)
    ensures
        models(r.objects@) == seq![file@] + models(trees@) + seq![commit@],
        r.view == view,
        r.operation == operation,
        models(r.heads.old_ids@) == hex_texts(models(parent_ids@)),
        r.heads.new_id@ == hex_text(operation_id@),
        r.heads.workspace_id@ == workspace@,
{
    let ghost said = (file@, models(trees@), commit@);
    let mut objects: Vec<PreparedObject> = Vec::new();
    objects.push(file);
    let mut rest = trees;
    let ghost before = objects@;
    let ghost middle = rest@;
    objects.append(&mut rest);
    objects.push(commit);
    assert(models(objects@) =~= seq![said.0] + said.1 + seq![said.2]);
    let old_ids = to_hex_all(parent_ids.as_slice());
    PreparedPublish {
        objects,
        view,
        operation,
        heads: UpdateHeadsBody {
            old_ids,
            new_id: to_hex(operation_id),
            workspace_id: workspace.to_owned(),
        },
    }
}

/// The operation that a request publishes.
pub fn operation_id(request: &PreparedPublish) -> (r: Vec<u8>)
    requires
        hex_value(request.heads.new_id@) is Ok,
    ensures
        hex_value(request.heads.new_id@) == Ok::<Seq<u8>, HexError>(r@),
{
    match from_hex(request.heads.new_id.as_str()) {
        Ok(id) => id,
        Err(_) => Vec::new(),
    }
}

/// A request names the operation that it was prepared with.
pub proof fn a_request_names_its_operation(request: PreparedPublish, operation: Seq<u8>)
    requires
        request.heads.new_id@ == hex_text(operation),
    ensures
        hex_value(request.heads.new_id@) == Ok::<Seq<u8>, HexError>(operation),
{
    hex_reads_back(operation);
}

/// The one head that a repository starts with.
pub fn only_head(heads: &Vec<Vec<u8>>) -> (r: Result<Vec<u8>, String>)
    ensures
        match r {
            Ok(head) => heads@.len() == 1 && head@ == heads@[0]@,
            Err(m) => heads@.len() != 1 && m@ == "preparation fixture requires one initial head"@,
        },
{
    if heads.len() == 1 {
        Ok(copied(heads[0].as_slice()))
    } else {
        Err("preparation fixture requires one initial head".to_owned())
    }
}

// ─── Importing what is there already ──────────────────────────────────────────

/// The kind under which operations are counted beside objects.
pub const KIND_OPERATION: u16 = 100;

/// A step of an import that is still to be made.
#[derive(Debug, PartialEq, Eq)]
pub enum ImportStep {
    /// Something is to be fetched, with all it needs.
    Visit { kind: u16, id: Vec<u8> },
    /// A view is to be fetched, for the commits it shows.
    View(Vec<u8>),
    /// All that something needs is there, so it can be written.
    Store { kind: u16, id: Vec<u8> },
    /// The import fails here, with all that came before it imported.
    Refuse(ImportError),
}

pub enum ImportStepModel {
    Visit { kind: u16, id: Seq<u8> },
    View(Seq<u8>),
    Store { kind: u16, id: Seq<u8> },
    Refuse(ImportError),
}

impl View for ImportStep {
    type V = ImportStepModel;

    open spec fn view(&self) -> ImportStepModel {
        match *self {
            ImportStep::Visit { kind, id } => ImportStepModel::Visit { kind, id: id@ },
            ImportStep::View(id) => ImportStepModel::View(id@),
            ImportStep::Store { kind, id } => ImportStepModel::Store { kind, id: id@ },
            ImportStep::Refuse(why) => ImportStepModel::Refuse(why),
        }
    }
}

/// Something that is imported, by kind and id.
#[derive(Debug, Clone, PartialEq, Eq)]
pub struct Item {
    pub kind: u16,
    pub id: Vec<u8>,
}

impl View for Item {
    type V = (u16, Seq<u8>);

    open spec fn view(&self) -> (u16, Seq<u8>) {
        (self.kind, self.id@)
    }
}

/// An import. The next step is the last one.
#[derive(Debug, PartialEq, Eq)]
pub struct ImportWalk {
    pub steps: Vec<ImportStep>,
    pub seen: Vec<Item>,
}

/// Whether something need not be fetched: the roots are everywhere, and what was
/// fetched once is not fetched again.
pub open spec fn is_there(
    kind: u16,
    id: Seq<u8>,
    root_commit: Seq<u8>,
    root_operation: Seq<u8>,
    seen: Seq<(u16, Seq<u8>)>,
) -> bool {
    ||| kind == KIND_COMMIT && id == root_commit
    ||| kind == KIND_OPERATION && id == root_operation
    ||| seen.contains((kind, id))
}

/// The steps once those at the end that ask for nothing are dropped.
pub open spec fn settled(
    steps: Seq<ImportStepModel>,
    root_commit: Seq<u8>,
    root_operation: Seq<u8>,
    seen: Seq<(u16, Seq<u8>)>,
) -> Seq<ImportStepModel>
    decreases steps.len(),
{
    if steps.len() == 0 {
        steps
    } else {
        match steps.last() {
            ImportStepModel::Visit { kind, id } => if is_there(
                kind,
                id,
                root_commit,
                root_operation,
                seen,
            ) {
                settled(steps.drop_last(), root_commit, root_operation, seen)
            } else {
                steps
            },
            _ => steps,
        }
    }
}

fn holds_item(list: &Vec<Item>, kind: u16, id: &[u8]) -> (r: bool)
    ensures
        r == models(list@).contains((kind, id@)),
{
    let mut i: usize = 0;
    while i < list.len()
        invariant
            i <= list@.len(),
            forall|j: int| 0 <= j < i ==> (#[trigger] list@[j])@ != (kind, id@),
        decreases list@.len() - i,
    {
        if list[i].kind == kind && same_bytes(list[i].id.as_slice(), id) {
            assert(models(list@)[i as int] == (kind, id@));
            return true;
        }
        assert(list@[i as int]@ != (kind, id@));
        i = i + 1;
    }
    proof {
        if models(list@).contains((kind, id@)) {
            let j = choose|j: int| 0 <= j < list@.len() && models(list@)[j] == (kind, id@);
            assert(list@[j]@ == (kind, id@));
        }
    }
    false
}

/// Visits of some items, the first of them made first.
pub open spec fn item_visits(items: Seq<(u16, Seq<u8>)>) -> Seq<ImportStepModel> {
    Seq::new(
        items.len(),
        |i: int|
            ImportStepModel::Visit {
                kind: items[items.len() - 1 - i].0,
                id: items[items.len() - 1 - i].1,
            },
    )
}

impl ImportWalk {
    /// An import of one operation, with all its history.
    pub fn new(operation: &[u8]) -> (r: Self)
        ensures
            models(r.steps@) == seq![
                ImportStepModel::Visit { kind: KIND_OPERATION, id: operation@ },
            ],
            r.seen@.len() == 0,
    {
        let mut steps: Vec<ImportStep> = Vec::new();
        steps.push(ImportStep::Visit { kind: KIND_OPERATION, id: copied(operation) });
        assert(models(steps@) =~= seq![
            ImportStepModel::Visit { kind: KIND_OPERATION, id: operation@ },
        ]);
        ImportWalk { steps, seen: Vec::new() }
    }

    /// The next step: something that is not there yet is to be fetched, a view is to
    /// be fetched, or something is to be written.
    pub fn next(&mut self, root_commit: &[u8], root_operation: &[u8]) -> (r: Option<ImportStep>)
        ensures
            ({
                let seen = models(old(self).seen@);
                let steps = settled(
                    models(old(self).steps@),
                    root_commit@,
                    root_operation@,
                    seen,
                );
                match r {
                    Some(step) => {
                        &&& steps.len() > 0
                        &&& step@ == steps.last()
                        &&& models(final(self).steps@) == steps.drop_last()
                        &&& models(final(self).seen@) == match step@ {
                            ImportStepModel::Visit { kind, id } => seen.push((kind, id)),
                            _ => seen,
                        }
                    },
                    None => steps.len() == 0 && final(self).steps@.len() == 0 && models(
                        final(self).seen@,
                    ) == seen,
                }
            }),
    {
        let ghost start = models(self.steps@);
        let ghost seen = models(self.seen@);
        while self.steps.len() > 0
            invariant
                start == models(old(self).steps@),
                seen == models(old(self).seen@),
                seen == models(self.seen@),
                settled(start, root_commit@, root_operation@, seen) == settled(
                    models(self.steps@),
                    root_commit@,
                    root_operation@,
                    seen,
                ),
            decreases self.steps@.len(),
        {
            let ghost before = models(self.steps@);
            let popped = self.steps.pop();
            assert(models(self.steps@) =~= before.drop_last());
            match popped {
                Some(ImportStep::Visit { kind, id }) => {
                    assert(before.last() == ImportStepModel::Visit { kind, id: id@ });
                    let is_root = (kind == KIND_COMMIT && same_bytes(id.as_slice(), root_commit))
                        || (kind == KIND_OPERATION && same_bytes(id.as_slice(), root_operation));
                    if !is_root && !holds_item(&self.seen, kind, id.as_slice()) {
                        let item = Item { kind, id: copied(id.as_slice()) };
                        self.seen.push(item);
                        assert(models(self.seen@) =~= seen.push((kind, id@)));
                        return Some(ImportStep::Visit { kind, id });
                    }
                },
                Some(step) => {
                    assert(before.last() == step@);
                    return Some(step);
                },
                None => {},
            }
        }
        None
    }

    fn ask_for(&mut self, items: &Vec<Item>)
        ensures
            final(self).seen == old(self).seen,
            models(final(self).steps@) == models(old(self).steps@) + item_visits(models(items@)),
    {
        let ghost base = models(self.steps@);
        let ghost all = models(items@);
        let mut i: usize = items.len();
        assert(base + item_visits(all).take(0) =~= base);
        while i > 0
            invariant
                i <= items@.len(),
                all == models(items@),
                self.seen == old(self).seen,
                models(self.steps@) == base + item_visits(all).take(items@.len() - i),
            decreases i,
        {
            i = i - 1;
            let ghost had = models(self.steps@);
            self.steps.push(
                ImportStep::Visit { kind: items[i].kind, id: copied(items[i].id.as_slice()) },
            );
            proof {
                let k = items@.len() - 1 - i;
                let model = ImportStepModel::Visit {
                    kind: items@[i as int].kind,
                    id: items@[i as int].id@,
                };
                assert(models(self.steps@) =~= had.push(model));
                assert(all[i as int] == items@[i as int]@);
                assert(item_visits(all)[k] == model);
                assert(base + item_visits(all).take(k + 1) =~= (base + item_visits(all).take(
                    k,
                )).push(model));
            }
        }
        assert(item_visits(all).take(items@.len() as int) =~= item_visits(all));
    }

    /// An object was fetched: what it needs comes first, then it is written. A tree that
    /// holds something other than files and trees is refused once what stands before
    /// that was imported.
    pub fn took_object(&mut self, kind: u16, id: &[u8], data: &[u8]) -> (r: Result<(), ImportError>)
        ensures
            final(self).seen == old(self).seen,
            match (r, needs(kind, data@)) {
                (Ok(_), Ok((items, whole))) => models(final(self).steps@) == models(
                    old(self).steps@,
                ).push(
                    if whole {
                        ImportStepModel::Store { kind, id: id@ }
                    } else {
                        ImportStepModel::Refuse(ImportError::OnlyFilesAndTrees)
                    },
                ) + item_visits(items),
                (Err(e), Err(said)) => e == said && final(self).steps == old(self).steps,
                _ => false,
            },
    {
        match object_needs(kind, data) {
            Err(e) => Err(e),
            Ok((items, whole)) => {
                let ghost before = models(self.steps@);
                let step = if whole {
                    ImportStep::Store { kind, id: copied(id) }
                } else {
                    ImportStep::Refuse(ImportError::OnlyFilesAndTrees)
                };
                let ghost model = step@;
                self.steps.push(step);
                assert(models(self.steps@) =~= before.push(model));
                self.ask_for(&items);
                Ok(())
            },
        }
    }

    /// An operation was fetched: its parents come first, then its view, then it is
    /// written.
    pub fn took_operation(&mut self, id: &[u8], operation: &Operation)
        ensures
            final(self).seen == old(self).seen,
            models(final(self).steps@) == models(old(self).steps@).push(
                ImportStepModel::Store { kind: KIND_OPERATION, id: id@ },
            ).push(ImportStepModel::View(operation.view_id@)) + item_visits(
                of_kind(KIND_OPERATION, models(operation.parents@)),
            ),
    {
        let ghost before = models(self.steps@);
        self.steps.push(ImportStep::Store { kind: KIND_OPERATION, id: copied(id) });
        self.steps.push(ImportStep::View(copied(operation.view_id.as_slice())));
        assert(models(self.steps@) =~= before.push(
            ImportStepModel::Store { kind: KIND_OPERATION, id: id@ },
        ).push(ImportStepModel::View(operation.view_id@)));
        let items = all_of_kind(KIND_OPERATION, &operation.parents);
        self.ask_for(&items);
    }

    /// A view was fetched: the commits it shows come first, heads before working
    /// copies.
    pub fn took_view(&mut self, view: &RepoView)
        ensures
            final(self).seen == old(self).seen,
            models(final(self).steps@) == models(old(self).steps@) + item_visits(
                of_kind(KIND_COMMIT, models(view.head_ids@)) + of_kind(
                    KIND_COMMIT,
                    entry_values(view.wc_commit_ids.items()),
                ),
            ),
    {
        let mut items = all_of_kind(KIND_COMMIT, &view.head_ids);
        let ghost heads = models(items@);
        let copies = view.wc_commit_ids.entries();
        let ghost values = of_kind(KIND_COMMIT, entry_values(copies@));
        let mut i: usize = 0;
        assert(heads + values.take(0) =~= heads);
        while i < copies.len()
            invariant
                i <= copies@.len(),
                copies@ == view.wc_commit_ids.items(),
                values == of_kind(KIND_COMMIT, entry_values(copies@)),
                models(items@) == heads + values.take(i as int),
                *self == *old(self),
            decreases copies@.len() - i,
        {
            let ghost had = models(items@);
            items.push(Item { kind: KIND_COMMIT, id: copied(copies[i].1.as_slice()) });
            proof {
                let model = (KIND_COMMIT, copies@[i as int].1@);
                assert(models(items@) =~= had.push(model));
                assert(values[i as int] == model);
                assert(heads + values.take(i + 1) =~= (heads + values.take(i as int)).push(model));
            }
            i = i + 1;
        }
        assert(values.take(i as int) =~= values);
        self.ask_for(&items);
    }
}

pub open spec fn of_kind(kind: u16, ids: Seq<Seq<u8>>) -> Seq<(u16, Seq<u8>)> {
    Seq::new(ids.len(), |i: int| (kind, ids[i]))
}

pub open spec fn entry_values(entries: Seq<(String, Vec<u8>)>) -> Seq<Seq<u8>> {
    Seq::new(entries.len(), |i: int| entries[i].1@)
}

/// Items of a kind are the ids they are made of, each once and in order, under that kind;
/// the values of entries are those of each entry, in order.
pub proof fn items_are_their_ids(
    kind: u16,
    ids: Seq<Seq<u8>>,
    entries: Seq<(String, Vec<u8>)>,
    i: int,
)
    ensures
        of_kind(kind, ids).len() == ids.len(),
        0 <= i < ids.len() ==> of_kind(kind, ids)[i] == (kind, ids[i]),
        entry_values(entries).len() == entries.len(),
        0 <= i < entries.len() ==> entry_values(entries)[i] == entries[i].1@,
{
}

fn all_of_kind(kind: u16, ids: &Vec<Vec<u8>>) -> (r: Vec<Item>)
    ensures
        models(r@) == of_kind(kind, models(ids@)),
{
    let mut r: Vec<Item> = Vec::new();
    let mut i: usize = 0;
    while i < ids.len()
        invariant
            i <= ids@.len(),
            r@.len() == i,
            forall|j: int| 0 <= j < i ==> (#[trigger] r@[j])@ == (kind, ids@[j]@),
        decreases ids@.len() - i,
    {
        r.push(Item { kind, id: copied(ids[i].as_slice()) });
        i = i + 1;
    }
    assert(models(r@) =~= of_kind(kind, models(ids@)));
    r
}

/// Why an object was not imported.
#[derive(Debug, Clone, Copy, PartialEq, Eq, Structural)]
pub enum ImportError {
    Message(MessageError),
    /// A tree holds something other than files and trees.
    OnlyFilesAndTrees,
    /// The object is of a kind that is not imported.
    UnsupportedObject,
}

impl ImportError {
    /// What is said of an object that was read but is not imported.
    pub fn message(&self) -> (r: String)
        requires
            !(*self is Message),
        ensures
            r@ == if *self is OnlyFilesAndTrees {
                "fixture only supports files and trees"@
            } else {
                "unsupported fixture object"@
            },
    {
        match *self {
            ImportError::OnlyFilesAndTrees => "fixture only supports files and trees".to_owned(),
            _ => "unsupported fixture object".to_owned(),
        }
    }
}

/// What the entries of a tree need, up to the first that is neither a file nor a tree,
/// and whether there is none such.
pub open spec fn tree_needs(tree: Seq<(Seq<char>, TreeValueModel)>) -> (
    Seq<(u16, Seq<u8>)>,
    bool,
)
    decreases tree.len(),
{
    if tree.len() == 0 {
        (Seq::empty(), true)
    } else {
        let (items, whole) = tree_needs(tree.drop_last());
        match tree.last().1 {
            TreeValueModel::Tree(id) if whole => (items.push((KIND_TREE, id)), true),
            TreeValueModel::File { id, .. } if whole => (items.push((KIND_FILE, id)), true),
            _ => (items, false),
        }
    }
}

/// What a commit needs: its parents, then the trees that it is made of.
pub open spec fn commit_needs(form: CommitFormModel) -> Seq<(u16, Seq<u8>)> {
    of_kind(KIND_COMMIT, form.parents) + of_kind(KIND_TREE, form.root_tree)
}

/// A tree is whole exactly when every entry is a file or a tree, and then it needs each of
/// them, in their order and as what it is. A tree that is not needs those in front of the
/// first entry that is neither.
pub proof fn a_tree_needs_its_files_and_trees(tree: Seq<(Seq<char>, TreeValueModel)>)
    ensures
        tree_needs(tree).1 <==> forall|i: int|
            0 <= i < tree.len() ==> (#[trigger] tree[i]).1 is File || tree[i].1 is Tree,
        tree_needs(tree).1 ==> tree_needs(tree).0.len() == tree.len(),
        tree_needs(tree).0.len() <= tree.len(),
        forall|i: int|
            0 <= i < tree_needs(tree).0.len() ==> {
                &&& (#[trigger] tree[i]).1 is File || tree[i].1 is Tree
                &&& tree[i].1 is File ==> tree_needs(tree).0[i] == (2u16, tree[i].1->File_id)
                &&& tree[i].1 is Tree ==> tree_needs(tree).0[i] == (1u16, tree[i].1->Tree_0)
            },
        !tree_needs(tree).1 ==> {
            let at = tree_needs(tree).0.len() as int;
            at < tree.len() && !(tree[at].1 is File) && !(tree[at].1 is Tree)
        },
    decreases tree.len(),
{
    if tree.len() > 0 {
        let front = tree.drop_last();
        a_tree_needs_its_files_and_trees(front);
        assert(forall|i: int| 0 <= i < front.len() ==> #[trigger] front[i] == tree[i]);
        let before = tree_needs(front).0;
        let items = tree_needs(tree).0;
        assert forall|i: int| 0 <= i < items.len() implies {
            &&& (#[trigger] tree[i]).1 is File || tree[i].1 is Tree
            &&& tree[i].1 is File ==> items[i] == (2u16, tree[i].1->File_id)
            &&& tree[i].1 is Tree ==> items[i] == (1u16, tree[i].1->Tree_0)
        } by {
            if i < before.len() {
                assert(items[i] == before[i]);
                assert(front[i] == tree[i]);
            } else {
                assert(i == front.len());
            }
        }
        if tree_needs(front).1 {
            if tree_needs(tree).1 {
                assert forall|i: int| 0 <= i < tree.len() implies (#[trigger] tree[i]).1 is File
                    || tree[i].1 is Tree by {
                    if i < front.len() {
                        assert(front[i].1 is File || front[i].1 is Tree);
                    }
                }
            }
        } else {
            let at = tree_needs(front).0.len() as int;
            assert(front[at] == tree[at]);
        }
    }
}

/// A commit needs its parents, as commits, and then its trees, as trees, and nothing else.
pub proof fn a_commit_needs_its_parents_and_trees(form: CommitFormModel)
    ensures
        commit_needs(form).len() == form.parents.len() + form.root_tree.len(),
        forall|i: int|
            0 <= i < form.parents.len() ==> #[trigger] commit_needs(form)[i] == (
                0u16,
                form.parents[i],
            ),
        forall|i: int|
            0 <= i < form.root_tree.len() ==> #[trigger] commit_needs(form)[form.parents.len() + i]
                == (1u16, form.root_tree[i]),
{
}

/// What is asked for first is visited first: the steps are taken from the back, and there
/// the first item stands.
pub proof fn items_are_visited_in_order(items: Seq<(u16, Seq<u8>)>, ids: Seq<Seq<u8>>, i: int)
    ensures
        item_visits(items).len() == items.len(),
        0 <= i < items.len() ==> item_visits(items)[items.len() - 1 - i] == (
        ImportStepModel::Visit { kind: items[i].0, id: items[i].1 }),
        visits(ids).len() == ids.len(),
        0 <= i < ids.len() ==> visits(ids)[ids.len() - 1 - i] == TreeStepModel::Visit(ids[i]),
{
}

/// What an object needs to be there before it is written, and whether it is written
/// then.
pub open spec fn needs(kind: u16, data: Seq<u8>) -> Result<
    (Seq<(u16, Seq<u8>)>, bool),
    ImportError,
> {
    if kind == KIND_FILE {
        Ok((Seq::empty(), true))
    } else if kind == KIND_TREE {
        match tree_read(data) {
            None => Err(ImportError::Message(MessageError::Decode)),
            Some(form) => if is_tree_form(form) {
                Ok(tree_needs(formed_tree(form)))
            } else {
                Err(ImportError::Message(MessageError::Malformed))
            },
        }
    } else if kind == KIND_COMMIT {
        match commit_read(data) {
            None => Err(ImportError::Message(MessageError::Decode)),
            Some(form) => if is_commit_form(form) {
                Ok((commit_needs(form), true))
            } else {
                Err(ImportError::Message(MessageError::Malformed))
            },
        }
    } else {
        Err(ImportError::UnsupportedObject)
    }
}

/// A file needs nothing; only files, trees and commits are imported; and a message that
/// stands for a tree or a commit needs what that tree or that commit needs.
pub proof fn an_object_needs_what_it_is_made_of(kind: u16, data: Seq<u8>)
    ensures
        kind == 2 ==> needs(kind, data) == Ok::<(Seq<(u16, Seq<u8>)>, bool), ImportError>(
            (Seq::empty(), true),
        ),
        kind == 1 ==> (needs(kind, data) is Ok <==> (tree_read(data) matches Some(form)
            && is_tree_form(form))),
        kind == 1 && needs(kind, data) is Ok ==> needs(kind, data)->Ok_0 == tree_needs(
            formed_tree(tree_read(data)->0),
        ),
        kind == 0 ==> (needs(kind, data) is Ok <==> (commit_read(data) matches Some(form)
            && is_commit_form(form))),
        kind == 0 && needs(kind, data) is Ok ==> needs(kind, data)->Ok_0 == (
            commit_needs(commit_read(data)->0),
            true,
        ),
        kind > 2 ==> needs(kind, data) == Err::<(Seq<(u16, Seq<u8>)>, bool), ImportError>(
            ImportError::UnsupportedObject,
        ),
{
}

fn needs_of_tree(tree: &Tree) -> (r: (Vec<Item>, bool))
    ensures
        tree_needs(tree@) == (models(r.0@), r.1),
{
    let mut items: Vec<Item> = Vec::new();
    assert(models(items@) =~= Seq::<(u16, Seq<u8>)>::empty());
    assert(tree@.take(0) =~= Seq::empty());
    let mut i: usize = 0;
    while i < tree.entries.len()
        invariant
            i <= tree.entries@.len(),
            tree@.len() == tree.entries@.len(),
            tree_needs(tree@.take(i as int)) == (models(items@), true),
        decreases tree.entries@.len() - i,
    {
        let ghost before = models(items@);
        assert(tree@.take(i + 1).drop_last() =~= tree@.take(i as int));
        assert(tree@.take(i + 1).last() == tree@[i as int]);
        assert(tree@[i as int].1 == tree.entries@[i as int].1@);
        match &tree.entries[i].1 {
            TreeValue::Tree(id) => {
                items.push(Item { kind: KIND_TREE, id: copied(id.as_slice()) });
                assert(models(items@) =~= before.push((KIND_TREE, id@)));
            },
            TreeValue::File { id, .. } => {
                items.push(Item { kind: KIND_FILE, id: copied(id.as_slice()) });
                assert(models(items@) =~= before.push((KIND_FILE, id@)));
            },
            _ => {
                proof {
                    lemma_needs_end(tree@, (i + 1) as int);
                }
                return (items, false);
            },
        }
        i = i + 1;
    }
    assert(tree@.take(i as int) =~= tree@);
    (items, true)
}

proof fn lemma_needs_end(tree: Seq<(Seq<char>, TreeValueModel)>, n: int)
    requires
        0 <= n <= tree.len(),
        !tree_needs(tree.take(n)).1,
    ensures
        tree_needs(tree) == tree_needs(tree.take(n)),
    decreases tree.len() - n,
{
    if n == tree.len() {
        assert(tree.take(n) =~= tree);
    } else {
        assert(tree.take(n + 1).drop_last() =~= tree.take(n));
        lemma_needs_end(tree, n + 1);
    }
}

/// What an object needs to be there before it is written, and whether it is written
/// then.
pub fn object_needs(kind: u16, data: &[u8]) -> (r: Result<(Vec<Item>, bool), ImportError>)
    ensures
        match (r, needs(kind, data@)) {
            (Ok((items, whole)), Ok(said)) => (models(items@), whole) == said,
            (Err(e), Err(said)) => e == said,
            _ => false,
        },
{
    if kind == KIND_FILE {
        let none: Vec<Item> = Vec::new();
        assert(models(none@) =~= Seq::<(u16, Seq<u8>)>::empty());
        return Ok((none, true));
    }
    if kind == KIND_TREE {
        return match read_tree(data) {
            Err(e) => Err(ImportError::Message(e)),
            Ok(tree) => Ok(needs_of_tree(&tree)),
        };
    }
    if kind == KIND_COMMIT {
        return match read_commit(data) {
            Err(e) => Err(ImportError::Message(e)),
            Ok(commit) => {
                let mut items = all_of_kind(KIND_COMMIT, &commit.parents);
                let mut trees = all_of_kind(KIND_TREE, &commit.root_tree);
                let ghost before = models(items@);
                let ghost after = models(trees@);
                items.append(&mut trees);
                assert(models(items@) =~= before + after);
                Ok((items, true))
            },
        };
    }
    Err(ImportError::UnsupportedObject)
}

/// No item is fetched twice, and neither root is fetched at all.
pub proof fn an_import_fetches_once(
    steps: Seq<ImportStepModel>,
    root_commit: Seq<u8>,
    root_operation: Seq<u8>,
    seen: Seq<(u16, Seq<u8>)>,
)
    requires
        seen.no_duplicates(),
    ensures
        ({
            let left = settled(steps, root_commit, root_operation, seen);
            left.len() > 0 ==> (left.last() matches ImportStepModel::Visit { kind, id } ==> {
                &&& seen.push((kind, id)).no_duplicates()
                &&& !(kind == KIND_COMMIT && id == root_commit)
                &&& !(kind == KIND_OPERATION && id == root_operation)
            })
        }),
    decreases steps.len(),
{
    if steps.len() > 0 {
        match steps.last() {
            ImportStepModel::Visit { kind, id } => {
                if is_there(kind, id, root_commit, root_operation, seen) {
                    an_import_fetches_once(steps.drop_last(), root_commit, root_operation, seen);
                }
            },
            _ => {},
        }
    }
}

/// What something needs stands above it until it was visited: as long as the step
/// that writes or refuses it is still to be made, the steps above it are handled first.
pub proof fn needs_come_before_the_write(
    steps: Seq<ImportStepModel>,
    root_commit: Seq<u8>,
    root_operation: Seq<u8>,
    seen: Seq<(u16, Seq<u8>)>,
    at: int,
)
    requires
        0 <= at < steps.len(),
        steps[at] is Store || steps[at] is Refuse,
    ensures
        ({
            let left = settled(steps, root_commit, root_operation, seen);
            &&& at < left.len() <= steps.len()
            &&& left == steps.take(left.len() as int)
            &&& forall|i: int|
                left.len() <= i < steps.len() ==> match #[trigger] steps[i] {
                    ImportStepModel::Visit { kind, id } => is_there(
                        kind,
                        id,
                        root_commit,
                        root_operation,
                        seen,
                    ),
                    _ => false,
                }
        }),
    decreases steps.len(),
{
    let left = settled(steps, root_commit, root_operation, seen);
    match steps.last() {
        ImportStepModel::Visit { kind, id } => {
            if is_there(kind, id, root_commit, root_operation, seen) {
                assert(at < steps.len() - 1);
                let front = steps.drop_last();
                assert(front[at] == steps[at]);
                needs_come_before_the_write(front, root_commit, root_operation, seen, at);
                assert(front.take(left.len() as int) =~= steps.take(left.len() as int));
                assert forall|i: int| left.len() <= i < steps.len() implies match #[trigger] steps[i] {
                    ImportStepModel::Visit { kind, id } => is_there(
                        kind,
                        id,
                        root_commit,
                        root_operation,
                        seen,
                    ),
                    _ => false,
                } by {
                    if i < front.len() {
                        assert(front[i] == steps[i]);
                    }
                }
            } else {
                assert(steps.take(steps.len() as int) =~= steps);
            }
        },
        _ => {
            assert(steps.take(steps.len() as int) =~= steps);
        },
    }
}

/// Whether what was written has the id that it had.
pub fn check_identity(kind: u16, stored: &[u8], id: &[u8]) -> (r: Result<(), String>)
    ensures
        match r {
            Ok(_) => stored@ == id@,
            Err(m) => stored@ != id@ && m@ == (if kind == KIND_OPERATION {
                "operation import mismatch"@
            } else {
                "native cache import changed identity"@
            }),
        },
{
    if same_bytes(stored, id) {
        Ok(())
    } else if kind == KIND_OPERATION {
        Err("operation import mismatch".to_owned())
    } else {
        Err("native cache import changed identity".to_owned())
    }
}

/// Whether the view that was written has the id that it had.
pub fn check_view_identity(stored: &[u8], id: &[u8]) -> (r: Result<(), String>)
    ensures
        match r {
            Ok(_) => stored@ == id@,
            Err(m) => stored@ != id@ && m@ == "view import mismatch"@,
        },
{
    if same_bytes(stored, id) {
        Ok(())
    } else {
        Err("view import mismatch".to_owned())
    }
}

// ─── Finding a published change again ─────────────────────────────────────────

/// Whether the server says that the workspace published the operation.
pub fn check_attribution(state: &HeadsState, name: &str, expected: &[u8]) -> (r: Result<(), String>)
    ensures
        match r {
            Ok(_) => state.workspace_heads@.contains_key(name@) && state.workspace_heads@[name@]
                == expected@,
            Err(m) => if state.workspace_heads@.contains_key(name@) {
                state.workspace_heads@[name@] != expected@ && m@
                    == "server attributed a different operation identity"@
            } else {
                m@ == "missing published workspace operation"@
            },
        },
{
    match state.workspace_heads.get(name) {
        None => Err("missing published workspace operation".to_owned()),
        Some(wanted) => {
            if same_bytes(wanted.as_slice(), expected) {
                Ok(())
            } else {
                Err("server attributed a different operation identity".to_owned())
            }
        },
    }
}

/// The search for the operation of a workspace below the heads that the server gave.
#[derive(Debug, PartialEq, Eq)]
pub struct PublishedSearch {
    walk: ReachWalk,
    wanted: Vec<u8>,
}

impl PublishedSearch {
    pub closed spec fn queue(self) -> Seq<Seq<u8>> {
        self.walk.queue()
    }

    pub closed spec fn seen(self) -> Seq<Seq<u8>> {
        self.walk.seen()
    }

    pub closed spec fn wanted(self) -> Seq<u8> {
        self.wanted@
    }

    /// A search for the operation that the workspace published, if the server
    /// attributes it to the workspace.
    pub fn new(state: &HeadsState, name: &str, expected: &[u8]) -> (r: Result<Self, String>)
        ensures
            match r {
                Ok(search) => {
                    &&& state.workspace_heads@.contains_key(name@)
                    &&& state.workspace_heads@[name@] == expected@
                    &&& search.wanted() == expected@
                    &&& search.queue() == models(state.heads@)
                    &&& search.seen() == Seq::<Seq<u8>>::empty()
                },
                Err(m) => if state.workspace_heads@.contains_key(name@) {
                    state.workspace_heads@[name@] != expected@ && m@
                        == "server attributed a different operation identity"@
                } else {
                    m@ == "missing published workspace operation"@
                },
            },
    {
        match check_attribution(state, name, expected) {
            Ok(_) => Ok(
                PublishedSearch { walk: ReachWalk::new(&state.heads), wanted: copied(expected) },
            ),
            Err(m) => Err(m),
        }
    }

    /// The next operation to read, which is neither the root nor was read before.
    pub fn next(&mut self, root: &[u8]) -> (r: Result<Vec<u8>, String>)
        ensures
            final(self).wanted() == old(self).wanted(),
            match r {
                Ok(id) => next_of(old(self).queue(), old(self).seen(), Some(root@)) == Some(
                    (id@, final(self).queue()),
                ) && final(self).seen() == old(self).seen().push(id@),
                Err(m) => {
                    &&& next_of(old(self).queue(), old(self).seen(), Some(root@)) is None
                    &&& final(self).queue() == Seq::<Seq<u8>>::empty()
                    &&& final(self).seen() == old(self).seen()
                    &&& m@ == "workspace operation is unreachable from current heads"@
                },
            },
    {
        match self.walk.next(Some(root)) {
            Some(id) => Ok(id),
            None => Err("workspace operation is unreachable from current heads".to_owned()),
        }
    }

    /// An operation was read. If it is the one, its view is what to look at; if not,
    /// its parents are searched too.
    pub fn took(&mut self, id: &[u8], operation: &Operation) -> (r: Option<Vec<u8>>)
        ensures
            final(self).wanted() == old(self).wanted(),
            final(self).seen() == old(self).seen(),
            match r {
                Some(view) => {
                    &&& id@ == old(self).wanted()
                    &&& view@ == operation.view_id@
                    &&& final(self).queue() == old(self).queue()
                },
                None => {
                    &&& id@ != old(self).wanted()
                    &&& final(self).queue() == old(self).queue() + models(operation.parents@)
                },
            },
    {
        if same_bytes(id, self.wanted.as_slice()) {
            Some(copied(operation.view_id.as_slice()))
        } else {
            self.walk.took(&operation.parents);
            None
        }
    }
}

/// A search that has lost nothing, has not met the operation and finds nothing more
/// is right to say that the operation is below no head.
pub proof fn an_operation_that_is_not_found_is_not_there(
    heads: Seq<Seq<u8>>,
    parents: spec_fn(Seq<u8>) -> Seq<Seq<u8>>,
    root: Seq<u8>,
    seen: Seq<Seq<u8>>,
    queue: Seq<Seq<u8>>,
    wanted: Seq<u8>,
)
    requires
        whole(heads, parents, Some(root), seen, queue),
        next_of(queue, seen, Some(root)) is None,
        !seen.contains(wanted),
        wanted != root,
    ensures
        !below(heads, parents, Some(root), wanted),
{
    if below(heads, parents, Some(root), wanted) {
        let n = choose|n: nat| reaches(heads, parents, Some(root), wanted, n);
        a_finished_walk_has_seen_everything(heads, parents, Some(root), seen, queue, wanted, n);
    }
}

/// Whether the view of the operation has the commit checked out in the workspace.
pub fn check_published_commit(view: &RepoView, name: &str, commit: &[u8]) -> (r: Result<(), String>)
    ensures
        match r {
            Ok(_) => view.wc_commit_ids@.contains_key(name@) && view.wc_commit_ids@[name@]
                == commit@,
            Err(m) => !(view.wc_commit_ids@.contains_key(name@) && view.wc_commit_ids@[name@]
                == commit@) && m@ == "published view identifies a different commit"@,
        },
{
    match view.wc_commit_ids.get(name) {
        Some(shown) => {
            if same_bytes(shown.as_slice(), commit) {
                Ok(())
            } else {
                Err("published view identifies a different commit".to_owned())
            }
        },
        None => Err("published view identifies a different commit".to_owned()),
    }
}

/// Whether the file holds what was written.
pub fn check_published_bytes(read: &[u8], bytes: &[u8]) -> (r: Result<(), String>)
    ensures
        match r {
            Ok(_) => read@ == bytes@,
            Err(m) => read@ != bytes@ && m@ == "published file bytes differ"@,
        },
{
    if same_bytes(read, bytes) {
        Ok(())
    } else {
        Err("published file bytes differ".to_owned())
    }
}

/// Where a path goes on from a tree.
#[derive(Debug, Clone, PartialEq, Eq)]
pub enum Descent {
    Tree(Vec<u8>),
    File(Vec<u8>),
    Unexpected,
}

/// The place of the first entry of that name.
pub open spec fn is_first_named(
    tree: Seq<(Seq<char>, TreeValueModel)>,
    name: Seq<char>,
    at: int,
) -> bool {
    0 <= at < tree.len() && tree[at].0 == name && forall|i: int|
        0 <= i < at ==> (#[trigger] tree[i]).0 != name
}

/// Go on from a tree to the entry of that name, which is there.
pub fn descend(tree: &Tree, name: &str) -> (r: Descent)
    requires
        exists|i: int| 0 <= i < tree@.len() && (#[trigger] tree@[i]).0 == name@,
    ensures
        exists|at: int| #[trigger]
            is_first_named(tree@, name@, at) && match tree@[at].1 {
                TreeValueModel::Tree(id) => r matches Descent::Tree(next) && next@ == id,
                TreeValueModel::File { id, .. } => r matches Descent::File(file) && file@ == id,
                _ => r == Descent::Unexpected,
            },
{
    let ghost there = choose|i: int| 0 <= i < tree@.len() && (#[trigger] tree@[i]).0 == name@;
    let total: usize = tree.entries.len();
    let mut i: usize = 0;
    while !same_text(tree.entries[i].0.as_str(), name)
        invariant
            total == tree.entries@.len(),
            tree@.len() == tree.entries@.len(),
            0 <= there < tree@.len(),
            tree@[there].0 == name@,
            i <= there,
            i < tree.entries@.len(),
            forall|j: int| 0 <= j < i ==> (#[trigger] tree@[j]).0 != name@,
        decreases there - i,
    {
        assert(tree@[i as int].0 == tree.entries@[i as int].0@);
        i = i + 1;
    }
    assert(tree@[i as int] == (tree.entries@[i as int].0@, tree.entries@[i as int].1@));
    assert(is_first_named(tree@, name@, i as int));
    match &tree.entries[i].1 {
        TreeValue::Tree(id) => Descent::Tree(copied(id.as_slice())),
        TreeValue::File { id, .. } => Descent::File(copied(id.as_slice())),
        _ => Descent::Unexpected,
    }
}

} // verus!
