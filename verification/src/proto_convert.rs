//! The protobuf forms of trees, commits and operations, and the values they
//! stand for.
//!
//! A form holds what is on the wire, field by field; a value holds what jj works
//! with. `prost` turns forms into bytes and back. What it writes takes pages to
//! say, so its results have names here, beside one fact: what it writes of a form
//! it reads back as that form.
use vstd::prelude::*;
use vstd::string::*;

use jj_lib::backend;
use jj_lib::backend::{CommitId, MillisSinceEpoch};
use jj_lib::content_hash::blake2b_hash;
use jj_lib::op_store;
use jj_lib::op_store::{OperationId, TimestampRange, ViewId};
use jj_lib::protos::simple_op_store;
use jj_lib::protos::simple_store;
use prost::Message;

use crate::faults::bytes_view;
use crate::ids::{id_entries, IdMap, OPERATION_ID_LENGTH, VIEW_ID_LENGTH};
use crate::order::{copied, copied_ids, entries_map, TextMap};
use crate::text::{chars_of, decimal, is_blank, models, push_decimal};

verus! {

/// The error that `prost` reports for bytes that are no message.
#[verifier::external_type_specification]
#[verifier::external_body]
pub struct ExDecodeError(prost::DecodeError);

// ─── Trees ────────────────────────────────────────────────────────────────────

/// What stands at a name of a tree.
#[derive(Debug, Clone, PartialEq, Eq)]
pub enum TreeValue {
    File { id: Vec<u8>, executable: bool, copy_id: Vec<u8> },
    Symlink(Vec<u8>),
    Tree(Vec<u8>),
    GitSubmodule(Vec<u8>),
}

pub enum TreeValueModel {
    File { id: Seq<u8>, executable: bool, copy_id: Seq<u8> },
    Symlink(Seq<u8>),
    Tree(Seq<u8>),
    GitSubmodule(Seq<u8>),
}

impl View for TreeValue {
    type V = TreeValueModel;

    open spec fn view(&self) -> TreeValueModel {
        match self {
            TreeValue::File { id, executable, copy_id } => TreeValueModel::File {
                id: id@,
                executable: *executable,
                copy_id: copy_id@,
            },
            TreeValue::Symlink(id) => TreeValueModel::Symlink(id@),
            TreeValue::Tree(id) => TreeValueModel::Tree(id@),
            TreeValue::GitSubmodule(id) => TreeValueModel::GitSubmodule(id@),
        }
    }
}

/// A tree: names and what stands at them, in the order of the names.
#[derive(Debug, Clone, PartialEq, Eq)]
pub struct Tree {
    pub entries: Vec<(String, TreeValue)>,
}

pub open spec fn tree_entries(entries: Seq<(String, TreeValue)>) -> Seq<
    (Seq<char>, TreeValueModel),
> {
    entries.map_values(|e: (String, TreeValue)| (e.0@, e.1@))
}

impl View for Tree {
    type V = Seq<(Seq<char>, TreeValueModel)>;

    open spec fn view(&self) -> Seq<(Seq<char>, TreeValueModel)> {
        tree_entries(self.entries@)
    }
}

/// A tree value on the wire. It has no form for a Git submodule.
#[derive(Debug, Clone, PartialEq, Eq)]
pub enum TreeValueForm {
    File { id: Vec<u8>, executable: bool, copy_id: Vec<u8> },
    SymlinkId(Vec<u8>),
    TreeId(Vec<u8>),
}

pub enum TreeValueFormModel {
    File { id: Seq<u8>, executable: bool, copy_id: Seq<u8> },
    SymlinkId(Seq<u8>),
    TreeId(Seq<u8>),
}

impl View for TreeValueForm {
    type V = TreeValueFormModel;

    open spec fn view(&self) -> TreeValueFormModel {
        match self {
            TreeValueForm::File { id, executable, copy_id } => TreeValueFormModel::File {
                id: id@,
                executable: *executable,
                copy_id: copy_id@,
            },
            TreeValueForm::SymlinkId(id) => TreeValueFormModel::SymlinkId(id@),
            TreeValueForm::TreeId(id) => TreeValueFormModel::TreeId(id@),
        }
    }
}

/// A tree on the wire. The value of an entry may be missing, and so may what is
/// inside it.
#[derive(Debug, Clone, PartialEq, Eq)]
pub struct TreeForm {
    pub entries: Vec<(String, Option<Option<TreeValueForm>>)>,
}

pub open spec fn entry_model(e: (String, Option<Option<TreeValueForm>>)) -> (
    Seq<char>,
    Option<Option<TreeValueFormModel>>,
) {
    (
        e.0@,
        match e.1 {
            Some(Some(v)) => Some(Some(v@)),
            Some(None) => Some(None),
            None => None,
        },
    )
}

impl View for TreeForm {
    type V = Seq<(Seq<char>, Option<Option<TreeValueFormModel>>)>;

    open spec fn view(&self) -> Seq<(Seq<char>, Option<Option<TreeValueFormModel>>)> {
        self.entries@.map_values(
            |e: (String, Option<Option<TreeValueForm>>)| entry_model(e),
        )
    }
}

/// The form of a tree value.
pub open spec fn value_form(value: TreeValueModel) -> Option<TreeValueFormModel> {
    match value {
        TreeValueModel::File { id, executable, copy_id } => Some(
            TreeValueFormModel::File { id, executable, copy_id },
        ),
        TreeValueModel::Symlink(id) => Some(TreeValueFormModel::SymlinkId(id)),
        TreeValueModel::Tree(id) => Some(TreeValueFormModel::TreeId(id)),
        TreeValueModel::GitSubmodule(_) => None,
    }
}

/// The value that a form stands for.
pub open spec fn formed_value(form: TreeValueFormModel) -> TreeValueModel {
    match form {
        TreeValueFormModel::File { id, executable, copy_id } => TreeValueModel::File {
            id,
            executable,
            copy_id,
        },
        TreeValueFormModel::SymlinkId(id) => TreeValueModel::Symlink(id),
        TreeValueFormModel::TreeId(id) => TreeValueModel::Tree(id),
    }
}

/// A tree that can be stored: it holds no Git submodule.
pub open spec fn storable(tree: Seq<(Seq<char>, TreeValueModel)>) -> bool {
    forall|i: int| 0 <= i < tree.len() ==> !((#[trigger] tree[i]).1 is GitSubmodule)
}

/// The form of a tree.
pub open spec fn tree_form(tree: Seq<(Seq<char>, TreeValueModel)>) -> Seq<
    (Seq<char>, Option<Option<TreeValueFormModel>>),
> {
    tree.map_values(
        |e: (Seq<char>, TreeValueModel)|
            (e.0, Some(value_form(e.1))),
    )
}

/// A name that a tree can have: not empty, and without a slash.
pub open spec fn is_component(name: Seq<char>) -> bool {
    name.len() > 0 && !name.contains('/')
}

/// A form that stands for a tree: every value is there, and every name can be
/// one.
pub open spec fn is_tree_form(form: Seq<(Seq<char>, Option<Option<TreeValueFormModel>>)>) -> bool {
    forall|i: int|
        0 <= i < form.len() ==> is_component((#[trigger] form[i]).0) && (form[i].1 matches Some(
            Some(_),
        ))
}

/// The tree that a form stands for.
pub open spec fn formed_tree(form: Seq<(Seq<char>, Option<Option<TreeValueFormModel>>)>) -> Seq<
    (Seq<char>, TreeValueModel),
> {
    form.map_values(
        |e: (Seq<char>, Option<Option<TreeValueFormModel>>)| (e.0, formed_value(e.1->0->0)),
    )
}

fn tree_value_to_proto(value: &TreeValue) -> (r: TreeValueForm)
    requires
        !(value@ is GitSubmodule),
    ensures
        value_form(value@) == Some(r@),
        match (*value, r) {
            (
                TreeValue::File { id, executable, copy_id },
                TreeValueForm::File { id: at, executable: runs, copy_id: copy },
            ) => runs == executable && at@ == id@ && copy@ == copy_id@,
            (TreeValue::Symlink(id), TreeValueForm::SymlinkId(at)) => at@ == id@,
            (TreeValue::Tree(id), TreeValueForm::TreeId(at)) => at@ == id@,
            _ => false,
        },
{
    match value {
        TreeValue::File { id, executable, copy_id } => TreeValueForm::File {
            id: copied(id.as_slice()),
            executable: *executable,
            copy_id: copied(copy_id.as_slice()),
        },
        TreeValue::Symlink(id) => TreeValueForm::SymlinkId(copied(id.as_slice())),
        TreeValue::Tree(id) => TreeValueForm::TreeId(copied(id.as_slice())),
        TreeValue::GitSubmodule(_) => TreeValueForm::TreeId(Vec::new()),
    }
}

fn tree_value_from_proto(form: &TreeValueForm) -> (r: TreeValue)
    ensures
        r@ == formed_value(form@),
        match (r, *form) {
            (
                TreeValue::File { id, executable, copy_id },
                TreeValueForm::File { id: at, executable: runs, copy_id: copy },
            ) => runs == executable && at@ == id@ && copy@ == copy_id@,
            (TreeValue::Symlink(id), TreeValueForm::SymlinkId(at)) => at@ == id@,
            (TreeValue::Tree(id), TreeValueForm::TreeId(at)) => at@ == id@,
            _ => false,
        },
{
    match form {
        TreeValueForm::TreeId(id) => TreeValue::Tree(copied(id.as_slice())),
        TreeValueForm::File { id, executable, copy_id } => TreeValue::File {
            id: copied(id.as_slice()),
            executable: *executable,
            copy_id: copied(copy_id.as_slice()),
        },
        TreeValueForm::SymlinkId(id) => TreeValue::Symlink(copied(id.as_slice())),
    }
}

/// The form of a tree. A Git submodule has none.
pub fn tree_to_proto(tree: &Tree) -> (form: TreeForm)
    requires
        storable(tree@),
    ensures
        form@ == tree_form(tree@),
        form.entries@.len() == tree.entries@.len(),
        forall|i: int|
            0 <= i < form.entries@.len() ==> (#[trigger] form.entries@[i]).0@ == tree.entries@[i].0@
                && match (tree.entries@[i].1, form.entries@[i].1) {
                (
                    TreeValue::File { id, executable, copy_id },
                    Some(Some(TreeValueForm::File { id: at, executable: runs, copy_id: copy })),
                ) => runs == executable && at@ == id@ && copy@ == copy_id@,
                (TreeValue::Symlink(id), Some(Some(TreeValueForm::SymlinkId(at)))) => at@ == id@,
                (TreeValue::Tree(id), Some(Some(TreeValueForm::TreeId(at)))) => at@ == id@,
                _ => false,
            },
{
    let mut entries: Vec<(String, Option<Option<TreeValueForm>>)> = Vec::new();
    let mut i: usize = 0;
    while i < tree.entries.len()
        invariant
            i <= tree.entries@.len(),
            storable(tree@),
            entries@.len() == i,
            forall|j: int|
                0 <= j < i ==> entry_model(#[trigger] entries@[j]) == tree_form(tree@)[j],
            forall|j: int|
                0 <= j < i ==> (#[trigger] entries@[j]).0@ == tree.entries@[j].0@ && match (
                    tree.entries@[j].1,
                    entries@[j].1,
                ) {
                    (
                        TreeValue::File { id, executable, copy_id },
                        Some(Some(TreeValueForm::File { id: at, executable: runs, copy_id: copy })),
                    ) => runs == executable && at@ == id@ && copy@ == copy_id@,
                    (TreeValue::Symlink(id), Some(Some(TreeValueForm::SymlinkId(at)))) => at@ == id@,
                    (TreeValue::Tree(id), Some(Some(TreeValueForm::TreeId(at)))) => at@ == id@,
                    _ => false,
                },
        decreases tree.entries@.len() - i,
    {
        assert(tree@[i as int] == (tree.entries@[i as int].0@, tree.entries@[i as int].1@));
        let value = tree_value_to_proto(&tree.entries[i].1);
        entries.push((tree.entries[i].0.clone(), Some(Some(value))));
        i = i + 1;
    }
    let form = TreeForm { entries };
    assert(form@ =~= tree_form(tree@)) by {
        assert forall|j: int| 0 <= j < form@.len() implies form@[j] == tree_form(tree@)[j] by {
            assert(form@[j] == entry_model(entries@[j]));
        }
    }
    form
}

/// Whether a form stands for a tree.
pub fn is_valid_tree(form: &TreeForm) -> (r: bool)
    ensures
        r == is_tree_form(form@),
{
    let mut i: usize = 0;
    while i < form.entries.len()
        invariant
            i <= form.entries@.len(),
            forall|j: int|
                0 <= j < i ==> is_component((#[trigger] form@[j]).0) && (form@[j].1 matches Some(
                    Some(_),
                )),
        decreases form.entries@.len() - i,
    {
        assert(form@[i as int] == entry_model(form.entries@[i as int]));
        let there = match &form.entries[i].1 {
            Some(Some(_)) => true,
            _ => false,
        };
        if !there || !is_name(form.entries[i].0.as_str()) {
            return false;
        }
        i = i + 1;
    }
    true
}

fn is_name(name: &str) -> (r: bool)
    ensures
        r == is_component(name@),
{
    let chars = chars_of(name);
    if chars.len() == 0 {
        return false;
    }
    let mut i: usize = 0;
    while i < chars.len()
        invariant
            i <= chars@.len(),
            chars@ == name@,
            forall|j: int| 0 <= j < i ==> #[trigger] chars@[j] != '/',
        decreases chars@.len() - i,
    {
        if chars[i] == '/' {
            assert(name@[i as int] == '/');
            return false;
        }
        i = i + 1;
    }
    proof {
        if name@.contains('/') {
            let j = choose|j: int| 0 <= j < name@.len() && name@[j] == '/';
            assert(chars@[j] == '/');
        }
    }
    true
}

/// The tree that a form stands for.
pub fn tree_from_proto(form: &TreeForm) -> (tree: Tree)
    requires
        is_tree_form(form@),
    ensures
        tree@ == formed_tree(form@),
        tree.entries@.len() == form.entries@.len(),
        forall|i: int|
            0 <= i < tree.entries@.len() ==> (#[trigger] tree.entries@[i]).0@ == form.entries@[i].0@
                && match (tree.entries@[i].1, form.entries@[i].1) {
                (
                    TreeValue::File { id, executable, copy_id },
                    Some(Some(TreeValueForm::File { id: at, executable: runs, copy_id: copy })),
                ) => runs == executable && at@ == id@ && copy@ == copy_id@,
                (TreeValue::Symlink(id), Some(Some(TreeValueForm::SymlinkId(at)))) => at@ == id@,
                (TreeValue::Tree(id), Some(Some(TreeValueForm::TreeId(at)))) => at@ == id@,
                _ => false,
            },
{
    let mut entries: Vec<(String, TreeValue)> = Vec::new();
    let mut i: usize = 0;
    while i < form.entries.len()
        invariant
            i <= form.entries@.len(),
            is_tree_form(form@),
            tree_entries(entries@) == formed_tree(form@).take(i as int),
            entries@.len() == i,
            forall|j: int|
                0 <= j < i ==> (#[trigger] entries@[j]).0@ == form.entries@[j].0@ && match (
                    entries@[j].1,
                    form.entries@[j].1,
                ) {
                    (
                        TreeValue::File { id, executable, copy_id },
                        Some(Some(TreeValueForm::File { id: at, executable: runs, copy_id: copy })),
                    ) => runs == executable && at@ == id@ && copy@ == copy_id@,
                    (TreeValue::Symlink(id), Some(Some(TreeValueForm::SymlinkId(at)))) => at@ == id@,
                    (TreeValue::Tree(id), Some(Some(TreeValueForm::TreeId(at)))) => at@ == id@,
                    _ => false,
                },
        decreases form.entries@.len() - i,
    {
        let ghost before = tree_entries(entries@);
        assert(form@[i as int] == entry_model(form.entries@[i as int]));
        match &form.entries[i].1 {
            Some(Some(value)) => {
                let value = tree_value_from_proto(value);
                let ghost now = (form.entries@[i as int].0@, value@);
                entries.push((form.entries[i].0.clone(), value));
                assert(tree_entries(entries@) =~= before.push(now));
                assert(formed_tree(form@).take(i + 1) =~= before.push(now));
            },
            _ => {
                assert(false);
            },
        }
        i = i + 1;
    }
    assert(formed_tree(form@).take(i as int) =~= formed_tree(form@));
    Tree { entries }
}

/// The value read from a message is what the message says: a file with the message's
/// own id, flag and copy id, a symlink or a tree with the message's own id.
pub proof fn a_value_is_what_its_message_says(form: TreeValueFormModel)
    ensures
        match form {
            TreeValueFormModel::File { id, executable, copy_id } => formed_value(
                form,
            ) matches TreeValueModel::File { id: at, executable: runs, copy_id: copy } && at == id
                && runs == executable && copy == copy_id,
            TreeValueFormModel::SymlinkId(id) => formed_value(form) == TreeValueModel::Symlink(id),
            TreeValueFormModel::TreeId(id) => formed_value(form) == TreeValueModel::Tree(id),
        },
{
}

/// The message written for a value says what the value is: for a file the file's own
/// id, flag and copy id, for a symlink or a tree its own id. A Git submodule has none.
pub proof fn a_message_says_what_the_value_is(value: TreeValueModel)
    ensures
        match value {
            TreeValueModel::File { id, executable, copy_id } => value_form(value) matches Some(
                TreeValueFormModel::File { id: at, executable: runs, copy_id: copy },
            ) && at == id && runs == executable && copy == copy_id,
            TreeValueModel::Symlink(id) => value_form(value) == Some(
                TreeValueFormModel::SymlinkId(id),
            ),
            TreeValueModel::Tree(id) => value_form(value) == Some(TreeValueFormModel::TreeId(id)),
            TreeValueModel::GitSubmodule(_) => value_form(value) is None,
        },
{
}

/// A tree has the entries of its message: as many, under the same names and in the same
/// order, a file where the message has a file, with the same flag and the same ids, and
/// so for symlinks and trees.
pub proof fn a_tree_has_the_entries_of_its_message(
    form: Seq<(Seq<char>, Option<Option<TreeValueFormModel>>)>,
    tree: Seq<(Seq<char>, TreeValueModel)>,
    i: int,
)
    requires
        is_tree_form(form) && tree == formed_tree(form) || storable(tree) && form == tree_form(
            tree,
        ),
        0 <= i < form.len(),
    ensures
        tree.len() == form.len(),
        tree[i].0 == form[i].0,
        match (tree[i].1, form[i].1) {
            (
                TreeValueModel::File { id, executable, copy_id },
                Some(Some(TreeValueFormModel::File { id: at, executable: runs, copy_id: copy })),
            ) => at == id && runs == executable && copy == copy_id,
            (TreeValueModel::Symlink(id), Some(Some(TreeValueFormModel::SymlinkId(at)))) => at
                == id,
            (TreeValueModel::Tree(id), Some(Some(TreeValueFormModel::TreeId(at)))) => at == id,
            _ => false,
        },
{
    if storable(tree) && form == tree_form(tree) {
        assert(tree.len() == form.len());
        assert(!(tree[i].1 is GitSubmodule));
        assert(form[i] == (tree[i].0, Some(value_form(tree[i].1))));
    } else {
        assert(form[i].1 matches Some(Some(_)));
        assert(tree[i] == (form[i].0, formed_value(form[i].1->0->0)));
    }
}

/// A tree that can be stored comes back from its form as it was.
pub proof fn trees_read_back(tree: Seq<(Seq<char>, TreeValueModel)>)
    requires
        storable(tree),
    ensures
        formed_tree(tree_form(tree)) == tree,
{
    let back = formed_tree(tree_form(tree));
    assert forall|i: int| 0 <= i < tree.len() implies back[i] == tree[i] by {
        assert(!(tree[i].1 is GitSubmodule));
        assert(tree_form(tree)[i] == (tree[i].0, Some(value_form(tree[i].1))));
    }
    assert(back =~= tree);
}

/// The bytes that `prost` writes for a tree.
pub uninterp spec fn tree_bytes(
    form: Seq<(Seq<char>, Option<Option<TreeValueFormModel>>)>,
) -> Seq<u8>;

/// The tree that `prost` reads from some bytes, where they are one.
pub uninterp spec fn tree_read(bytes: Seq<u8>) -> Option<
    Seq<(Seq<char>, Option<Option<TreeValueFormModel>>)>,
>;

/// `prost::Message::encode_to_vec` of a `jj_lib::protos::simple_store::Tree`. The
/// bytes are a function of the fields, and they read back as the same tree.
#[verifier::external_body]
pub(crate) fn encode_tree(form: &TreeForm) -> (bytes: Vec<u8>)
    ensures
        bytes@ == tree_bytes(form@),
        tree_read(bytes@) == Some(form@),
{
    let form = form.clone();
    let value = |v: TreeValueForm| match v {
        TreeValueForm::File { id, executable, copy_id } =>
            simple_store::tree_value::Value::File(
                simple_store::tree_value::File { id, executable, copy_id }),
        TreeValueForm::SymlinkId(id) => simple_store::tree_value::Value::SymlinkId(id),
        TreeValueForm::TreeId(id) => simple_store::tree_value::Value::TreeId(id),
    };
    let entries = form.entries.into_iter().map(|(name, v)| simple_store::tree::Entry {
        name, value: v.map(|v| simple_store::TreeValue { value: v.map(value) }) }).collect();
    simple_store::Tree { entries }.encode_to_vec()
}

/// `prost::Message::decode` of a `jj_lib::protos::simple_store::Tree`.
#[verifier::external_body]
pub(crate) fn decode_tree(bytes: &[u8]) -> (r: Result<TreeForm, prost::DecodeError>)
    ensures
        match r {
            Ok(form) => tree_read(bytes@) == Some(form@),
            Err(_) => tree_read(bytes@) is None,
        },
{
    let value = |v: simple_store::tree_value::Value| match v {
        simple_store::tree_value::Value::File(f) =>
            TreeValueForm::File { id: f.id, executable: f.executable, copy_id: f.copy_id },
        simple_store::tree_value::Value::SymlinkId(id) => TreeValueForm::SymlinkId(id),
        simple_store::tree_value::Value::TreeId(id) => TreeValueForm::TreeId(id),
    };
    let tree = simple_store::Tree::decode(bytes)?;
    let entries = tree.entries.into_iter().map(|e| (e.name, e.value.map(|v| v.value.map(value))));
    Ok(TreeForm { entries: entries.collect() })
}

/// Write a tree.
pub fn write_tree(tree: &Tree) -> (bytes: Vec<u8>)
    requires
        storable(tree@),
    ensures
        bytes@ == tree_bytes(tree_form(tree@)),
        tree_read(bytes@) == Some(tree_form(tree@)),
{
    let form = tree_to_proto(tree);
    encode_tree(&form)
}

/// Read a tree from the bytes that a client sent or a server answered.
pub fn read_tree(bytes: &[u8]) -> (r: Result<Tree, MessageError>)
    ensures
        match tree_read(bytes@) {
            None => r == Err::<Tree, MessageError>(MessageError::Decode),
            Some(form) => if is_tree_form(form) {
                r matches Ok(tree) && tree@ == formed_tree(form)
            } else {
                r == Err::<Tree, MessageError>(MessageError::Malformed)
            },
        },
        r matches Ok(tree) ==> tree_read(bytes@) matches Some(form) && tree.entries@.len()
            == form.len() && forall|i: int|
            0 <= i < form.len() ==> (#[trigger] tree.entries@[i]).0@ == form[i].0 && match (
                tree.entries@[i].1,
                form[i].1,
            ) {
                (
                    TreeValue::File { id, executable, copy_id },
                    Some(Some(TreeValueFormModel::File { id: at, executable: runs, copy_id: copy })),
                ) => runs == executable && at == id@ && copy == copy_id@,
                (TreeValue::Symlink(id), Some(Some(TreeValueFormModel::SymlinkId(at)))) => at == id@,
                (TreeValue::Tree(id), Some(Some(TreeValueFormModel::TreeId(at)))) => at == id@,
                _ => false,
            },
{
    match decode_tree(bytes) {
        Err(_) => Err(MessageError::Decode),
        Ok(form) => {
            if is_valid_tree(&form) {
                Ok(tree_from_proto(&form))
            } else {
                Err(MessageError::Malformed)
            }
        },
    }
}

/// What is written of a tree is read as that tree, as long as its names can be
/// names.
pub proof fn written_trees_read_back(tree: Seq<(Seq<char>, TreeValueModel)>)
    requires
        storable(tree),
        forall|i: int| 0 <= i < tree.len() ==> is_component((#[trigger] tree[i]).0),
    ensures
        is_tree_form(tree_form(tree)),
        formed_tree(tree_form(tree)) == tree,
{
    trees_read_back(tree);
    let form = tree_form(tree);
    assert forall|i: int| 0 <= i < form.len() implies is_component((#[trigger] form[i]).0) && (
    form[i].1 matches Some(Some(_))) by {
        assert(is_component(tree[i].0));
        assert(!(tree[i].1 is GitSubmodule));
    }
}

// ─── Commits ──────────────────────────────────────────────────────────────────

/// A point in time, and the zone it was noted in.
#[derive(Debug, Clone, Copy, PartialEq, Eq, Structural)]
pub struct Timestamp {
    pub millis_since_epoch: i64,
    pub tz_offset: i32,
}

pub open spec fn epoch() -> Timestamp {
    Timestamp { millis_since_epoch: 0, tz_offset: 0 }
}

#[derive(Debug, Clone, PartialEq, Eq)]
pub struct Signature {
    pub name: String,
    pub email: String,
    pub timestamp: Timestamp,
}

/// A signature on the wire. Where it says no time it means the epoch.
#[derive(Debug, Clone, PartialEq, Eq)]
pub struct SignatureForm {
    pub name: String,
    pub email: String,
    pub timestamp: Option<Timestamp>,
}

pub struct SignatureModel {
    pub name: Seq<char>,
    pub email: Seq<char>,
    pub timestamp: Timestamp,
}

pub struct SignatureFormModel {
    pub name: Seq<char>,
    pub email: Seq<char>,
    pub timestamp: Option<Timestamp>,
}

impl View for Signature {
    type V = SignatureModel;

    open spec fn view(&self) -> SignatureModel {
        SignatureModel { name: self.name@, email: self.email@, timestamp: self.timestamp }
    }
}

impl View for SignatureForm {
    type V = SignatureFormModel;

    open spec fn view(&self) -> SignatureFormModel {
        SignatureFormModel { name: self.name@, email: self.email@, timestamp: self.timestamp }
    }
}

pub open spec fn or_epoch(timestamp: Option<Timestamp>) -> Timestamp {
    match timestamp {
        Some(t) => t,
        None => epoch(),
    }
}

/// The signature that a form stands for; an empty one where there is none.
pub open spec fn formed_signature(form: Option<SignatureFormModel>) -> SignatureModel {
    match form {
        Some(form) => SignatureModel {
            name: form.name,
            email: form.email,
            timestamp: or_epoch(form.timestamp),
        },
        None => SignatureModel { name: Seq::empty(), email: Seq::empty(), timestamp: epoch() },
    }
}

pub open spec fn signature_form(signature: SignatureModel) -> SignatureFormModel {
    SignatureFormModel {
        name: signature.name,
        email: signature.email,
        timestamp: Some(signature.timestamp),
    }
}

fn signature_from_proto(form: Option<SignatureForm>) -> (r: Signature)
    ensures
        r@ == formed_signature(
            match form {
                Some(form) => Some(form@),
                None => None,
            },
        ),
        match form {
            Some(form) => r.name@ == form.name@ && r.email@ == form.email@ && r.timestamp == (
            match form.timestamp {
                Some(t) => t,
                None => (Timestamp { millis_since_epoch: 0, tz_offset: 0 }),
            }),
            None => r.name@.len() == 0 && r.email@.len() == 0 && r.timestamp == (Timestamp {
                millis_since_epoch: 0,
                tz_offset: 0,
            }),
        },
{
    match form {
        Some(form) => Signature {
            name: form.name,
            email: form.email,
            timestamp: match form.timestamp {
                Some(t) => t,
                None => Timestamp { millis_since_epoch: 0, tz_offset: 0 },
            },
        },
        None => {
            proof {
                reveal_strlit("");
                assert(""@ =~= Seq::<char>::empty());
            }
            Signature {
                name: "".to_owned(),
                email: "".to_owned(),
                timestamp: Timestamp { millis_since_epoch: 0, tz_offset: 0 },
            }
        },
    }
}

/// The form of a signature.
pub fn signature_to_proto(signature: &Signature) -> (r: SignatureForm)
    ensures
        r@ == signature_form(signature@),
        r.name@ == signature.name@,
        r.email@ == signature.email@,
        r.timestamp == Some(signature.timestamp),
{
    SignatureForm {
        name: signature.name.clone(),
        email: signature.email.clone(),
        timestamp: Some(signature.timestamp),
    }
}

/// A signature comes back from its form as it was.
pub proof fn signatures_read_back(signature: SignatureModel)
    ensures
        formed_signature(Some(signature_form(signature))) == signature,
{
}

/// A commit on the wire.
#[derive(Debug, Clone, PartialEq, Eq)]
pub struct CommitForm {
    pub parents: Vec<Vec<u8>>,
    pub predecessors: Vec<Vec<u8>>,
    /// Alternating positive and negative terms.
    pub root_tree: Vec<Vec<u8>>,
    pub conflict_labels: Vec<String>,
    pub change_id: Vec<u8>,
    pub description: String,
    pub author: Option<SignatureForm>,
    pub committer: Option<SignatureForm>,
    pub secure_sig: Option<Vec<u8>>,
}

#[verifier::ext_equal]
pub struct CommitFormModel {
    pub parents: Seq<Seq<u8>>,
    pub predecessors: Seq<Seq<u8>>,
    pub root_tree: Seq<Seq<u8>>,
    pub conflict_labels: Seq<Seq<char>>,
    pub change_id: Seq<u8>,
    pub description: Seq<char>,
    pub author: Option<SignatureFormModel>,
    pub committer: Option<SignatureFormModel>,
    pub secure_sig: Option<Seq<u8>>,
}

pub open spec fn maybe_form(form: Option<SignatureForm>) -> Option<SignatureFormModel> {
    match form {
        Some(form) => Some(form@),
        None => None,
    }
}

impl View for CommitForm {
    type V = CommitFormModel;

    open spec fn view(&self) -> CommitFormModel {
        CommitFormModel {
            parents: models(self.parents@),
            predecessors: models(self.predecessors@),
            root_tree: models(self.root_tree@),
            conflict_labels: models(self.conflict_labels@),
            change_id: self.change_id@,
            description: self.description@,
            author: maybe_form(self.author),
            committer: maybe_form(self.committer),
            secure_sig: bytes_view(self.secure_sig),
        }
    }
}

/// A commit. Its signature, where it has one, is kept with the bytes that were
/// signed: the commit as it is written without the signature.
#[derive(Debug, Clone, PartialEq, Eq)]
pub struct Commit {
    pub parents: Vec<Vec<u8>>,
    pub predecessors: Vec<Vec<u8>>,
    pub root_tree: Vec<Vec<u8>>,
    pub conflict_labels: Vec<String>,
    pub change_id: Vec<u8>,
    pub description: String,
    pub author: Signature,
    pub committer: Signature,
    pub secure_sig: Option<SecureSig>,
}

#[derive(Debug, Clone, PartialEq, Eq)]
pub struct SecureSig {
    pub data: Vec<u8>,
    pub sig: Vec<u8>,
}

/// The bytes that `prost` writes for a commit.
pub uninterp spec fn commit_bytes(form: CommitFormModel) -> Seq<u8>;

/// The commit that `prost` reads from some bytes, where they are one.
pub uninterp spec fn commit_read(bytes: Seq<u8>) -> Option<CommitFormModel>;

/// `prost::Message::encode_to_vec` of a `jj_lib::protos::simple_store::Commit`.
/// The bytes are a function of the fields, and they read back as the same commit.
#[verifier::external_body]
pub(crate) fn encode_commit(form: &CommitForm) -> (bytes: Vec<u8>)
    ensures
        bytes@ == commit_bytes(form@),
        commit_read(bytes@) == Some(form@),
{
    let form = form.clone();
    let time = |t: Timestamp| simple_store::commit::Timestamp {
        millis_since_epoch: t.millis_since_epoch, tz_offset: t.tz_offset };
    let sign = |s: SignatureForm| simple_store::commit::Signature {
        name: s.name, email: s.email, timestamp: s.timestamp.map(time) };
    simple_store::Commit {
        parents: form.parents, predecessors: form.predecessors, root_tree: form.root_tree,
        conflict_labels: form.conflict_labels, change_id: form.change_id,
        description: form.description, author: form.author.map(sign),
        committer: form.committer.map(sign), secure_sig: form.secure_sig,
    }.encode_to_vec()
}

/// `prost::Message::decode` of a `jj_lib::protos::simple_store::Commit`.
#[verifier::external_body]
pub(crate) fn decode_commit(bytes: &[u8]) -> (r: Result<CommitForm, prost::DecodeError>)
    ensures
        match r {
            Ok(form) => commit_read(bytes@) == Some(form@),
            Err(_) => commit_read(bytes@) is None,
        },
{
    let c = simple_store::Commit::decode(bytes)?;
    let time = |t: simple_store::commit::Timestamp| Timestamp {
        millis_since_epoch: t.millis_since_epoch, tz_offset: t.tz_offset };
    let sign = |s: simple_store::commit::Signature| SignatureForm {
        name: s.name, email: s.email, timestamp: s.timestamp.map(time) };
    Ok(CommitForm {
        parents: c.parents, predecessors: c.predecessors, root_tree: c.root_tree,
        conflict_labels: c.conflict_labels, change_id: c.change_id, description: c.description,
        author: c.author.map(sign), committer: c.committer.map(sign), secure_sig: c.secure_sig,
    })
}

/// A form that stands for a commit: the terms of its tree alternate, so there is
/// an odd number of them, and so do its labels, where it has any.
pub open spec fn is_commit_form(form: CommitFormModel) -> bool {
    form.root_tree.len() % 2 == 1 && (form.conflict_labels.len() == 0 || form.conflict_labels.len()
        % 2 == 1)
}

/// The labels that a list stands for. A resolved tree has none, and neither has
/// one whose labels are all empty: a single empty label stands for that.
pub open spec fn formed_labels(labels: Seq<Seq<char>>) -> Seq<Seq<char>> {
    if labels.len() <= 1 || (forall|i: int| 0 <= i < labels.len() ==> (#[trigger] labels[i]).len()
        == 0) {
        seq![Seq::<char>::empty()]
    } else {
        labels
    }
}

/// Whether a commit is what a form stands for.
pub open spec fn is_formed_commit(commit: Commit, form: CommitFormModel) -> bool {
    &&& models(commit.parents@) == form.parents
    &&& models(commit.predecessors@) == form.predecessors
    &&& models(commit.root_tree@) == form.root_tree
    &&& models(commit.conflict_labels@) == formed_labels(form.conflict_labels)
    &&& commit.change_id@ == form.change_id
    &&& commit.description@ == form.description
    &&& commit.author@ == formed_signature(form.author)
    &&& commit.committer@ == formed_signature(form.committer)
    &&& match form.secure_sig {
        Some(sig) => commit.secure_sig matches Some(kept) && kept.sig@ == sig && kept.data@
            == commit_bytes(CommitFormModel { secure_sig: None, ..form }),
        None => commit.secure_sig is None,
    }
}

fn labels_from_proto(labels: Vec<String>) -> (r: Vec<String>)
    ensures
        models(r@) == formed_labels(models(labels@)),
{
    let mut blank = true;
    let mut i: usize = 0;
    while i < labels.len()
        invariant
            i <= labels@.len(),
            blank <==> forall|j: int|
                0 <= j < i ==> (#[trigger] models(labels@)[j]).len() == 0,
        decreases labels@.len() - i,
    {
        assert(models(labels@)[i as int] == labels@[i as int]@);
        if !is_blank(labels[i].as_str()) {
            blank = false;
        }
        i = i + 1;
    }
    if labels.len() <= 1 || blank {
        let mut none: Vec<String> = Vec::new();
        none.push("".to_owned());
        proof {
            reveal_strlit("");
            assert(""@ =~= Seq::<char>::empty());
            assert(models(none@) =~= seq![Seq::<char>::empty()]);
        }
        none
    } else {
        labels
    }
}

/// The commit that a form stands for.
pub fn commit_from_proto(form: CommitForm) -> (commit: Commit)
    requires
        is_commit_form(form@),
    ensures
        is_formed_commit(commit, form@),
        models(commit.parents@) == models(form.parents@),
        models(commit.predecessors@) == models(form.predecessors@),
        models(commit.root_tree@) == models(form.root_tree@),
        commit.change_id@ == form.change_id@,
        commit.description@ == form.description@,
        commit.secure_sig is Some <==> form.secure_sig is Some,
        match form.author {
            Some(said) => commit.author.name@ == said.name@ && commit.author.email@ == said.email@
                && commit.author.timestamp == (match said.timestamp {
                Some(t) => t,
                None => (Timestamp { millis_since_epoch: 0, tz_offset: 0 }),
            }),
            None => commit.author.name@.len() == 0 && commit.author.email@.len() == 0
                && commit.author.timestamp == (Timestamp { millis_since_epoch: 0, tz_offset: 0 }),
        },
        match form.committer {
            Some(said) => commit.committer.name@ == said.name@ && commit.committer.email@ == said.email@
                && commit.committer.timestamp == (match said.timestamp {
                Some(t) => t,
                None => (Timestamp { millis_since_epoch: 0, tz_offset: 0 }),
            }),
            None => commit.committer.name@.len() == 0 && commit.committer.email@.len() == 0
                && commit.committer.timestamp == (Timestamp { millis_since_epoch: 0, tz_offset: 0 }),
        },
{
    let ghost whole = form@;
    let mut unsigned = form;
    let signature = unsigned.secure_sig.take();
    let secure_sig = match signature {
        Some(sig) => {
            let data = encode_commit(&unsigned);
            assert(unsigned@ =~= CommitFormModel { secure_sig: None, ..whole });
            Some(SecureSig { data, sig })
        },
        None => None,
    };
    Commit {
        parents: unsigned.parents,
        predecessors: unsigned.predecessors,
        root_tree: unsigned.root_tree,
        conflict_labels: labels_from_proto(unsigned.conflict_labels),
        change_id: unsigned.change_id,
        description: unsigned.description,
        author: signature_from_proto(unsigned.author),
        committer: signature_from_proto(unsigned.committer),
        secure_sig,
    }
}

/// A commit carries what its message says, field by field: the author the message's own
/// author with its name, address and time, the committer the message's own committer, and
/// so for the ids, the description and the signature.
pub proof fn a_commit_carries_its_message(commit: Commit, form: CommitFormModel)
    requires
        is_formed_commit(commit, form),
    ensures
        match form.author {
            Some(said) => commit.author.name@ == said.name && commit.author.email@ == said.email
                && commit.author.timestamp == (match said.timestamp {
                Some(t) => t,
                None => (Timestamp { millis_since_epoch: 0, tz_offset: 0 }),
            }),
            None => commit.author.name@.len() == 0 && commit.author.email@.len() == 0
                && commit.author.timestamp == (Timestamp { millis_since_epoch: 0, tz_offset: 0 }),
        },
        match form.committer {
            Some(said) => commit.committer.name@ == said.name && commit.committer.email@ == said.email
                && commit.committer.timestamp == (match said.timestamp {
                Some(t) => t,
                None => (Timestamp { millis_since_epoch: 0, tz_offset: 0 }),
            }),
            None => commit.committer.name@.len() == 0 && commit.committer.email@.len() == 0
                && commit.committer.timestamp == (Timestamp { millis_since_epoch: 0, tz_offset: 0 }),
        },
        models(commit.parents@) == form.parents,
        models(commit.predecessors@) == form.predecessors,
        models(commit.root_tree@) == form.root_tree,
        commit.change_id@ == form.change_id,
        commit.description@ == form.description,
        form.secure_sig matches Some(sig) ==> commit.secure_sig matches Some(kept) && kept.sig@
            == sig,
        form.secure_sig is None ==> commit.secure_sig is None,
        form.conflict_labels.len() > 1 && (exists|i: int|
            0 <= i < form.conflict_labels.len() && (#[trigger] form.conflict_labels[i]).len() > 0)
            ==> models(commit.conflict_labels@) == form.conflict_labels,
        form.conflict_labels.len() <= 1 ==> commit.conflict_labels@.len() == 1
            && commit.conflict_labels@[0]@.len() == 0,
        (forall|i: int|
            0 <= i < form.conflict_labels.len() ==> (#[trigger] form.conflict_labels[i]).len() == 0)
            ==> commit.conflict_labels@.len() == 1 && commit.conflict_labels@[0]@.len() == 0,
{
    let labels = models(commit.conflict_labels@);
    assert(labels.len() == commit.conflict_labels@.len());
    if labels.len() > 0 {
        assert(labels[0] == commit.conflict_labels@[0]@);
    }
}

/// What was signed is the commit as it is written without its signature: the bytes kept
/// with a signature are those of the message with no signature and all else as it was.
pub proof fn what_was_signed_is_the_commit_without_its_signature(commit: Commit, form: CommitFormModel)
    requires
        is_formed_commit(commit, form),
        form.secure_sig is Some,
    ensures
        commit.secure_sig matches Some(kept) && exists|unsigned: CommitFormModel|
            {
                &&& kept.data@ == #[trigger] commit_bytes(unsigned)
                &&& unsigned.secure_sig is None
                &&& unsigned.parents == form.parents
                &&& unsigned.predecessors == form.predecessors
                &&& unsigned.root_tree == form.root_tree
                &&& unsigned.conflict_labels == form.conflict_labels
                &&& unsigned.change_id == form.change_id
                &&& unsigned.description == form.description
                &&& unsigned.author == form.author
                &&& unsigned.committer == form.committer
            },
{
    let unsigned = CommitFormModel { secure_sig: None, ..form };
    assert(commit.secure_sig->0.data@ == commit_bytes(unsigned));
}

/// Why bytes were not taken as a message.
#[derive(Debug, Clone, Copy, PartialEq, Eq, Structural)]
pub enum MessageError {
    /// They are not one.
    Decode,
    /// They are one, but it stands for no value.
    Malformed,
}

/// Read a commit from the bytes that a client sent or a server answered.
pub fn read_commit(bytes: &[u8]) -> (r: Result<Commit, MessageError>)
    ensures
        match commit_read(bytes@) {
            None => r == Err::<Commit, MessageError>(MessageError::Decode),
            Some(form) => if is_commit_form(form) {
                r matches Ok(commit) && is_formed_commit(commit, form)
            } else {
                r == Err::<Commit, MessageError>(MessageError::Malformed)
            },
        },
        r is Ok <==> (commit_read(bytes@) matches Some(form) && form.root_tree.len() % 2 == 1 && (
        form.conflict_labels.len() == 0 || form.conflict_labels.len() % 2 == 1)),
        r matches Ok(commit) ==> {
            let form = commit_read(bytes@)->0;
            &&& form.author matches Some(said) ==> commit.author.name@ == said.name
                && commit.author.email@ == said.email
            &&& form.committer matches Some(said) ==> commit.committer.name@ == said.name
                && commit.committer.email@ == said.email
            &&& models(commit.parents@) == form.parents
            &&& models(commit.root_tree@) == form.root_tree
            &&& commit.change_id@ == form.change_id
            &&& commit.description@ == form.description
        },
{
    match decode_commit(bytes) {
        Err(_) => Err(MessageError::Decode),
        Ok(form) => {
            let labels: usize = form.conflict_labels.len();
            if form.root_tree.len() % 2 == 1 && (labels == 0 || labels % 2 == 1) {
                Ok(commit_from_proto(form))
            } else {
                Err(MessageError::Malformed)
            }
        },
    }
}

// ─── Operations ───────────────────────────────────────────────────────────────

/// What is recorded of an operation besides what it did.
#[derive(Debug, PartialEq, Eq)]
pub struct OperationMetadata {
    pub start: Timestamp,
    pub end: Timestamp,
    pub description: String,
    pub hostname: String,
    pub username: String,
    pub is_snapshot: bool,
    pub tags: TextMap<String>,
}

#[verifier::ext_equal]
pub struct MetadataModel {
    pub start: Timestamp,
    pub end: Timestamp,
    pub description: Seq<char>,
    pub hostname: Seq<char>,
    pub username: Seq<char>,
    pub is_snapshot: bool,
    pub tags: Map<Seq<char>, Seq<char>>,
}

impl View for OperationMetadata {
    type V = MetadataModel;

    open spec fn view(&self) -> MetadataModel {
        MetadataModel {
            start: self.start,
            end: self.end,
            description: self.description@,
            hostname: self.hostname@,
            username: self.username@,
            is_snapshot: self.is_snapshot,
            tags: self.tags@,
        }
    }
}

/// An operation. The predecessors of the commits it rewrote are there where they
/// were recorded at all.
#[derive(Debug, PartialEq, Eq)]
pub struct Operation {
    pub view_id: Vec<u8>,
    pub parents: Vec<Vec<u8>>,
    pub metadata: OperationMetadata,
    pub commit_predecessors: Option<IdMap<IdList>>,
}

/// A list of ids.
#[derive(Debug, PartialEq, Eq)]
pub struct IdList {
    pub ids: Vec<Vec<u8>>,
}

impl View for IdList {
    type V = Seq<Seq<u8>>;

    open spec fn view(&self) -> Seq<Seq<u8>> {
        models(self.ids@)
    }
}

#[verifier::ext_equal]
pub struct OperationModel {
    pub view_id: Seq<u8>,
    pub parents: Seq<Seq<u8>>,
    pub metadata: MetadataModel,
    pub commit_predecessors: Option<Map<Seq<u8>, Seq<Seq<u8>>>>,
}

pub open spec fn maybe_map(m: Option<IdMap<IdList>>) -> Option<Map<Seq<u8>, Seq<Seq<u8>>>> {
    match m {
        Some(map) => Some(map@),
        None => None,
    }
}

impl View for Operation {
    type V = OperationModel;

    open spec fn view(&self) -> OperationModel {
        OperationModel {
            view_id: self.view_id@,
            parents: models(self.parents@),
            metadata: self.metadata@,
            commit_predecessors: maybe_map(self.commit_predecessors),
        }
    }
}

/// Metadata on the wire.
#[derive(Debug, Clone, PartialEq, Eq)]
pub struct MetadataForm {
    pub start_time: Option<Timestamp>,
    pub end_time: Option<Timestamp>,
    pub description: String,
    pub hostname: String,
    pub username: String,
    pub is_snapshot: bool,
    pub tags: Vec<(String, String)>,
}

#[verifier::ext_equal]
pub struct MetadataFormModel {
    pub start_time: Option<Timestamp>,
    pub end_time: Option<Timestamp>,
    pub description: Seq<char>,
    pub hostname: Seq<char>,
    pub username: Seq<char>,
    pub is_snapshot: bool,
    pub tags: Map<Seq<char>, Seq<char>>,
}

impl View for MetadataForm {
    type V = MetadataFormModel;

    open spec fn view(&self) -> MetadataFormModel {
        MetadataFormModel {
            start_time: self.start_time,
            end_time: self.end_time,
            description: self.description@,
            hostname: self.hostname@,
            username: self.username@,
            is_snapshot: self.is_snapshot,
            tags: entries_map(self.tags@),
        }
    }
}

/// An operation on the wire.
#[derive(Debug, Clone, PartialEq, Eq)]
pub struct OperationForm {
    pub view_id: Vec<u8>,
    pub parents: Vec<Vec<u8>>,
    pub metadata: Option<MetadataForm>,
    /// Commits and the predecessors of each.
    pub commit_predecessors: Vec<(Vec<u8>, Vec<Vec<u8>>)>,
    /// Whether those are recorded at all.
    pub stores_commit_predecessors: bool,
}

#[verifier::ext_equal]
pub struct OperationFormModel {
    pub view_id: Seq<u8>,
    pub parents: Seq<Seq<u8>>,
    pub metadata: Option<MetadataFormModel>,
    pub commit_predecessors: Seq<(Seq<u8>, Seq<Seq<u8>>)>,
    pub stores_commit_predecessors: bool,
}

pub open spec fn maybe_metadata(m: Option<MetadataForm>) -> Option<MetadataFormModel> {
    match m {
        Some(form) => Some(form@),
        None => None,
    }
}

pub open spec fn predecessors_model(list: Seq<(Vec<u8>, Vec<Vec<u8>>)>) -> Seq<
    (Seq<u8>, Seq<Seq<u8>>),
> {
    list.map_values(|e: (Vec<u8>, Vec<Vec<u8>>)| (e.0@, models(e.1@)))
}

impl View for OperationForm {
    type V = OperationFormModel;

    open spec fn view(&self) -> OperationFormModel {
        OperationFormModel {
            view_id: self.view_id@,
            parents: models(self.parents@),
            metadata: maybe_metadata(self.metadata),
            commit_predecessors: predecessors_model(self.commit_predecessors@),
            stores_commit_predecessors: self.stores_commit_predecessors,
        }
    }
}

/// The metadata that a form stands for; empty metadata at the epoch where there
/// is none.
pub open spec fn formed_metadata(form: Option<MetadataFormModel>) -> MetadataModel {
    match form {
        Some(form) => MetadataModel {
            start: or_epoch(form.start_time),
            end: or_epoch(form.end_time),
            description: form.description,
            hostname: form.hostname,
            username: form.username,
            is_snapshot: form.is_snapshot,
            tags: form.tags,
        },
        None => MetadataModel {
            start: epoch(),
            end: epoch(),
            description: Seq::empty(),
            hostname: Seq::empty(),
            username: Seq::empty(),
            is_snapshot: false,
            tags: Map::empty(),
        },
    }
}

/// The map of the first `n` entries; of two for one commit the later one counts.
pub open spec fn predecessors_map(list: Seq<(Seq<u8>, Seq<Seq<u8>>)>, n: nat) -> Map<
    Seq<u8>,
    Seq<Seq<u8>>,
>
    decreases n,
{
    if n == 0 {
        Map::empty()
    } else {
        predecessors_map(list, (n - 1) as nat).insert(list[n - 1].0, list[n - 1].1)
    }
}

/// The first of some ids that does not have the length of an operation id, by its
/// length.
pub open spec fn bad_id_length(ids: Seq<Seq<u8>>, n: nat) -> Option<nat>
    decreases n,
{
    if n == 0 {
        None
    } else {
        match bad_id_length(ids, (n - 1) as nat) {
            Some(len) => Some(len),
            None => if ids[n - 1].len() != OPERATION_ID_LENGTH {
                Some(ids[n - 1].len())
            } else {
                None
            },
        }
    }
}

/// The operation that a form stands for, or what is wrong with it.
pub open spec fn formed_operation(form: OperationFormModel) -> Result<OperationModel, Seq<char>> {
    match bad_id_length(form.parents, form.parents.len()) {
        Some(len) => Err("invalid operation id length: "@ + decimal(len)),
        None => if form.view_id.len() != VIEW_ID_LENGTH {
            Err("invalid view id length: "@ + decimal(form.view_id.len()))
        } else {
            Ok(
                OperationModel {
                    view_id: form.view_id,
                    parents: form.parents,
                    metadata: formed_metadata(form.metadata),
                    commit_predecessors: if form.stores_commit_predecessors {
                        Some(
                            predecessors_map(
                                form.commit_predecessors,
                                form.commit_predecessors.len(),
                            ),
                        )
                    } else {
                        None
                    },
                },
            )
        },
    }
}

proof fn lemma_bad_length_stays(ids: Seq<Seq<u8>>, n: nat, total: nat)
    requires
        n <= total,
        bad_id_length(ids, n) is Some,
    ensures
        bad_id_length(ids, total) == bad_id_length(ids, n),
    decreases total,
{
    if n < total {
        lemma_bad_length_stays(ids, n, (total - 1) as nat);
    }
}

fn wrong_length(what: &str, len: usize) -> (s: String)
    ensures
        s@ == what@ + decimal(len as nat),
{
    let mut s = what.to_owned();
    push_decimal(&mut s, len as u64);
    s
}

fn operation_metadata_from_proto(form: Option<MetadataForm>) -> (r: OperationMetadata)
    ensures
        r@ == formed_metadata(maybe_metadata(form)),
        match form {
            Some(said) => {
                &&& r.start == (match said.start_time {
                    Some(t) => t,
                    None => (Timestamp { millis_since_epoch: 0, tz_offset: 0 }),
                })
                &&& r.end == (match said.end_time {
                    Some(t) => t,
                    None => (Timestamp { millis_since_epoch: 0, tz_offset: 0 }),
                })
                &&& r.description@ == said.description@
                &&& r.hostname@ == said.hostname@
                &&& r.username@ == said.username@
                &&& r.is_snapshot == said.is_snapshot
            },
            None => {
                &&& r.start == (Timestamp { millis_since_epoch: 0, tz_offset: 0 })
                &&& r.end == (Timestamp { millis_since_epoch: 0, tz_offset: 0 })
                &&& r.description@.len() == 0
                &&& r.hostname@.len() == 0
                &&& r.username@.len() == 0
                &&& !r.is_snapshot
            },
        },
{
    match form {
        Some(form) => OperationMetadata {
            start: match form.start_time {
                Some(t) => t,
                None => Timestamp { millis_since_epoch: 0, tz_offset: 0 },
            },
            end: match form.end_time {
                Some(t) => t,
                None => Timestamp { millis_since_epoch: 0, tz_offset: 0 },
            },
            description: form.description,
            hostname: form.hostname,
            username: form.username,
            is_snapshot: form.is_snapshot,
            tags: TextMap::from_pairs(&form.tags),
        },
        None => {
            proof {
                reveal_strlit("");
                assert(""@ =~= Seq::<char>::empty());
            }
            OperationMetadata {
                start: Timestamp { millis_since_epoch: 0, tz_offset: 0 },
                end: Timestamp { millis_since_epoch: 0, tz_offset: 0 },
                description: "".to_owned(),
                hostname: "".to_owned(),
                username: "".to_owned(),
                is_snapshot: false,
                tags: TextMap::new(),
            }
        },
    }
}

fn commit_predecessors_map_from_proto(list: &Vec<(Vec<u8>, Vec<Vec<u8>>)>) -> (r: IdMap<IdList>)
    ensures
        r@ == predecessors_map(predecessors_model(list@), list@.len()),
{
    let ghost all = predecessors_model(list@);
    let mut r: IdMap<IdList> = IdMap::new();
    let mut i: usize = 0;
    while i < list.len()
        invariant
            i <= list@.len(),
            all == predecessors_model(list@),
            r@ == predecessors_map(all, i as nat),
        decreases list@.len() - i,
    {
        assert(all[i as int] == (list@[i as int].0@, models(list@[i as int].1@)));
        let ids = IdList { ids: copied_ids(&list[i].1) };
        r.insert(list[i].0.as_slice(), ids);
        i = i + 1;
    }
    r
}

/// The operation that a form stands for.
pub fn operation_from_proto(form: OperationForm) -> (r: Result<Operation, String>)
    ensures
        match (r, formed_operation(form@)) {
            (Ok(operation), Ok(said)) => operation@ == said,
            (Err(message), Err(said)) => message@ == said,
            _ => false,
        },
        r matches Ok(operation) ==> {
            &&& operation.view_id@ == form.view_id@
            &&& models(operation.parents@) == models(form.parents@)
            &&& operation.commit_predecessors is Some <==> form.stores_commit_predecessors
            &&& match form.metadata {
                Some(said) => {
                    &&& operation.metadata.start == (match said.start_time {
                        Some(t) => t,
                        None => (Timestamp { millis_since_epoch: 0, tz_offset: 0 }),
                    })
                    &&& operation.metadata.end == (match said.end_time {
                        Some(t) => t,
                        None => (Timestamp { millis_since_epoch: 0, tz_offset: 0 }),
                    })
                    &&& operation.metadata.description@ == said.description@
                    &&& operation.metadata.hostname@ == said.hostname@
                    &&& operation.metadata.username@ == said.username@
                    &&& operation.metadata.is_snapshot == said.is_snapshot
                },
                None => {
                    &&& operation.metadata.start == (Timestamp { millis_since_epoch: 0, tz_offset: 0 })
                    &&& operation.metadata.end == (Timestamp { millis_since_epoch: 0, tz_offset: 0 })
                    &&& operation.metadata.description@.len() == 0
                    &&& operation.metadata.hostname@.len() == 0
                    &&& operation.metadata.username@.len() == 0
                    &&& !operation.metadata.is_snapshot
                },
            }
        },
{
    let ghost parents = models(form.parents@);
    let mut i: usize = 0;
    while i < form.parents.len()
        invariant
            i <= form.parents@.len(),
            parents == models(form.parents@),
            bad_id_length(parents, i as nat) is None,
        decreases form.parents@.len() - i,
    {
        assert(parents[i as int] == form.parents@[i as int]@);
        if form.parents[i].len() != OPERATION_ID_LENGTH {
            proof {
                lemma_bad_length_stays(parents, (i + 1) as nat, parents.len());
            }
            return Err(wrong_length("invalid operation id length: ", form.parents[i].len()));
        }
        i = i + 1;
    }
    if form.view_id.len() != VIEW_ID_LENGTH {
        return Err(wrong_length("invalid view id length: ", form.view_id.len()));
    }
    let commit_predecessors = if form.stores_commit_predecessors {
        Some(commit_predecessors_map_from_proto(&form.commit_predecessors))
    } else {
        None
    };
    Ok(
        Operation {
            view_id: form.view_id,
            parents: form.parents,
            metadata: operation_metadata_from_proto(form.metadata),
            commit_predecessors,
        },
    )
}

/// The form of metadata.
pub open spec fn metadata_form(metadata: MetadataModel) -> MetadataFormModel {
    MetadataFormModel {
        start_time: Some(metadata.start),
        end_time: Some(metadata.end),
        description: metadata.description,
        hostname: metadata.hostname,
        username: metadata.username,
        is_snapshot: metadata.is_snapshot,
        tags: metadata.tags,
    }
}

pub open spec fn id_items(items: Seq<(Vec<u8>, IdList)>) -> Seq<(Seq<u8>, Seq<Seq<u8>>)> {
    items.map_values(|e: (Vec<u8>, IdList)| (e.0@, e.1@))
}

/// The form of an operation: what was recorded of predecessors, in the order of
/// the commits.
pub open spec fn operation_form(operation: Operation) -> OperationFormModel {
    OperationFormModel {
        view_id: operation.view_id@,
        parents: models(operation.parents@),
        metadata: Some(metadata_form(operation.metadata@)),
        commit_predecessors: match operation.commit_predecessors {
            Some(map) => id_items(map.items()),
            None => Seq::empty(),
        },
        stores_commit_predecessors: operation.commit_predecessors is Some,
    }
}

fn copied_tags(metadata: &OperationMetadata) -> (tags: Vec<(String, String)>)
    ensures
        tags@ == metadata.tags.items(),
{
    let entries = metadata.tags.entries();
    let mut tags: Vec<(String, String)> = Vec::new();
    let mut i: usize = 0;
    while i < entries.len()
        invariant
            i <= entries@.len(),
            tags@ == entries@.take(i as int),
        decreases entries@.len() - i,
    {
        tags.push((entries[i].0.clone(), entries[i].1.clone()));
        assert(tags@ =~= entries@.take(i + 1));
        i = i + 1;
    }
    assert(tags@ =~= entries@);
    tags
}

fn operation_metadata_to_proto(metadata: &OperationMetadata) -> (r: MetadataForm)
    ensures
        r@ == metadata_form(metadata@),
        r.start_time == Some(metadata.start),
        r.end_time == Some(metadata.end),
        r.description@ == metadata.description@,
        r.hostname@ == metadata.hostname@,
        r.username@ == metadata.username@,
        r.is_snapshot == metadata.is_snapshot,
        r.tags@ == metadata.tags.items(),
{
    MetadataForm {
        start_time: Some(metadata.start),
        end_time: Some(metadata.end),
        description: metadata.description.clone(),
        hostname: metadata.hostname.clone(),
        username: metadata.username.clone(),
        is_snapshot: metadata.is_snapshot,
        tags: copied_tags(metadata),
    }
}

fn commit_predecessors_map_to_proto(map: &IdMap<IdList>) -> (r: Vec<(Vec<u8>, Vec<Vec<u8>>)>)
    ensures
        predecessors_model(r@) == id_items(map.items()),
{
    let entries = map.entries();
    let mut r: Vec<(Vec<u8>, Vec<Vec<u8>>)> = Vec::new();
    let mut i: usize = 0;
    while i < entries.len()
        invariant
            i <= entries@.len(),
            entries@ == map.items(),
            r@.len() == i,
            forall|j: int|
                0 <= j < i ==> (#[trigger] r@[j]).0@ == entries@[j].0@ && models(r@[j].1@)
                    == entries@[j].1@,
        decreases entries@.len() - i,
    {
        r.push((copied(entries[i].0.as_slice()), copied_ids(&entries[i].1.ids)));
        i = i + 1;
    }
    assert(predecessors_model(r@) =~= id_items(map.items()));
    r
}

/// The form of an operation.
pub fn operation_to_proto(operation: &Operation) -> (form: OperationForm)
    ensures
        form@ == operation_form(*operation),
        form.view_id@ == operation.view_id@,
        models(form.parents@) == models(operation.parents@),
        form.stores_commit_predecessors <==> operation.commit_predecessors is Some,
        form.metadata matches Some(said) && said.start_time == Some(operation.metadata.start)
            && said.end_time == Some(operation.metadata.end) && said.description@
            == operation.metadata.description@ && said.hostname@ == operation.metadata.hostname@
            && said.username@ == operation.metadata.username@ && said.is_snapshot
            == operation.metadata.is_snapshot && said.tags@ == operation.metadata.tags.items(),
{
    let (commit_predecessors, stores_commit_predecessors) = match &operation.commit_predecessors {
        Some(map) => (commit_predecessors_map_to_proto(map), true),
        None => {
            let none: Vec<(Vec<u8>, Vec<Vec<u8>>)> = Vec::new();
            assert(predecessors_model(none@) =~= Seq::empty());
            (none, false)
        },
    };
    OperationForm {
        view_id: copied(operation.view_id.as_slice()),
        parents: copied_ids(&operation.parents),
        metadata: Some(operation_metadata_to_proto(&operation.metadata)),
        commit_predecessors,
        stores_commit_predecessors,
    }
}

/// An operation carries what its message says, field by field, and so does the message
/// what the operation is. The ids have their lengths in both.
pub proof fn an_operation_carries_its_message(form: OperationFormModel, operation: OperationModel)
    requires
        formed_operation(form) == Ok::<OperationModel, Seq<char>>(operation),
    ensures
        operation.view_id == form.view_id,
        operation.view_id.len() == VIEW_ID_LENGTH,
        operation.view_id.len() == 64,
        operation.parents == form.parents,
        forall|i: int|
            0 <= i < form.parents.len() ==> (#[trigger] form.parents[i]).len() == 64,
        match form.metadata {
            Some(said) => {
                &&& operation.metadata.start == (match said.start_time {
                    Some(t) => t,
                    None => (Timestamp { millis_since_epoch: 0, tz_offset: 0 }),
                })
                &&& operation.metadata.end == (match said.end_time {
                    Some(t) => t,
                    None => (Timestamp { millis_since_epoch: 0, tz_offset: 0 }),
                })
                &&& operation.metadata.description == said.description
                &&& operation.metadata.hostname == said.hostname
                &&& operation.metadata.username == said.username
                &&& operation.metadata.is_snapshot == said.is_snapshot
            },
            None => {
                &&& operation.metadata.start == (Timestamp { millis_since_epoch: 0, tz_offset: 0 })
                &&& operation.metadata.end == (Timestamp { millis_since_epoch: 0, tz_offset: 0 })
                &&& operation.metadata.description.len() == 0
                &&& operation.metadata.hostname.len() == 0
                &&& operation.metadata.username.len() == 0
                &&& !operation.metadata.is_snapshot
            },
        },
        form.metadata matches Some(said) ==> operation.metadata.tags == said.tags,
        form.metadata is None ==> operation.metadata.tags == Map::<Seq<char>, Seq<char>>::empty(),
        operation.commit_predecessors is Some <==> form.stores_commit_predecessors,
        operation.commit_predecessors matches Some(map) ==> forall|commit: Seq<u8>|
            #![trigger map.contains_key(commit)]
            {
                &&& map.contains_key(commit) <==> exists|i: int|
                    0 <= i < form.commit_predecessors.len()
                        && #[trigger] form.commit_predecessors[i].0 == commit
                &&& forall|i: int|
                    0 <= i < form.commit_predecessors.len()
                        && (#[trigger] form.commit_predecessors[i]).0 == commit && (forall|j: int|
                        i < j < form.commit_predecessors.len()
                            ==> (#[trigger] form.commit_predecessors[j]).0 != commit)
                        ==> map[commit] == form.commit_predecessors[i].1
            },
{
    the_first_wrong_length_is_reported(form.parents, form.parents.len());
    let list = form.commit_predecessors;
    if form.stores_commit_predecessors {
        assert forall|commit: Seq<u8>| #![trigger operation.commit_predecessors->0.contains_key(commit)]
            {
                let map = operation.commit_predecessors->0;
                &&& map.contains_key(commit) <==> exists|i: int|
                    0 <= i < list.len() && #[trigger] list[i].0 == commit
                &&& forall|i: int|
                    0 <= i < list.len() && (#[trigger] list[i]).0 == commit && (forall|j: int|
                        i < j < list.len() ==> (#[trigger] list[j]).0 != commit) ==> map[commit]
                        == list[i].1
            } by {
            the_later_predecessors_count(list, list.len(), commit);
        }
    }
}

/// A commit is in the map of predecessors exactly when an entry names it, and the last
/// entry that does gives its predecessors.
pub proof fn the_later_predecessors_count(
    list: Seq<(Seq<u8>, Seq<Seq<u8>>)>,
    n: nat,
    commit: Seq<u8>,
)
    requires
        n <= list.len(),
    ensures
        predecessors_map(list, n).contains_key(commit) <==> exists|i: int|
            0 <= i < n && #[trigger] list[i].0 == commit,
        forall|i: int|
            0 <= i < n && (#[trigger] list[i]).0 == commit && (forall|j: int|
                i < j < n ==> (#[trigger] list[j]).0 != commit) ==> predecessors_map(list, n)[commit]
                == list[i].1,
    decreases n,
{
    if n > 0 {
        the_later_predecessors_count(list, (n - 1) as nat, commit);
        if list[n - 1].0 == commit {
            assert(predecessors_map(list, n).contains_key(commit));
        } else if predecessors_map(list, n).contains_key(commit) {
            let i = choose|i: int| 0 <= i < n - 1 && #[trigger] list[i].0 == commit;
            assert(list[i].0 == commit);
        }
    }
}

/// No length is reported exactly when every id has the length of an operation id; else
/// the first that has not is the one that is reported.
pub proof fn the_first_wrong_length_is_reported(ids: Seq<Seq<u8>>, n: nat)
    requires
        n <= ids.len(),
    ensures
        match bad_id_length(ids, n) {
            None => forall|i: int|
                0 <= i < n ==> (#[trigger] ids[i]).len() == OPERATION_ID_LENGTH,
            Some(len) => exists|i: int|
                {
                    &&& 0 <= i < n && (#[trigger] ids[i]).len() == len && len
                        != OPERATION_ID_LENGTH
                    &&& forall|j: int|
                        0 <= j < i ==> (#[trigger] ids[j]).len() == OPERATION_ID_LENGTH
                },
        },
    decreases n,
{
    if n > 0 {
        the_first_wrong_length_is_reported(ids, (n - 1) as nat);
        match bad_id_length(ids, (n - 1) as nat) {
            Some(len) => {
                let i = choose|i: int|
                    {
                        &&& 0 <= i < n - 1 && (#[trigger] ids[i]).len() == len && len
                            != OPERATION_ID_LENGTH
                        &&& forall|j: int|
                            0 <= j < i ==> (#[trigger] ids[j]).len() == OPERATION_ID_LENGTH
                    };
                assert(ids[i].len() == len);
            },
            None => {
                assert(ids[n - 1].len() == ids[n - 1].len());
            },
        }
    }
}

/// The message of an operation says what the operation is, field by field, the
/// predecessors of each commit in the order of the commits.
pub proof fn a_message_says_what_the_operation_is(operation: Operation)
    ensures
        ({
            let form = operation_form(operation);
            &&& form.view_id == operation.view_id@
            &&& form.parents == models(operation.parents@)
            &&& form.stores_commit_predecessors <==> operation.commit_predecessors is Some
            &&& form.metadata matches Some(said) && said.start_time == Some(
                operation.metadata.start,
            ) && said.end_time == Some(operation.metadata.end) && said.description
                == operation.metadata.description@ && said.hostname == operation.metadata.hostname@
                && said.username == operation.metadata.username@ && said.is_snapshot
                == operation.metadata.is_snapshot && said.tags == operation.metadata.tags@
            &&& match operation.commit_predecessors {
                Some(map) => form.commit_predecessors.len() == map.items().len() && forall|i: int|
                    0 <= i < map.items().len() ==> (#[trigger] form.commit_predecessors[i]).0
                        == map.items()[i].0@ && form.commit_predecessors[i].1 == models(
                        map.items()[i].1.ids@,
                    ),
                None => form.commit_predecessors.len() == 0,
            }
        }),
{
}

/// An operation whose ids have their length comes back from its form as it was.
pub proof fn operations_read_back(operation: Operation)
    requires
        operation.view_id@.len() == VIEW_ID_LENGTH,
        forall|i: int|
            0 <= i < operation.parents@.len() ==> (#[trigger] operation.parents@[i])@.len()
                == OPERATION_ID_LENGTH,
    ensures
        formed_operation(operation_form(operation)) == Ok::<OperationModel, Seq<char>>(operation@),
{
    let form = operation_form(operation);
    assert forall|i: int| 0 <= i < form.parents.len() implies (#[trigger] form.parents[i]).len()
        == OPERATION_ID_LENGTH by {
        assert(form.parents[i] == operation.parents@[i]@);
    }
    lemma_lengths_good(form.parents, form.parents.len());
    match operation.commit_predecessors {
        Some(map) => lemma_items_map(map.items(), map.items().len()),
        None => {},
    }
    if operation.commit_predecessors is Some {
        let items = operation.commit_predecessors->0.items();
        assert(items.take(items.len() as int) =~= items);
    }
    assert(formed_operation(form)->Ok_0 =~= operation@);
}

proof fn lemma_lengths_good(ids: Seq<Seq<u8>>, n: nat)
    requires
        n <= ids.len(),
        forall|i: int| 0 <= i < ids.len() ==> (#[trigger] ids[i]).len() == OPERATION_ID_LENGTH,
    ensures
        bad_id_length(ids, n) is None,
    decreases n,
{
    if n > 0 {
        lemma_lengths_good(ids, (n - 1) as nat);
    }
}

proof fn lemma_items_map(items: Seq<(Vec<u8>, IdList)>, n: nat)
    requires
        n <= items.len(),
    ensures
        predecessors_map(id_items(items), n) == id_entries(items.take(n as int)),
    decreases n,
{
    if n > 0 {
        lemma_items_map(items, (n - 1) as nat);
        assert(items.take(n as int).drop_last() =~= items.take(n - 1));
        assert(id_items(items)[n - 1] == (items[n - 1].0@, items[n - 1].1@));
    }
}

/// The operation that `prost` reads from some bytes, where they are one.
pub uninterp spec fn operation_read(bytes: Seq<u8>) -> Option<OperationFormModel>;

/// The id of an operation: `jj_lib::content_hash::blake2b_hash` of it.
pub uninterp spec fn operation_hash(operation: OperationModel) -> Seq<u8>;

/// `prost::Message::decode` of a `jj_lib::protos::simple_op_store::Operation`.
/// The tags come as a map without an order; here they are in the order of their
/// keys.
#[verifier::external_body]
pub(crate) fn decode_operation(bytes: &[u8]) -> (r: Result<OperationForm, prost::DecodeError>)
    ensures
        match r {
            Ok(form) => operation_read(bytes@) == Some(form@),
            Err(_) => operation_read(bytes@) is None,
        },
{
    let op = simple_op_store::Operation::decode(bytes)?;
    let time = |t: simple_op_store::Timestamp| Timestamp {
        millis_since_epoch: t.millis_since_epoch, tz_offset: t.tz_offset };
    let metadata = op.metadata.map(|m| MetadataForm {
        start_time: m.start_time.map(time), end_time: m.end_time.map(time),
        description: m.description, hostname: m.hostname, username: m.username,
        is_snapshot: m.is_snapshot,
        tags: m.tags.into_iter().collect::<std::collections::BTreeMap<_, _>>().into_iter().collect(),
    });
    let commits = op.commit_predecessors.into_iter().map(|c| (c.commit_id, c.predecessor_ids));
    Ok(OperationForm { view_id: op.view_id, parents: op.parents, metadata,
        commit_predecessors: commits.collect(),
        stores_commit_predecessors: op.stores_commit_predecessors })
}

/// `prost::Message::encode_to_vec` of a `jj_lib::protos::simple_op_store::Operation`.
/// What is written reads back as the same operation. That the bytes are a function
/// of the fields is not stated: `prost` writes the tags in the order in which a
/// hash map is walked.
#[verifier::external_body]
pub(crate) fn encode_operation(form: &OperationForm) -> (bytes: Vec<u8>)
    ensures
        operation_read(bytes@) == Some(form@),
{
    let form = form.clone();
    let time = |t: Timestamp| simple_op_store::Timestamp {
        millis_since_epoch: t.millis_since_epoch, tz_offset: t.tz_offset };
    let metadata = form.metadata.map(|m| simple_op_store::OperationMetadata {
        start_time: m.start_time.map(time), end_time: m.end_time.map(time),
        description: m.description, hostname: m.hostname, username: m.username,
        is_snapshot: m.is_snapshot, tags: m.tags.into_iter().collect(),
    });
    let commits = form.commit_predecessors.into_iter().map(|(commit_id, predecessor_ids)|
        simple_op_store::CommitPredecessors { commit_id, predecessor_ids });
    simple_op_store::Operation { view_id: form.view_id, parents: form.parents,
        metadata, commit_predecessors: commits.collect(),
        stores_commit_predecessors: form.stores_commit_predecessors }.encode_to_vec()
}

/// `jj_lib::content_hash::blake2b_hash` of a `jj_lib::op_store::Operation` that is
/// made of these parts. The hash is a function of the operation, the tags and the
/// predecessors in the order of their keys, and has the length of an operation id.
#[verifier::external_body]
pub(crate) fn hash_parts(
    view_id: Vec<u8>,
    parents: Vec<Vec<u8>>,
    m: OperationMetadata,
    tags: Vec<(String, String)>,
    preds: Vec<(Vec<u8>, Vec<Vec<u8>>)>,
    recorded: bool,
) -> (id: Vec<u8>)
    ensures
        id@ == operation_hash(
            OperationModel {
                view_id: view_id@,
                parents: models(parents@),
                metadata: MetadataModel { tags: entries_map(tags@), ..m@ },
                commit_predecessors: if recorded {
                    Some(predecessors_map(predecessors_model(preds@), preds@.len()))
                } else {
                    None
                },
            },
        ),
        id@.len() == OPERATION_ID_LENGTH,
{
    let at = |t: Timestamp| backend::Timestamp {
        timestamp: MillisSinceEpoch(t.millis_since_epoch), tz_offset: t.tz_offset };
    blake2b_hash(&op_store::Operation {
        view_id: ViewId::new(view_id),
        parents: parents.into_iter().map(OperationId::new).collect(),
        metadata: op_store::OperationMetadata {
            time: TimestampRange { start: at(m.start), end: at(m.end) },
            description: m.description, hostname: m.hostname, username: m.username,
            is_snapshot: m.is_snapshot, tags: tags.into_iter().collect(),
        },
        commit_predecessors: recorded.then_some(preds.into_iter().map(|(k, v)| (
            CommitId::new(k), v.into_iter().map(CommitId::new).collect())).collect()),
    }).to_vec()
}

/// The id of an operation.
pub fn hash_operation(operation: Operation) -> (id: Vec<u8>)
    ensures
        id@ == operation_hash(operation@),
        id@.len() == OPERATION_ID_LENGTH,
{
    let ghost said = operation@;
    let form = operation_to_proto(&operation);
    proof {
        match operation.commit_predecessors {
            Some(map) => {
                let items = map.items();
                lemma_items_map(items, items.len());
                assert(items.take(items.len() as int) =~= items);
            },
            None => {},
        }
    }
    let named = copied_tags(&operation.metadata);
    let id = hash_parts(
        operation.view_id,
        operation.parents,
        operation.metadata,
        named,
        form.commit_predecessors,
        form.stores_commit_predecessors,
    );
    proof {
        let made = OperationModel {
            view_id: said.view_id,
            parents: said.parents,
            metadata: MetadataModel { tags: entries_map(named@), ..said.metadata },
            commit_predecessors: if form.stores_commit_predecessors {
                Some(
                    predecessors_map(
                        predecessors_model(form.commit_predecessors@),
                        form.commit_predecessors@.len(),
                    ),
                )
            } else {
                None
            },
        };
        assert(form@ == operation_form(operation));
        assert(form@.commit_predecessors == predecessors_model(form.commit_predecessors@));
        assert(made =~= said);
    }
    id
}

/// Why bytes got no operation id.
#[derive(Debug, PartialEq, Eq)]
pub enum OperationError {
    /// They are no operation message.
    Decode,
    /// They are one, but it stands for no operation.
    Convert(String),
}

/// The id under which an operation is kept: the hash of what its bytes say.
pub fn operation_id(data: &[u8]) -> (r: Result<Vec<u8>, OperationError>)
    ensures
        match operation_read(data@) {
            None => r == Err::<Vec<u8>, OperationError>(OperationError::Decode),
            Some(form) => match formed_operation(form) {
                Ok(operation) => (r matches Ok(id) && id@ == operation_hash(operation) && id@.len()
                    == OPERATION_ID_LENGTH),
                Err(said) => (r matches Err(OperationError::Convert(message)) && message@ == said),
            },
        },
{
    match decode_operation(data) {
        Err(_) => Err(OperationError::Decode),
        Ok(form) => match operation_from_proto(form) {
            Err(message) => Err(OperationError::Convert(message)),
            Ok(operation) => Ok(hash_operation(operation)),
        },
    }
}

/// Read an operation from the bytes that a server answered.
pub fn read_operation(data: &[u8]) -> (r: Result<Operation, OperationError>)
    ensures
        match operation_read(data@) {
            None => r == Err::<Operation, OperationError>(OperationError::Decode),
            Some(form) => match formed_operation(form) {
                Ok(said) => (r matches Ok(operation) && operation@ == said),
                Err(said) => (r matches Err(OperationError::Convert(message)) && message@ == said),
            },
        },
{
    match decode_operation(data) {
        Err(_) => Err(OperationError::Decode),
        Ok(form) => match operation_from_proto(form) {
            Err(message) => Err(OperationError::Convert(message)),
            Ok(operation) => Ok(operation),
        },
    }
}

/// Write an operation. What is written reads back as it.
pub fn write_operation(operation: &Operation) -> (data: Vec<u8>)
    ensures
        operation_read(data@) == Some(operation_form(*operation)),
{
    let form = operation_to_proto(operation);
    encode_operation(&form)
}

} // verus!
