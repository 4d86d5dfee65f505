//! The protobuf form of a view of the repository, and the view it stands for.
//!
//! A view has been written in more than one way over time. What is written now
//! holds the remote bookmarks twice, once in the older way beside the local ones,
//! so that older programs can read them. What is read may be older still.
use vstd::prelude::*;
use vstd::string::*;

use jj_lib::protos::simple_op_store::ref_conflict::Term;
use jj_lib::protos::simple_op_store::ref_target::Value;
use jj_lib::protos::simple_op_store::Bookmark as BookmarkMessage;
use jj_lib::protos::simple_op_store::GitRef as GitRefMessage;
use jj_lib::protos::simple_op_store::RefConflict;
use jj_lib::protos::simple_op_store::RefTarget as TargetMessage;
use jj_lib::protos::simple_op_store::RefTargetTerm as TermMessage;
use jj_lib::protos::simple_op_store::RemoteBookmark as RemoteMessage;
use jj_lib::protos::simple_op_store::RemoteRef as RemoteRefMessage;
use jj_lib::protos::simple_op_store::RemoteView as RemoteViewMessage;
use jj_lib::protos::simple_op_store::Tag as TagMessage;
use jj_lib::protos::simple_op_store::View as ViewMessage;
use prost::{DecodeError, Message};

use crate::faults::bytes_view;
use crate::order::{
    copied, copied_ids, entries_map, holds_bytes, insert_text, keys_increase, lemma_entries_map,
    lemma_pushed, texts_increase, TextMap,
};
use crate::text::{decimal, models, push_decimal};

verus! {

// ─── Targets ──────────────────────────────────────────────────────────────────

/// What a name points to: added commits at even places, removed ones between
/// them. A target without a conflict has one term.
#[derive(Debug, PartialEq, Eq)]
pub struct RefTarget {
    pub terms: Vec<Option<Vec<u8>>>,
}

pub open spec fn terms_view(terms: Seq<Option<Vec<u8>>>) -> Seq<Option<Seq<u8>>> {
    Seq::new(terms.len(), |i: int| bytes_view(terms[i]))
}

impl View for RefTarget {
    type V = Seq<Option<Seq<u8>>>;

    open spec fn view(&self) -> Seq<Option<Seq<u8>>> {
        terms_view(self.terms@)
    }
}

/// The target of a name that points nowhere.
pub open spec fn absent() -> Seq<Option<Seq<u8>>> {
    seq![None]
}

pub open spec fn points_at(id: Seq<u8>) -> Seq<Option<Seq<u8>>> {
    seq![Some(id)]
}

/// Whether terms can be those of a target: one more added than removed.
pub open spec fn is_target(terms: Seq<Option<Seq<u8>>>) -> bool {
    terms.len() % 2 == 1
}

impl RefTarget {
    /// Whether the name points to any commit.
    pub fn is_present(&self) -> (r: bool)
        ensures
            r == (self@ != absent()),
    {
        if self.terms.len() == 1 && self.terms[0].is_none() {
            assert(self@ =~= absent());
            false
        } else {
            proof {
                if self@ == absent() {
                    assert(absent().len() == 1);
                    assert(self.terms@.len() == 1);
                    assert(self@[0] == bytes_view(self.terms@[0]));
                    assert(absent()[0] is None);
                }
            }
            true
        }
    }
}

/// A target on the wire.
#[derive(Debug, Clone, PartialEq, Eq)]
pub enum RefTargetForm {
    CommitId(Vec<u8>),
    ConflictLegacy { removes: Vec<Vec<u8>>, adds: Vec<Vec<u8>> },
    Conflict { removes: Vec<Option<Vec<u8>>>, adds: Vec<Option<Vec<u8>>> },
}

pub enum RefTargetFormModel {
    CommitId(Seq<u8>),
    ConflictLegacy { removes: Seq<Seq<u8>>, adds: Seq<Seq<u8>> },
    Conflict { removes: Seq<Option<Seq<u8>>>, adds: Seq<Option<Seq<u8>>> },
}

impl View for RefTargetForm {
    type V = RefTargetFormModel;

    open spec fn view(&self) -> RefTargetFormModel {
        match *self {
            RefTargetForm::CommitId(id) => RefTargetFormModel::CommitId(id@),
            RefTargetForm::ConflictLegacy { removes, adds } => RefTargetFormModel::ConflictLegacy {
                removes: models(removes@),
                adds: models(adds@),
            },
            RefTargetForm::Conflict { removes, adds } => RefTargetFormModel::Conflict {
                removes: terms_view(removes@),
                adds: terms_view(adds@),
            },
        }
    }
}

/// A field that holds a target: the message may be missing, and so may be the
/// value in it.
pub open spec fn target_field(field: Option<Option<RefTargetForm>>) -> Option<
    Option<RefTargetFormModel>,
> {
    match field {
        Some(Some(form)) => Some(Some(form@)),
        Some(None) => Some(None),
        None => None,
    }
}

/// Added and removed terms in turn.
pub open spec fn interleaved(
    removes: Seq<Option<Seq<u8>>>,
    adds: Seq<Option<Seq<u8>>>,
) -> Seq<Option<Seq<u8>>> {
    Seq::new(
        2 * removes.len() + 1,
        |i: int|
            if i % 2 == 0 {
                adds[i / 2]
            } else {
                removes[i / 2]
            },
    )
}

pub open spec fn nth(ids: Seq<Seq<u8>>, i: int) -> Option<Seq<u8>> {
    if 0 <= i < ids.len() {
        Some(ids[i])
    } else {
        None
    }
}

/// How many terms are added where the shorter list is filled up with nothing.
pub open spec fn sides(removes: Seq<Seq<u8>>, adds: Seq<Seq<u8>>) -> nat {
    if adds.len() > removes.len() + 1 {
        adds.len()
    } else {
        removes.len() + 1
    }
}

/// Added and removed ids in turn, the shorter list filled up with nothing.
pub open spec fn filled_up(removes: Seq<Seq<u8>>, adds: Seq<Seq<u8>>) -> Seq<Option<Seq<u8>>> {
    Seq::new(
        (2 * sides(removes, adds) - 1) as nat,
        |i: int|
            if i % 2 == 0 {
                nth(adds, i / 2)
            } else {
                nth(removes, i / 2)
            },
    )
}

/// The target that a field stands for, if it stands for one.
pub open spec fn formed_target(field: Option<Option<RefTargetFormModel>>) -> Option<
    Seq<Option<Seq<u8>>>,
> {
    match field {
        None => Some(absent()),
        Some(None) => None,
        Some(Some(RefTargetFormModel::CommitId(id))) => Some(points_at(id)),
        Some(Some(RefTargetFormModel::ConflictLegacy { removes, adds })) => Some(
            filled_up(removes, adds),
        ),
        Some(Some(RefTargetFormModel::Conflict { removes, adds })) => if adds.len()
            == removes.len() + 1 {
            Some(interleaved(removes, adds))
        } else {
            None
        },
    }
}

/// The form of a target.
pub open spec fn target_form(terms: Seq<Option<Seq<u8>>>) -> RefTargetFormModel {
    RefTargetFormModel::Conflict {
        removes: Seq::new(terms.len() / 2, |i: int| terms[2 * i + 1]),
        adds: Seq::new((terms.len() + 1) / 2, |i: int| terms[2 * i]),
    }
}

/// A target comes back from its form as it was.
pub proof fn targets_read_back(terms: Seq<Option<Seq<u8>>>)
    requires
        is_target(terms),
    ensures
        formed_target(Some(Some(target_form(terms)))) == Some(terms),
{
    let removes = Seq::new(terms.len() / 2, |i: int| terms[2 * i + 1]);
    let adds = Seq::new((terms.len() + 1) / 2, |i: int| terms[2 * i]);
    assert(adds.len() == removes.len() + 1);
    assert(interleaved(removes, adds) =~= terms);
}

/// Whatever is read as a target has one more added term than removed ones.
pub proof fn read_targets_are_targets(field: Option<Option<RefTargetFormModel>>)
    requires
        formed_target(field) is Some,
    ensures
        is_target(formed_target(field)->0),
{
}

/// The target read from a message is what the message says. A commit id is the one
/// term; a missing message points nowhere; a conflict's added ids stand at the even
/// places and its removed ones between them, each once and in order; and of an older
/// conflict the shorter list is filled up with nothing.
pub proof fn a_target_is_what_its_message_says(field: Option<Option<RefTargetFormModel>>)
    ensures
        match field {
            None => formed_target(field) matches Some(t) && t.len() == 1 && t[0] is None,
            Some(None) => formed_target(field) is None,
            Some(Some(RefTargetFormModel::CommitId(id))) => formed_target(field) matches Some(t)
                && t.len() == 1 && t[0] == Some(id),
            Some(Some(RefTargetFormModel::Conflict { removes, adds })) => {
                &&& formed_target(field) is Some <==> adds.len() == removes.len() + 1
                &&& formed_target(field) matches Some(t) ==> {
                    &&& t.len() == adds.len() + removes.len()
                    &&& forall|i: int| 0 <= i < adds.len() ==> #[trigger] adds[i] == t[2 * i]
                    &&& forall|i: int| 0 <= i < removes.len() ==> #[trigger] removes[i] == t[2 * i + 1]
                }
            },
            Some(Some(RefTargetFormModel::ConflictLegacy { removes, adds })) => {
                &&& formed_target(field) is Some
                &&& formed_target(field) matches Some(t) ==> {
                    &&& t.len() % 2 == 1
                    &&& t.len() >= 2 * adds.len() - 1
                    &&& t.len() >= 2 * removes.len() + 1
                    &&& t.len() == 2 * adds.len() - 1 || t.len() == 2 * removes.len() + 1
                    &&& forall|i: int| 0 <= i < adds.len() ==> Some(#[trigger] adds[i]) == t[2 * i]
                    &&& forall|i: int|
                        0 <= i < removes.len() ==> Some(#[trigger] removes[i]) == t[2 * i + 1]
                    &&& forall|k: int|
                        0 <= k < t.len() && k >= (if k % 2 == 0 {
                            2 * adds.len()
                        } else {
                            2 * removes.len()
                        }) ==> (#[trigger] t[k]) is None
                }
            },
        },
{
    match field {
        Some(Some(RefTargetFormModel::Conflict { removes, adds })) => {
            if adds.len() == removes.len() + 1 {
                let t = interleaved(removes, adds);
                assert forall|i: int| 0 <= i < adds.len() implies #[trigger] adds[i] == t[2 * i] by {
                    assert((2 * i) % 2 == 0 && (2 * i) / 2 == i);
                }
                assert forall|i: int| 0 <= i < removes.len() implies #[trigger] removes[i] == t[2 * i
                    + 1] by {
                    assert((2 * i + 1) % 2 == 1 && (2 * i + 1) / 2 == i);
                }
            }
        },
        Some(Some(RefTargetFormModel::ConflictLegacy { removes, adds })) => {
            let t = filled_up(removes, adds);
            assert forall|i: int| 0 <= i < adds.len() implies Some(#[trigger] adds[i]) == t[2 * i] by {
                assert((2 * i) % 2 == 0 && (2 * i) / 2 == i);
            }
            assert forall|i: int| 0 <= i < removes.len() implies Some(#[trigger] removes[i]) == t[2 * i
                + 1] by {
                assert((2 * i + 1) % 2 == 1 && (2 * i + 1) / 2 == i);
            }
        },
        _ => {},
    }
}

/// The message of a target lists its terms: those at the even places as added, those
/// between them as removed, in their order.
pub proof fn a_target_message_lists_the_terms(terms: Seq<Option<Seq<u8>>>)
    ensures
        target_form(terms) matches RefTargetFormModel::Conflict { removes, adds } && adds.len()
            + removes.len() == terms.len() && (forall|i: int|
            0 <= i < adds.len() ==> #[trigger] adds[i] == terms[2 * i]) && (forall|i: int|
            0 <= i < removes.len() ==> #[trigger] removes[i] == terms[2 * i + 1]),
{
}

fn copied_term(term: &Option<Vec<u8>>) -> (r: Option<Vec<u8>>)
    ensures
        bytes_view(r) == bytes_view(*term),
{
    match term {
        Some(id) => Some(copied(id.as_slice())),
        None => None,
    }
}

fn copied_nth(ids: &Vec<Vec<u8>>, i: usize) -> (r: Option<Vec<u8>>)
    ensures
        bytes_view(r) == nth(models(ids@), i as int),
{
    if i < ids.len() {
        assert(models(ids@)[i as int] == ids@[i as int]@);
        Some(copied(ids[i].as_slice()))
    } else {
        None
    }
}

fn absent_target() -> (r: RefTarget)
    ensures
        r@ == absent(),
{
    let mut terms: Vec<Option<Vec<u8>>> = Vec::new();
    terms.push(None);
    let r = RefTarget { terms };
    assert(r@ =~= absent());
    r
}

fn normal_target(id: &Vec<u8>) -> (r: RefTarget)
    ensures
        r@ == points_at(id@),
{
    let mut terms: Vec<Option<Vec<u8>>> = Vec::new();
    terms.push(Some(copied(id.as_slice())));
    let r = RefTarget { terms };
    assert(r@ =~= points_at(id@));
    r
}

fn legacy_target(removes: &Vec<Vec<u8>>, adds: &Vec<Vec<u8>>) -> (r: RefTarget)
    ensures
        r@ == filled_up(models(removes@), models(adds@)),
{
    let ghost rs = models(removes@);
    let ghost ads = models(adds@);
    let mut terms: Vec<Option<Vec<u8>>> = Vec::new();
    terms.push(copied_nth(adds, 0));
    let mut i: usize = 0;
    while i < removes.len() || (adds.len() > 0 && i < adds.len() - 1)
        invariant
            rs == models(removes@),
            ads == models(adds@),
            i <= sides(rs, ads) - 1,
            terms@.len() == 2 * i + 1,
            forall|j: int|
                0 <= j < terms@.len() ==> bytes_view(#[trigger] terms@[j]) == if j % 2 == 0 {
                    nth(ads, j / 2)
                } else {
                    nth(rs, j / 2)
                },
        decreases sides(rs, ads) - i,
    {
        terms.push(copied_nth(removes, i));
        terms.push(copied_nth(adds, i + 1));
        i = i + 1;
    }
    let r = RefTarget { terms };
    assert(r@ =~= filled_up(rs, ads));
    r
}

/// The target that a field stands for.
fn ref_target_from_proto(field: &Option<Option<RefTargetForm>>) -> (r: Option<RefTarget>)
    ensures
        match r {
            Some(target) => formed_target(target_field(*field)) == Some(target@),
            None => formed_target(target_field(*field)) is None,
        },
{
    match field {
        None => Some(absent_target()),
        Some(None) => None,
        Some(Some(RefTargetForm::CommitId(id))) => Some(normal_target(id)),
        Some(Some(RefTargetForm::ConflictLegacy { removes, adds })) => Some(
            legacy_target(removes, adds),
        ),
        Some(Some(RefTargetForm::Conflict { removes, adds })) => {
            if adds.len() == 0 || adds.len() - 1 != removes.len() {
                return None;
            }
            let ghost rs = terms_view(removes@);
            let ghost ads = terms_view(adds@);
            let mut terms: Vec<Option<Vec<u8>>> = Vec::new();
            terms.push(copied_term(&adds[0]));
            let mut i: usize = 0;
            while i < removes.len()
                invariant
                    rs == terms_view(removes@),
                    ads == terms_view(adds@),
                    i <= removes@.len(),
                    adds@.len() == removes@.len() + 1,
                    terms@.len() == 2 * i + 1,
                    forall|j: int|
                        0 <= j < terms@.len() ==> bytes_view(#[trigger] terms@[j]) == if j % 2
                            == 0 {
                            ads[j / 2]
                        } else {
                            rs[j / 2]
                        },
                decreases removes@.len() - i,
            {
                terms.push(copied_term(&removes[i]));
                terms.push(copied_term(&adds[i + 1]));
                i = i + 1;
            }
            let r = RefTarget { terms };
            assert(r@ =~= interleaved(rs, ads));
            Some(r)
        },
    }
}

/// The form of a target.
fn ref_target_to_proto(target: &RefTarget) -> (form: Option<Option<RefTargetForm>>)
    ensures
        target_field(form) == Some(Some(target_form(target@))),
{
    let ghost terms = target@;
    let mut removes: Vec<Option<Vec<u8>>> = Vec::new();
    let mut adds: Vec<Option<Vec<u8>>> = Vec::new();
    let mut i: usize = 0;
    while i < target.terms.len()
        invariant
            terms == target@,
            i <= terms.len(),
            target.terms@.len() == terms.len(),
            removes@.len() == i / 2,
            adds@.len() == (i + 1) / 2,
            forall|j: int|
                0 <= j < removes@.len() ==> bytes_view(#[trigger] removes@[j]) == terms[2 * j + 1],
            forall|j: int| 0 <= j < adds@.len() ==> bytes_view(#[trigger] adds@[j]) == terms[2 * j],
        decreases terms.len() - i,
    {
        let term = copied_term(&target.terms[i]);
        assert(bytes_view(term) == terms[i as int]);
        if i % 2 == 0 {
            adds.push(term);
        } else {
            removes.push(term);
        }
        i = i + 1;
    }
    proof {
        let said = RefTargetForm::Conflict { removes, adds }@;
        assert(terms_view(removes@) =~= Seq::new(terms.len() / 2, |i: int| terms[2 * i + 1]));
        assert(terms_view(adds@) =~= Seq::new((terms.len() + 1) / 2, |i: int| terms[2 * i]));
        assert(said == target_form(terms));
    }
    Some(Some(RefTargetForm::Conflict { removes, adds }))
}

// ─── States and remote references ─────────────────────────────────────────────

/// Why a form stands for nothing.
#[derive(Debug, PartialEq, Eq)]
pub enum FormError {
    /// It says something that is refused, for this reason.
    Refused(String),
    /// It lacks what every form of its kind has.
    Malformed,
}

pub enum FormErrorModel {
    Refused(Seq<char>),
    Malformed,
}

impl View for FormError {
    type V = FormErrorModel;

    open spec fn view(&self) -> FormErrorModel {
        match *self {
            FormError::Refused(message) => FormErrorModel::Refused(message@),
            FormError::Malformed => FormErrorModel::Malformed,
        }
    }
}

/// Whether a remote reference is followed by a local one.
#[derive(Debug, Clone, Copy, PartialEq, Eq, Structural)]
pub enum RemoteRefState {
    New,
    Followed,
}

/// A number with its sign.
pub open spec fn signed(n: int) -> Seq<char> {
    if n < 0 {
        "-"@ + decimal((-n) as nat)
    } else {
        decimal(n as nat)
    }
}

pub open spec fn formed_state(n: int) -> Result<RemoteRefState, FormErrorModel> {
    if n == 0 {
        Ok(RemoteRefState::New)
    } else if n == 1 {
        Ok(RemoteRefState::Followed)
    } else {
        Err(FormErrorModel::Refused("invalid remote ref state: "@ + signed(n)))
    }
}

pub open spec fn state_form(state: RemoteRefState) -> int {
    match state {
        RemoteRefState::New => 0,
        RemoteRefState::Followed => 1,
    }
}

fn remote_ref_state_to_proto(state: RemoteRefState) -> (n: i32)
    ensures
        n == state_form(state),
{
    match state {
        RemoteRefState::New => 0,
        RemoteRefState::Followed => 1,
    }
}

fn remote_ref_state_from_proto(n: i32) -> (r: Result<RemoteRefState, FormError>)
    ensures
        match r {
            Ok(state) => formed_state(n as int) == Ok::<RemoteRefState, FormErrorModel>(state),
            Err(e) => formed_state(n as int) == Err::<RemoteRefState, FormErrorModel>(e@),
        },
{
    if n == 0 {
        return Ok(RemoteRefState::New);
    }
    if n == 1 {
        return Ok(RemoteRefState::Followed);
    }
    let mut message = "invalid remote ref state: ".to_owned();
    let wide: i64 = n as i64;
    if wide < 0 {
        message.append("-");
        push_decimal(&mut message, (-wide) as u64);
        assert(message@ =~= "invalid remote ref state: "@ + signed(n as int));
    } else {
        push_decimal(&mut message, wide as u64);
    }
    Err(FormError::Refused(message))
}

/// A remote reference is followed exactly where its message says one, and new exactly
/// where it says zero; any other number is refused. What is written says the same.
pub proof fn one_means_followed(n: int, state: RemoteRefState)
    ensures
        formed_state(n) == Ok::<RemoteRefState, FormErrorModel>(RemoteRefState::Followed) <==> n
            == 1,
        formed_state(n) == Ok::<RemoteRefState, FormErrorModel>(RemoteRefState::New) <==> n == 0,
        formed_state(n) is Ok <==> n == 0 || n == 1,
        state_form(state) == 1 <==> state is Followed,
        state_form(state) == 0 <==> state is New,
{
}

/// A remote bookmark or tag.
#[derive(Debug, PartialEq, Eq)]
pub struct RemoteRef {
    pub target: RefTarget,
    pub state: RemoteRefState,
}

#[verifier::ext_equal]
pub struct RemoteRefModel {
    pub target: Seq<Option<Seq<u8>>>,
    pub state: RemoteRefState,
}

impl View for RemoteRef {
    type V = RemoteRefModel;

    open spec fn view(&self) -> RemoteRefModel {
        RemoteRefModel { target: self.target@, state: self.state }
    }
}

/// The bookmarks and tags of a remote.
#[derive(Debug, PartialEq, Eq)]
pub struct RemoteView {
    pub bookmarks: TextMap<RemoteRef>,
    pub tags: TextMap<RemoteRef>,
}

#[verifier::ext_equal]
pub struct RemoteViewModel {
    pub bookmarks: Map<Seq<char>, RemoteRefModel>,
    pub tags: Map<Seq<char>, RemoteRefModel>,
}

impl View for RemoteView {
    type V = RemoteViewModel;

    open spec fn view(&self) -> RemoteViewModel {
        RemoteViewModel { bookmarks: self.bookmarks@, tags: self.tags@ }
    }
}

/// A remote reference on the wire.
#[derive(Debug, Clone, PartialEq, Eq)]
pub struct RemoteRefForm {
    pub name: String,
    pub target_terms: Vec<Option<Vec<u8>>>,
    pub state: i32,
}

#[verifier::ext_equal]
pub struct RemoteRefFormModel {
    pub name: Seq<char>,
    pub target_terms: Seq<Option<Seq<u8>>>,
    pub state: int,
}

impl View for RemoteRefForm {
    type V = RemoteRefFormModel;

    open spec fn view(&self) -> RemoteRefFormModel {
        RemoteRefFormModel {
            name: self.name@,
            target_terms: terms_view(self.target_terms@),
            state: self.state as int,
        }
    }
}

/// The references of a remote on the wire.
#[derive(Debug, Clone, PartialEq, Eq)]
pub struct RemoteViewForm {
    pub name: String,
    pub bookmarks: Vec<RemoteRefForm>,
    pub tags: Vec<RemoteRefForm>,
}

#[verifier::ext_equal]
pub struct RemoteViewFormModel {
    pub name: Seq<char>,
    pub bookmarks: Seq<RemoteRefFormModel>,
    pub tags: Seq<RemoteRefFormModel>,
}

impl View for RemoteViewForm {
    type V = RemoteViewFormModel;

    open spec fn view(&self) -> RemoteViewFormModel {
        RemoteViewFormModel {
            name: self.name@,
            bookmarks: models(self.bookmarks@),
            tags: models(self.tags@),
        }
    }
}

/// The reference that a form stands for.
pub open spec fn formed_ref(form: RemoteRefFormModel) -> Result<RemoteRefModel, FormErrorModel> {
    if form.target_terms.len() % 2 == 0 {
        Err(
            FormErrorModel::Refused(
                "even number of ref target terms: "@ + decimal(form.target_terms.len()),
            ),
        )
    } else {
        match formed_state(form.state) {
            Ok(state) => Ok(RemoteRefModel { target: form.target_terms, state }),
            Err(e) => Err(e),
        }
    }
}

/// The references that the first `n` forms stand for, by name; of two of one name
/// the later counts. The first form that stands for nothing decides otherwise.
pub open spec fn formed_refs(list: Seq<RemoteRefFormModel>, n: nat) -> Result<
    Map<Seq<char>, RemoteRefModel>,
    FormErrorModel,
>
    decreases n,
{
    if n == 0 {
        Ok(Map::empty())
    } else {
        match (formed_refs(list, (n - 1) as nat), formed_ref(list[n - 1])) {
            (Err(e), _) => Err(e),
            (Ok(_), Err(e)) => Err(e),
            (Ok(refs), Ok(remote_ref)) => Ok(refs.insert(list[n - 1].name, remote_ref)),
        }
    }
}

pub open spec fn formed_remote_view(form: RemoteViewFormModel) -> Result<
    RemoteViewModel,
    FormErrorModel,
> {
    match formed_refs(form.bookmarks, form.bookmarks.len()) {
        Err(e) => Err(e),
        Ok(bookmarks) => match formed_refs(form.tags, form.tags.len()) {
            Err(e) => Err(e),
            Ok(tags) => Ok(RemoteViewModel { bookmarks, tags }),
        },
    }
}

pub open spec fn formed_remote_views(list: Seq<RemoteViewFormModel>, n: nat) -> Result<
    Map<Seq<char>, RemoteViewModel>,
    FormErrorModel,
>
    decreases n,
{
    if n == 0 {
        Ok(Map::empty())
    } else {
        match (formed_remote_views(list, (n - 1) as nat), formed_remote_view(list[n - 1])) {
            (Err(e), _) => Err(e),
            (Ok(_), Err(e)) => Err(e),
            (Ok(views), Ok(view)) => Ok(views.insert(list[n - 1].name, view)),
        }
    }
}

proof fn lemma_refs_error_stays(list: Seq<RemoteRefFormModel>, n: nat, total: nat)
    requires
        n <= total,
        formed_refs(list, n) is Err,
    ensures
        formed_refs(list, total) == formed_refs(list, n),
    decreases total,
{
    if n < total {
        lemma_refs_error_stays(list, n, (total - 1) as nat);
    }
}

proof fn lemma_views_error_stays(list: Seq<RemoteViewFormModel>, n: nat, total: nat)
    requires
        n <= total,
        formed_remote_views(list, n) is Err,
    ensures
        formed_remote_views(list, total) == formed_remote_views(list, n),
    decreases total,
{
    if n < total {
        lemma_views_error_stays(list, n, (total - 1) as nat);
    }
}

/// The reference read from a message has the message's own terms, an odd number of
/// them, and is followed where the message says so.
pub proof fn a_remote_reference_is_what_its_message_says(form: RemoteRefFormModel)
    ensures
        formed_ref(form) is Ok <==> form.target_terms.len() % 2 == 1 && (form.state == 0
            || form.state == 1),
        formed_ref(form) matches Ok(said) ==> said.target == form.target_terms && (said.state
            is Followed <==> form.state == 1),
{
}

/// A reference is in the map that was read exactly when a message names it, and it is
/// what the last message of that name says. The map is read exactly when every message
/// stands for a reference.
pub proof fn the_named_references_are_read(list: Seq<RemoteRefFormModel>, n: nat, name: Seq<char>)
    requires
        n <= list.len(),
    ensures
        formed_refs(list, n) is Ok <==> forall|i: int|
            0 <= i < n ==> formed_ref(#[trigger] list[i]) is Ok,
        formed_refs(list, n) matches Ok(refs) ==> (refs.contains_key(name) <==> exists|i: int|
            0 <= i < n && #[trigger] list[i].name == name),
        formed_refs(list, n) matches Ok(refs) ==> forall|i: int|
            0 <= i < n && (#[trigger] list[i]).name == name && (forall|j: int|
                i < j < n ==> (#[trigger] list[j]).name != name) ==> refs[name].target
                == list[i].target_terms && (refs[name].state is Followed <==> list[i].state == 1),
    decreases n,
{
    if n > 0 {
        the_named_references_are_read(list, (n - 1) as nat, name);
        a_remote_reference_is_what_its_message_says(list[n - 1]);
        if formed_refs(list, n) is Ok {
            if list[n - 1].name == name {
                assert(formed_refs(list, n)->Ok_0.contains_key(name));
            } else if formed_refs(list, n)->Ok_0.contains_key(name) {
                let i = choose|i: int| 0 <= i < n - 1 && #[trigger] list[i].name == name;
                assert(list[i].name == name);
            }
        }
    }
}

/// A remote's bookmarks are those its message lists as bookmarks, and its tags those it
/// lists as tags.
pub proof fn a_remote_has_the_references_of_its_message(form: RemoteViewFormModel, name: Seq<char>)
    ensures
        formed_remote_view(form) is Ok <==> (forall|i: int|
            0 <= i < form.bookmarks.len() ==> formed_ref(#[trigger] form.bookmarks[i]) is Ok) && (
        forall|i: int| 0 <= i < form.tags.len() ==> formed_ref(#[trigger] form.tags[i]) is Ok),
        formed_remote_view(form) matches Ok(view) ==> {
            &&& view.bookmarks.contains_key(name) <==> exists|i: int|
                0 <= i < form.bookmarks.len() && #[trigger] form.bookmarks[i].name == name
            &&& view.tags.contains_key(name) <==> exists|i: int|
                0 <= i < form.tags.len() && #[trigger] form.tags[i].name == name
            &&& forall|i: int|
                0 <= i < form.bookmarks.len() && (#[trigger] form.bookmarks[i]).name == name && (
                forall|j: int|
                    i < j < form.bookmarks.len() ==> (#[trigger] form.bookmarks[j]).name != name)
                    ==> view.bookmarks[name].target == form.bookmarks[i].target_terms
            &&& forall|i: int|
                0 <= i < form.tags.len() && (#[trigger] form.tags[i]).name == name && (forall|j: int|
                    i < j < form.tags.len() ==> (#[trigger] form.tags[j]).name != name)
                    ==> view.tags[name].target == form.tags[i].target_terms
        },
{
    the_named_references_are_read(form.bookmarks, form.bookmarks.len(), name);
    the_named_references_are_read(form.tags, form.tags.len(), name);
}

/// A remote is in the map that was read exactly when a message names it, and has what
/// the last message of that name says.
pub proof fn the_named_remotes_are_read(list: Seq<RemoteViewFormModel>, n: nat, remote: Seq<char>)
    requires
        n <= list.len(),
    ensures
        formed_remote_views(list, n) is Ok <==> forall|i: int|
            0 <= i < n ==> formed_remote_view(#[trigger] list[i]) is Ok,
        formed_remote_views(list, n) matches Ok(views) ==> (views.contains_key(remote)
            <==> exists|i: int| 0 <= i < n && #[trigger] list[i].name == remote),
        formed_remote_views(list, n) matches Ok(views) ==> forall|i: int|
            0 <= i < n && (#[trigger] list[i]).name == remote && (forall|j: int|
                i < j < n ==> (#[trigger] list[j]).name != remote) ==> formed_remote_view(list[i])
                == Ok::<RemoteViewModel, FormErrorModel>(views[remote]),
    decreases n,
{
    if n > 0 {
        the_named_remotes_are_read(list, (n - 1) as nat, remote);
        if formed_remote_views(list, n) is Ok {
            if list[n - 1].name == remote {
                assert(formed_remote_views(list, n)->Ok_0.contains_key(remote));
            } else if formed_remote_views(list, n)->Ok_0.contains_key(remote) {
                let i = choose|i: int| 0 <= i < n - 1 && #[trigger] list[i].name == remote;
                assert(list[i].name == remote);
            }
        }
    }
}

/// The messages of references name each of them once, with its own terms, and say one
/// exactly for a reference that is followed; the messages of a remote list its bookmarks
/// as bookmarks and its tags as tags.
pub proof fn the_messages_of_remotes_say_what_they_have(
    refs: Seq<(String, RemoteRef)>,
    remotes: Seq<(String, RemoteView)>,
)
    ensures
        ref_forms(refs).len() == refs.len(),
        forall|i: int|
            0 <= i < refs.len() ==> {
                let form = #[trigger] ref_forms(refs)[i];
                &&& form.name == refs[i].0@
                &&& form.target_terms == refs[i].1.target@
                &&& form.state == 1 <==> refs[i].1.state is Followed
                &&& form.state == 0 <==> refs[i].1.state is New
            },
        remote_view_forms(remotes).len() == remotes.len(),
        forall|i: int|
            0 <= i < remotes.len() ==> {
                let form = #[trigger] remote_view_forms(remotes)[i];
                &&& form.name == remotes[i].0@
                &&& form.bookmarks == ref_forms(remotes[i].1.bookmarks.items())
                &&& form.tags == ref_forms(remotes[i].1.tags.items())
            },
{
}

/// A model shows each field of the value under its own name.
pub proof fn remote_models_show_each_field(
    remote_ref: RemoteRef,
    view: RemoteView,
    ref_form: RemoteRefForm,
    form: RemoteViewForm,
)
    ensures
        remote_ref@.target == remote_ref.target@,
        remote_ref@.state == remote_ref.state,
        view@.bookmarks == view.bookmarks@,
        view@.tags == view.tags@,
        ref_form@.name == ref_form.name@,
        ref_form@.target_terms == terms_view(ref_form.target_terms@),
        ref_form@.state == ref_form.state,
        form@.name == form.name@,
        form@.bookmarks == models(form.bookmarks@),
        form@.tags == models(form.tags@),
{
}

fn copied_terms(terms: &Vec<Option<Vec<u8>>>) -> (r: Vec<Option<Vec<u8>>>)
    ensures
        terms_view(r@) == terms_view(terms@),
{
    let mut r: Vec<Option<Vec<u8>>> = Vec::new();
    let mut i: usize = 0;
    while i < terms.len()
        invariant
            i <= terms@.len(),
            r@.len() == i,
            forall|j: int| 0 <= j < i ==> bytes_view(#[trigger] r@[j]) == bytes_view(terms@[j]),
        decreases terms@.len() - i,
    {
        r.push(copied_term(&terms[i]));
        i = i + 1;
    }
    assert(terms_view(r@) =~= terms_view(terms@));
    r
}

fn remote_ref_from_proto(form: &RemoteRefForm) -> (r: Result<RemoteRef, FormError>)
    ensures
        match r {
            Ok(remote_ref) => formed_ref(form@) == Ok::<RemoteRefModel, FormErrorModel>(remote_ref@),
            Err(e) => formed_ref(form@) == Err::<RemoteRefModel, FormErrorModel>(e@),
        },
{
    if form.target_terms.len() % 2 == 0 {
        let mut message = "even number of ref target terms: ".to_owned();
        push_decimal(&mut message, form.target_terms.len() as u64);
        return Err(FormError::Refused(message));
    }
    let target = RefTarget { terms: copied_terms(&form.target_terms) };
    match remote_ref_state_from_proto(form.state) {
        Ok(state) => Ok(RemoteRef { target, state }),
        Err(e) => Err(e),
    }
}

fn remote_refs_from_proto(list: &Vec<RemoteRefForm>) -> (r: Result<TextMap<RemoteRef>, FormError>)
    ensures
        match r {
            Ok(refs) => formed_refs(models(list@), list@.len()) == Ok::<
                Map<Seq<char>, RemoteRefModel>,
                FormErrorModel,
            >(refs@),
            Err(e) => formed_refs(models(list@), list@.len()) == Err::<
                Map<Seq<char>, RemoteRefModel>,
                FormErrorModel,
            >(e@),
        },
{
    let ghost all = models(list@);
    let mut refs: TextMap<RemoteRef> = TextMap::new();
    let mut i: usize = 0;
    while i < list.len()
        invariant
            i <= list@.len(),
            all == models(list@),
            formed_refs(all, i as nat) == Ok::<Map<Seq<char>, RemoteRefModel>, FormErrorModel>(refs@),
        decreases list@.len() - i,
    {
        assert(all[i as int] == list@[i as int]@);
        match remote_ref_from_proto(&list[i]) {
            Ok(remote_ref) => {
                refs.insert(list[i].name.as_str(), remote_ref);
            },
            Err(e) => {
                proof {
                    lemma_refs_error_stays(all, (i + 1) as nat, all.len());
                }
                return Err(e);
            },
        }
        i = i + 1;
    }
    Ok(refs)
}

fn remote_views_from_proto(list: &Vec<RemoteViewForm>) -> (r: Result<TextMap<RemoteView>, FormError>)
    ensures
        match r {
            Ok(views) => formed_remote_views(models(list@), list@.len()) == Ok::<
                Map<Seq<char>, RemoteViewModel>,
                FormErrorModel,
            >(views@),
            Err(e) => formed_remote_views(models(list@), list@.len()) == Err::<
                Map<Seq<char>, RemoteViewModel>,
                FormErrorModel,
            >(e@),
        },
{
    let ghost all = models(list@);
    let mut views: TextMap<RemoteView> = TextMap::new();
    let mut i: usize = 0;
    while i < list.len()
        invariant
            i <= list@.len(),
            all == models(list@),
            formed_remote_views(all, i as nat) == Ok::<
                Map<Seq<char>, RemoteViewModel>,
                FormErrorModel,
            >(views@),
        decreases list@.len() - i,
    {
        assert(all[i as int] == list@[i as int]@);
        let bookmarks = match remote_refs_from_proto(&list[i].bookmarks) {
            Ok(bookmarks) => bookmarks,
            Err(e) => {
                proof {
                    lemma_views_error_stays(all, (i + 1) as nat, all.len());
                }
                return Err(e);
            },
        };
        let tags = match remote_refs_from_proto(&list[i].tags) {
            Ok(tags) => tags,
            Err(e) => {
                proof {
                    lemma_views_error_stays(all, (i + 1) as nat, all.len());
                }
                return Err(e);
            },
        };
        views.insert(list[i].name.as_str(), RemoteView { bookmarks, tags });
        i = i + 1;
    }
    Ok(views)
}

/// The forms of references, in the order of their names.
pub open spec fn ref_forms(items: Seq<(String, RemoteRef)>) -> Seq<RemoteRefFormModel> {
    Seq::new(
        items.len(),
        |i: int|
            RemoteRefFormModel {
                name: items[i].0@,
                target_terms: items[i].1.target@,
                state: state_form(items[i].1.state),
            },
    )
}

pub open spec fn remote_view_forms(items: Seq<(String, RemoteView)>) -> Seq<RemoteViewFormModel> {
    Seq::new(
        items.len(),
        |i: int|
            RemoteViewFormModel {
                name: items[i].0@,
                bookmarks: ref_forms(items[i].1.bookmarks.items()),
                tags: ref_forms(items[i].1.tags.items()),
            },
    )
}

fn remote_refs_to_proto(refs: &TextMap<RemoteRef>) -> (r: Vec<RemoteRefForm>)
    ensures
        models(r@) == ref_forms(refs.items()),
{
    let entries = refs.entries();
    let mut r: Vec<RemoteRefForm> = Vec::new();
    let mut i: usize = 0;
    while i < entries.len()
        invariant
            i <= entries@.len(),
            entries@ == refs.items(),
            r@.len() == i,
            forall|j: int| 0 <= j < i ==> (#[trigger] r@[j])@ == ref_forms(refs.items())[j],
        decreases entries@.len() - i,
    {
        r.push(
            RemoteRefForm {
                name: entries[i].0.clone(),
                target_terms: copied_terms(&entries[i].1.target.terms),
                state: remote_ref_state_to_proto(entries[i].1.state),
            },
        );
        i = i + 1;
    }
    assert(models(r@) =~= ref_forms(refs.items()));
    r
}

fn remote_views_to_proto(views: &TextMap<RemoteView>) -> (r: Vec<RemoteViewForm>)
    ensures
        models(r@) == remote_view_forms(views.items()),
{
    let entries = views.entries();
    let mut r: Vec<RemoteViewForm> = Vec::new();
    let mut i: usize = 0;
    while i < entries.len()
        invariant
            i <= entries@.len(),
            entries@ == views.items(),
            r@.len() == i,
            forall|j: int| 0 <= j < i ==> (#[trigger] r@[j])@ == remote_view_forms(views.items())[j],
        decreases entries@.len() - i,
    {
        r.push(
            RemoteViewForm {
                name: entries[i].0.clone(),
                bookmarks: remote_refs_to_proto(&entries[i].1.bookmarks),
                tags: remote_refs_to_proto(&entries[i].1.tags),
            },
        );
        i = i + 1;
    }
    assert(models(r@) =~= remote_view_forms(views.items()));
    r
}

/// Whether the targets of some references can be targets.
pub open spec fn valid_refs(items: Seq<(String, RemoteRef)>) -> bool {
    forall|i: int| 0 <= i < items.len() ==> is_target((#[trigger] items[i]).1.target@)
}

pub open spec fn valid_remote_views(items: Seq<(String, RemoteView)>) -> bool {
    forall|i: int|
        0 <= i < items.len() ==> valid_refs((#[trigger] items[i]).1.bookmarks.items())
            && valid_refs(items[i].1.tags.items())
}

proof fn lemma_refs_read_back(items: Seq<(String, RemoteRef)>, n: nat)
    requires
        valid_refs(items),
        n <= items.len(),
    ensures
        formed_refs(ref_forms(items), n) == Ok::<Map<Seq<char>, RemoteRefModel>, FormErrorModel>(
            entries_map(items.take(n as int)),
        ),
    decreases n,
{
    if n > 0 {
        lemma_refs_read_back(items, (n - 1) as nat);
        assert(items.take(n as int).drop_last() =~= items.take(n - 1));
        let item = items[n - 1];
        assert(items.take(n as int).last() == item);
        assert(is_target(item.1.target@));
        assert(formed_ref(ref_forms(items)[n - 1]) == Ok::<RemoteRefModel, FormErrorModel>(
            item.1@,
        ));
    }
}

proof fn lemma_remote_views_read_back(items: Seq<(String, RemoteView)>, n: nat)
    requires
        valid_remote_views(items),
        n <= items.len(),
    ensures
        formed_remote_views(remote_view_forms(items), n) == Ok::<
            Map<Seq<char>, RemoteViewModel>,
            FormErrorModel,
        >(entries_map(items.take(n as int))),
    decreases n,
{
    if n > 0 {
        lemma_remote_views_read_back(items, (n - 1) as nat);
        assert(items.take(n as int).drop_last() =~= items.take(n - 1));
        let item = items[n - 1];
        assert(items.take(n as int).last() == item);
        let bookmarks = item.1.bookmarks.items();
        let tags = item.1.tags.items();
        lemma_refs_read_back(bookmarks, bookmarks.len());
        lemma_refs_read_back(tags, tags.len());
        assert(bookmarks.take(bookmarks.len() as int) =~= bookmarks);
        assert(tags.take(tags.len() as int) =~= tags);
    }
}

// ─── Bookmarks as they were written before ────────────────────────────────────

/// A remote bookmark beside the local one of its name, on the wire.
#[derive(Debug, Clone, PartialEq, Eq)]
pub struct RemoteBookmarkForm {
    pub remote_name: String,
    pub target: Option<Option<RefTargetForm>>,
    pub state: Option<i32>,
}

#[verifier::ext_equal]
pub struct RemoteBookmarkFormModel {
    pub remote_name: Seq<char>,
    pub target: Option<Option<RefTargetFormModel>>,
    pub state: Option<int>,
}

pub open spec fn state_field(state: Option<i32>) -> Option<int> {
    match state {
        Some(n) => Some(n as int),
        None => None,
    }
}

impl View for RemoteBookmarkForm {
    type V = RemoteBookmarkFormModel;

    open spec fn view(&self) -> RemoteBookmarkFormModel {
        RemoteBookmarkFormModel {
            remote_name: self.remote_name@,
            target: target_field(self.target),
            state: state_field(self.state),
        }
    }
}

/// A bookmark, here and on the remotes, on the wire.
#[derive(Debug, Clone, PartialEq, Eq)]
pub struct BookmarkForm {
    pub name: String,
    pub local_target: Option<Option<RefTargetForm>>,
    pub remote_bookmarks: Vec<RemoteBookmarkForm>,
}

#[verifier::ext_equal]
pub struct BookmarkFormModel {
    pub name: Seq<char>,
    pub local_target: Option<Option<RefTargetFormModel>>,
    pub remote_bookmarks: Seq<RemoteBookmarkFormModel>,
}

impl View for BookmarkForm {
    type V = BookmarkFormModel;

    open spec fn view(&self) -> BookmarkFormModel {
        BookmarkFormModel {
            name: self.name@,
            local_target: target_field(self.local_target),
            remote_bookmarks: models(self.remote_bookmarks@),
        }
    }
}

/// The references of a remote, none where it was not heard of.
pub open spec fn remote_or_none(
    views: Map<Seq<char>, RemoteViewModel>,
    remote: Seq<char>,
) -> RemoteViewModel {
    if views.contains_key(remote) {
        views[remote]
    } else {
        RemoteViewModel { bookmarks: Map::empty(), tags: Map::empty() }
    }
}

pub open spec fn state_or_new(state: Option<int>) -> Result<RemoteRefState, FormErrorModel> {
    match state {
        Some(n) => formed_state(n),
        None => Ok(RemoteRefState::New),
    }
}

/// The remotes once one of them has a bookmark more.
pub open spec fn with_remote(
    views: Map<Seq<char>, RemoteViewModel>,
    name: Seq<char>,
    form: RemoteBookmarkFormModel,
) -> Result<Map<Seq<char>, RemoteViewModel>, FormErrorModel> {
    match state_or_new(form.state) {
        Err(e) => Err(e),
        Ok(state) => match formed_target(form.target) {
            None => Err(FormErrorModel::Malformed),
            Some(target) => {
                let view = remote_or_none(views, form.remote_name);
                Ok(
                    views.insert(
                        form.remote_name,
                        RemoteViewModel {
                            bookmarks: view.bookmarks.insert(name, RemoteRefModel { target, state }),
                            tags: view.tags,
                        },
                    ),
                )
            },
        },
    }
}

pub open spec fn with_remotes(
    views: Map<Seq<char>, RemoteViewModel>,
    name: Seq<char>,
    list: Seq<RemoteBookmarkFormModel>,
    n: nat,
) -> Result<Map<Seq<char>, RemoteViewModel>, FormErrorModel>
    decreases n,
{
    if n == 0 {
        Ok(views)
    } else {
        match with_remotes(views, name, list, (n - 1) as nat) {
            Err(e) => Err(e),
            Ok(views) => with_remote(views, name, list[n - 1]),
        }
    }
}

/// The local bookmarks and the remotes that the first `n` forms stand for. A
/// local bookmark that points nowhere is none.
pub open spec fn formed_bookmarks(list: Seq<BookmarkFormModel>, n: nat) -> Result<
    (Map<Seq<char>, Seq<Option<Seq<u8>>>>, Map<Seq<char>, RemoteViewModel>),
    FormErrorModel,
>
    decreases n,
{
    if n == 0 {
        Ok((Map::empty(), Map::empty()))
    } else {
        match formed_bookmarks(list, (n - 1) as nat) {
            Err(e) => Err(e),
            Ok((locals, remotes)) => with_bookmark(locals, remotes, list[n - 1]),
        }
    }
}

pub open spec fn with_bookmark(
    locals: Map<Seq<char>, Seq<Option<Seq<u8>>>>,
    remotes: Map<Seq<char>, RemoteViewModel>,
    form: BookmarkFormModel,
) -> Result<
    (Map<Seq<char>, Seq<Option<Seq<u8>>>>, Map<Seq<char>, RemoteViewModel>),
    FormErrorModel,
> {
    match formed_target(form.local_target) {
        None => Err(FormErrorModel::Malformed),
        Some(target) => match with_remotes(
            remotes,
            form.name,
            form.remote_bookmarks,
            form.remote_bookmarks.len(),
        ) {
            Err(e) => Err(e),
            Ok(remotes) => if target == absent() {
                Ok((locals, remotes))
            } else {
                Ok((locals.insert(form.name, target), remotes))
            },
        },
    }
}

proof fn lemma_remotes_error_stays(
    views: Map<Seq<char>, RemoteViewModel>,
    name: Seq<char>,
    list: Seq<RemoteBookmarkFormModel>,
    n: nat,
    total: nat,
)
    requires
        n <= total,
        with_remotes(views, name, list, n) is Err,
    ensures
        with_remotes(views, name, list, total) == with_remotes(views, name, list, n),
    decreases total,
{
    if n < total {
        lemma_remotes_error_stays(views, name, list, n, (total - 1) as nat);
    }
}

proof fn lemma_bookmarks_error_stays(list: Seq<BookmarkFormModel>, n: nat, total: nat)
    requires
        n <= total,
        formed_bookmarks(list, n) is Err,
    ensures
        formed_bookmarks(list, total) == formed_bookmarks(list, n),
    decreases total,
{
    if n < total {
        lemma_bookmarks_error_stays(list, n, (total - 1) as nat);
    }
}

/// A bookmark that a message has for a remote is added to that remote and to no other:
/// with the target and the state of the message, beside what the remote has already.
pub proof fn a_bookmark_is_added_to_its_remote(
    views: Map<Seq<char>, RemoteViewModel>,
    name: Seq<char>,
    form: RemoteBookmarkFormModel,
    remote: Seq<char>,
    other: Seq<char>,
)
    ensures
        with_remote(views, name, form) is Ok <==> formed_target(form.target) is Some && (form.state
            is None || form.state == Some(0int) || form.state == Some(1int)),
        with_remote(views, name, form) matches Ok(after) ==> {
            &&& after.contains_key(form.remote_name)
            &&& after[form.remote_name].bookmarks.contains_key(name)
            &&& Some(after[form.remote_name].bookmarks[name].target) == formed_target(form.target)
            &&& after[form.remote_name].bookmarks[name].state is Followed <==> form.state == Some(
                1int,
            )
            &&& remote != form.remote_name ==> (after.contains_key(remote) <==> views.contains_key(
                remote,
            )) && after[remote] == views[remote]
            &&& views.contains_key(form.remote_name) ==> after[form.remote_name].tags
                == views[form.remote_name].tags
            &&& !views.contains_key(form.remote_name) ==> after[form.remote_name].tags == Map::<
                Seq<char>,
                RemoteRefModel,
            >::empty()
            &&& other != name ==> (after[form.remote_name].bookmarks.contains_key(other)
                <==> views.contains_key(form.remote_name)
                && views[form.remote_name].bookmarks.contains_key(other))
            &&& other != name && views.contains_key(form.remote_name)
                ==> after[form.remote_name].bookmarks[other]
                == views[form.remote_name].bookmarks[other]
        },
{
}

/// Every bookmark that a message has for a remote is there once all were added, with the
/// target of the last one for that remote; a remote that none is for stays as it was.
pub proof fn every_remote_gets_its_bookmark(
    views: Map<Seq<char>, RemoteViewModel>,
    name: Seq<char>,
    list: Seq<RemoteBookmarkFormModel>,
    n: nat,
    remote: Seq<char>,
)
    requires
        n <= list.len(),
        with_remotes(views, name, list, n) is Ok,
    ensures
        ({
            let after = with_remotes(views, name, list, n)->Ok_0;
            &&& forall|i: int|
                0 <= i < n && (#[trigger] list[i]).remote_name == remote ==> after.contains_key(
                    remote,
                ) && after[remote].bookmarks.contains_key(name)
            &&& forall|i: int|
                0 <= i < n && (#[trigger] list[i]).remote_name == remote && (forall|j: int|
                    i < j < n ==> (#[trigger] list[j]).remote_name != remote) ==> Some(
                    after[remote].bookmarks[name].target,
                ) == formed_target(list[i].target) && (after[remote].bookmarks[name].state
                    is Followed <==> list[i].state == Some(1int))
            &&& (forall|i: int| 0 <= i < n ==> (#[trigger] list[i]).remote_name != remote) ==> (
            after.contains_key(remote) <==> views.contains_key(remote)) && after[remote]
                == views[remote]
            &&& views.contains_key(remote) ==> after.contains_key(remote) && after[remote].tags
                == views[remote].tags
            &&& forall|other: Seq<char>|
                other != name && views.contains_key(remote) ==> (
                #[trigger] after[remote].bookmarks.contains_key(other)
                    <==> views[remote].bookmarks.contains_key(other))
                    && after[remote].bookmarks[other] == views[remote].bookmarks[other]
        }),
    decreases n,
{
    if n > 0 {
        every_remote_gets_its_bookmark(views, name, list, (n - 1) as nat, remote);
        let before = with_remotes(views, name, list, (n - 1) as nat)->Ok_0;
        let after = with_remotes(views, name, list, n)->Ok_0;
        a_bookmark_is_added_to_its_remote(before, name, list[n - 1], remote, name);
        if list[n - 1].remote_name != remote {
            assert(after[remote] == before[remote]);
            assert(after.contains_key(remote) == before.contains_key(remote));
        }
    }
}

/// A local bookmark is in the map that was read exactly when a message of its name gives
/// it a target that points somewhere, and it points where the last such message says.
pub proof fn the_named_local_bookmarks_are_read(
    list: Seq<BookmarkFormModel>,
    n: nat,
    name: Seq<char>,
)
    requires
        n <= list.len(),
        formed_bookmarks(list, n) is Ok,
    ensures
        ({
            let locals = formed_bookmarks(list, n)->Ok_0.0;
            &&& forall|i: int| 0 <= i < n ==> formed_target((#[trigger] list[i]).local_target) is Some
            &&& locals.contains_key(name) <==> exists|i: int|
                0 <= i < n && (#[trigger] list[i]).name == name && formed_target(
                    list[i].local_target,
                ) != Some(absent())
            &&& forall|i: int|
                0 <= i < n && (#[trigger] list[i]).name == name && formed_target(list[i].local_target)
                    != Some(absent()) && (forall|j: int|
                    i < j < n ==> (#[trigger] list[j]).name != name || formed_target(
                        list[j].local_target,
                    ) == Some(absent())) ==> Some(locals[name]) == formed_target(
                    list[i].local_target,
                )
        }),
    decreases n,
{
    if n > 0 {
        the_named_local_bookmarks_are_read(list, (n - 1) as nat, name);
        let locals = formed_bookmarks(list, n)->Ok_0.0;
        let before = formed_bookmarks(list, (n - 1) as nat)->Ok_0.0;
        if list[n - 1].name == name && formed_target(list[n - 1].local_target) != Some(absent()) {
            assert(locals.contains_key(name));
        } else {
            assert(locals.contains_key(name) == before.contains_key(name));
            assert(locals[name] == before[name]);
            if locals.contains_key(name) {
                let i = choose|i: int|
                    0 <= i < n - 1 && (#[trigger] list[i]).name == name && formed_target(
                        list[i].local_target,
                    ) != Some(absent());
                assert(list[i].name == name);
            }
        }
    }
}

fn remote_bookmarks_from_proto(
    views: &mut TextMap<RemoteView>,
    name: &str,
    list: &Vec<RemoteBookmarkForm>,
) -> (r: Result<(), FormError>)
    ensures
        match r {
            Ok(_) => with_remotes(old(views)@, name@, models(list@), list@.len()) == Ok::<
                Map<Seq<char>, RemoteViewModel>,
                FormErrorModel,
            >(final(views)@),
            Err(e) => with_remotes(old(views)@, name@, models(list@), list@.len()) == Err::<
                Map<Seq<char>, RemoteViewModel>,
                FormErrorModel,
            >(e@),
        },
{
    let ghost all = models(list@);
    let ghost before = views@;
    let mut i: usize = 0;
    while i < list.len()
        invariant
            i <= list@.len(),
            all == models(list@),
            before == old(views)@,
            with_remotes(before, name@, all, i as nat) == Ok::<
                Map<Seq<char>, RemoteViewModel>,
                FormErrorModel,
            >(views@),
        decreases list@.len() - i,
    {
        assert(all[i as int] == list@[i as int]@);
        let ghost now = views@;
        let read = match list[i].state {
            Some(n) => remote_ref_state_from_proto(n),
            None => Ok(RemoteRefState::New),
        };
        let state = match read {
            Ok(state) => state,
            Err(e) => {
                proof {
                    lemma_remotes_error_stays(before, name@, all, (i + 1) as nat, all.len());
                }
                return Err(e);
            },
        };
        let target = match ref_target_from_proto(&list[i].target) {
            Some(target) => target,
            None => {
                proof {
                    lemma_remotes_error_stays(before, name@, all, (i + 1) as nat, all.len());
                }
                return Err(FormError::Malformed);
            },
        };
        let remote = list[i].remote_name.as_str();
        let view = match views.remove(remote) {
            Some(view) => view,
            None => RemoteView { bookmarks: TextMap::new(), tags: TextMap::new() },
        };
        assert(view@ =~= remote_or_none(now, remote@));
        let ghost kept = view@;
        let RemoteView { mut bookmarks, tags } = view;
        bookmarks.insert(name, RemoteRef { target, state });
        let view = RemoteView { bookmarks, tags };
        views.insert(remote, view);
        proof {
            let said = RemoteViewModel {
                bookmarks: kept.bookmarks.insert(name@, RemoteRefModel { target: target@, state }),
                tags: kept.tags,
            };
            assert(view@ =~= said);
            assert(views@ =~= now.insert(remote@, said));
        }
        i = i + 1;
    }
    Ok(())
}

fn bookmark_views_from_proto_legacy(list: &Vec<BookmarkForm>) -> (r: Result<
    (TextMap<RefTarget>, TextMap<RemoteView>),
    FormError,
>)
    ensures
        match r {
            Ok((locals, remotes)) => formed_bookmarks(models(list@), list@.len()) == Ok::<
                (Map<Seq<char>, Seq<Option<Seq<u8>>>>, Map<Seq<char>, RemoteViewModel>),
                FormErrorModel,
            >((locals@, remotes@)),
            Err(e) => formed_bookmarks(models(list@), list@.len()) == Err::<
                (Map<Seq<char>, Seq<Option<Seq<u8>>>>, Map<Seq<char>, RemoteViewModel>),
                FormErrorModel,
            >(e@),
        },
{
    let ghost all = models(list@);
    let mut locals: TextMap<RefTarget> = TextMap::new();
    let mut remotes: TextMap<RemoteView> = TextMap::new();
    let mut i: usize = 0;
    while i < list.len()
        invariant
            i <= list@.len(),
            all == models(list@),
            formed_bookmarks(all, i as nat) == Ok::<
                (Map<Seq<char>, Seq<Option<Seq<u8>>>>, Map<Seq<char>, RemoteViewModel>),
                FormErrorModel,
            >((locals@, remotes@)),
        decreases list@.len() - i,
    {
        assert(all[i as int] == list@[i as int]@);
        let target = match ref_target_from_proto(&list[i].local_target) {
            Some(target) => target,
            None => {
                proof {
                    lemma_bookmarks_error_stays(all, (i + 1) as nat, all.len());
                }
                return Err(FormError::Malformed);
            },
        };
        match remote_bookmarks_from_proto(
            &mut remotes,
            list[i].name.as_str(),
            &list[i].remote_bookmarks,
        ) {
            Ok(_) => {},
            Err(e) => {
                proof {
                    lemma_bookmarks_error_stays(all, (i + 1) as nat, all.len());
                }
                return Err(e);
            },
        }
        if target.is_present() {
            locals.insert(list[i].name.as_str(), target);
        }
        i = i + 1;
    }
    Ok((locals, remotes))
}

/// The forms that a bookmark has for the remotes, of the first `n`, that have it.
pub open spec fn remote_bookmark_forms(
    remotes: Seq<(String, RemoteView)>,
    name: Seq<char>,
    n: nat,
) -> Seq<RemoteBookmarkFormModel>
    decreases n,
{
    if n == 0 {
        Seq::empty()
    } else {
        let before = remote_bookmark_forms(remotes, name, (n - 1) as nat);
        let bookmarks = remotes[n - 1].1@.bookmarks;
        if bookmarks.contains_key(name) {
            before.push(
                RemoteBookmarkFormModel {
                    remote_name: remotes[n - 1].0@,
                    target: Some(Some(target_form(bookmarks[name].target))),
                    state: Some(state_form(bookmarks[name].state)),
                },
            )
        } else {
            before
        }
    }
}

pub open spec fn bookmark_form(
    locals: Map<Seq<char>, Seq<Option<Seq<u8>>>>,
    remotes: Seq<(String, RemoteView)>,
    name: Seq<char>,
) -> BookmarkFormModel {
    BookmarkFormModel {
        name,
        local_target: Some(
            Some(
                target_form(
                    if locals.contains_key(name) {
                        locals[name]
                    } else {
                        absent()
                    },
                ),
            ),
        ),
        remote_bookmarks: remote_bookmark_forms(remotes, name, remotes.len()),
    }
}

/// Whether one of the first `n` remotes has a bookmark of that name.
pub open spec fn on_a_remote(remotes: Seq<(String, RemoteView)>, name: Seq<char>, n: nat) -> bool {
    exists|i: int| 0 <= i < n && (#[trigger] remotes[i]).1@.bookmarks.contains_key(name)
}

pub open spec fn form_names(forms: Seq<BookmarkFormModel>) -> Seq<Seq<char>> {
    Seq::new(forms.len(), |i: int| forms[i].name)
}

/// Whether these are the forms of all bookmarks, here or on a remote, in the
/// order of their names.
pub open spec fn are_bookmark_forms(
    locals: Map<Seq<char>, Seq<Option<Seq<u8>>>>,
    remotes: Seq<(String, RemoteView)>,
    forms: Seq<BookmarkFormModel>,
) -> bool {
    &&& texts_increase(form_names(forms))
    &&& forall|name: Seq<char>| #[trigger]
        form_names(forms).contains(name) <==> locals.contains_key(name) || on_a_remote(
            remotes,
            name,
            remotes.len(),
        )
    &&& forall|i: int|
        0 <= i < forms.len() ==> #[trigger] forms[i] == bookmark_form(locals, remotes, forms[i].name)
}

/// The messages a bookmark has for the remotes: one for each remote that has it, under
/// the remote's name, with the terms and the state that it has there, and no other.
pub proof fn a_bookmark_has_a_message_for_each_remote(
    remotes: Seq<(String, RemoteView)>,
    name: Seq<char>,
    n: nat,
)
    requires
        n <= remotes.len(),
    ensures
        ({
            let forms = remote_bookmark_forms(remotes, name, n);
            &&& forms.len() <= n
            &&& forall|i: int|
                0 <= i < n && (#[trigger] remotes[i]).1@.bookmarks.contains_key(name)
                    ==> is_remote_bookmark(forms, remotes[i], name)
            &&& forall|k: int|
                0 <= k < forms.len() ==> exists|i: int|
                    0 <= i < n && (#[trigger] remotes[i]).1@.bookmarks.contains_key(name)
                        && (#[trigger] forms[k]).remote_name == remotes[i].0@ && forms[k].target
                        == Some(Some(target_form(remotes[i].1@.bookmarks[name].target))) && (
                    forms[k].state == Some(1int) <==> remotes[i].1@.bookmarks[name].state
                        is Followed)
        }),
    decreases n,
{
    if n > 0 {
        a_bookmark_has_a_message_for_each_remote(remotes, name, (n - 1) as nat);
        let before = remote_bookmark_forms(remotes, name, (n - 1) as nat);
        let forms = remote_bookmark_forms(remotes, name, n);
        assert forall|i: int|
            0 <= i < n && (#[trigger] remotes[i]).1@.bookmarks.contains_key(
                name,
            ) implies is_remote_bookmark(forms, remotes[i], name) by {
            if i < n - 1 {
                assert(is_remote_bookmark(before, remotes[i], name));
                let k = choose|k: int| #[trigger] is_remote_bookmark_at(before, k, remotes[i], name);
                assert(forms[k] == before[k]);
                assert(is_remote_bookmark_at(forms, k, remotes[i], name));
            } else {
                assert(is_remote_bookmark_at(forms, before.len() as int, remotes[i], name));
            }
        }
        assert forall|k: int| 0 <= k < forms.len() implies exists|i: int|
            0 <= i < n && (#[trigger] remotes[i]).1@.bookmarks.contains_key(name)
                && (#[trigger] forms[k]).remote_name == remotes[i].0@ && forms[k].target == Some(
                Some(target_form(remotes[i].1@.bookmarks[name].target)),
            ) && (forms[k].state == Some(1int) <==> remotes[i].1@.bookmarks[name].state is Followed) by {
            if k < before.len() {
                assert(forms[k] == before[k]);
            } else {
                assert(remotes[n - 1].1@.bookmarks.contains_key(name));
            }
        }
    }
}

/// Whether the message at a place is that of a bookmark on a remote.
pub open spec fn is_remote_bookmark_at(
    forms: Seq<RemoteBookmarkFormModel>,
    k: int,
    remote: (String, RemoteView),
    name: Seq<char>,
) -> bool {
    &&& 0 <= k < forms.len()
    &&& forms[k].remote_name == remote.0@
    &&& forms[k].target == Some(Some(target_form(remote.1@.bookmarks[name].target)))
    &&& forms[k].state == Some(1int) <==> remote.1@.bookmarks[name].state is Followed
}

/// Whether a bookmark on a remote has a message.
pub open spec fn is_remote_bookmark(
    forms: Seq<RemoteBookmarkFormModel>,
    remote: (String, RemoteView),
    name: Seq<char>,
) -> bool {
    exists|k: int| is_remote_bookmark_at(forms, k, remote, name)
}

fn bookmark_names(locals: &TextMap<RefTarget>, remotes: &TextMap<RemoteView>) -> (names: Vec<String>)
    ensures
        texts_increase(models(names@)),
        forall|name: Seq<char>| #[trigger]
            models(names@).contains(name) <==> locals@.contains_key(name) || on_a_remote(
                remotes.items(),
                name,
                remotes.items().len(),
            ),
{
    let mut names: Vec<String> = Vec::new();
    let entries = locals.entries();
    proof {
        lemma_entries_map(entries@);
    }
    let mut i: usize = 0;
    while i < entries.len()
        invariant
            i <= entries@.len(),
            texts_increase(models(names@)),
            forall|name: Seq<char>| #[trigger]
                models(names@).contains(name) <==> exists|j: int|
                    0 <= j < i && #[trigger] entries@[j].0@ == name,
        decreases entries@.len() - i,
    {
        let ghost before = models(names@);
        insert_text(&mut names, entries[i].0.as_str());
        assert forall|name: Seq<char>| #[trigger] models(names@).contains(name) <==> exists|j: int|
            0 <= j < i + 1 && #[trigger] entries@[j].0@ == name by {
            if before.contains(name) {
                let j = choose|j: int| 0 <= j < i && #[trigger] entries@[j].0@ == name;
                assert(entries@[j].0@ == name);
            }
            assert(entries@[i as int].0@ == entries@[i as int].0@);
        }
        i = i + 1;
    }
    assert forall|name: Seq<char>| #[trigger] models(names@).contains(name)
        <==> locals@.contains_key(name) || on_a_remote(remotes.items(), name, 0) by {
        if locals@.contains_key(name) {
            let j = choose|j: int| 0 <= j < entries@.len() && #[trigger] entries@[j].0@ == name;
            assert(entries@[j].0@ == name);
        }
    }
    let views = remotes.entries();
    let mut v: usize = 0;
    while v < views.len()
        invariant
            v <= views@.len(),
            views@ == remotes.items(),
            texts_increase(models(names@)),
            forall|name: Seq<char>| #[trigger]
                models(names@).contains(name) <==> locals@.contains_key(name) || on_a_remote(
                    remotes.items(),
                    name,
                    v as nat,
                ),
        decreases views@.len() - v,
    {
        let ghost start = models(names@);
        let refs = views[v].1.bookmarks.entries();
        proof {
            lemma_entries_map(refs@);
        }
        let mut i: usize = 0;
        while i < refs.len()
            invariant
                i <= refs@.len(),
                texts_increase(models(names@)),
                forall|name: Seq<char>| #[trigger]
                    models(names@).contains(name) <==> start.contains(name) || exists|j: int|
                        0 <= j < i && #[trigger] refs@[j].0@ == name,
            decreases refs@.len() - i,
        {
            let ghost before = models(names@);
            insert_text(&mut names, refs[i].0.as_str());
            assert forall|name: Seq<char>| #[trigger] models(names@).contains(name)
                <==> start.contains(name) || exists|j: int|
                0 <= j < i + 1 && #[trigger] refs@[j].0@ == name by {
                if before.contains(name) && !start.contains(name) {
                    let j = choose|j: int| 0 <= j < i && #[trigger] refs@[j].0@ == name;
                    assert(refs@[j].0@ == name);
                }
                assert(refs@[i as int].0@ == refs@[i as int].0@);
            }
            i = i + 1;
        }
        assert forall|name: Seq<char>| #[trigger] models(names@).contains(name)
            <==> locals@.contains_key(name) || on_a_remote(
            remotes.items(),
            name,
            (v + 1) as nat,
        ) by {
            let here = remotes.items()[v as int].1@.bookmarks;
            assert(here == entries_map(refs@));
            if here.contains_key(name) {
                let j = choose|j: int| 0 <= j < refs@.len() && #[trigger] refs@[j].0@ == name;
                assert(refs@[j].0@ == name);
                assert(on_a_remote(remotes.items(), name, (v + 1) as nat));
            }
            if on_a_remote(remotes.items(), name, v as nat) {
                let k = choose|k: int|
                    0 <= k < v && (#[trigger] remotes.items()[k]).1@.bookmarks.contains_key(name);
                assert(remotes.items()[k].1@.bookmarks.contains_key(name));
                assert(on_a_remote(remotes.items(), name, (v + 1) as nat));
            }
            if on_a_remote(remotes.items(), name, (v + 1) as nat) && !here.contains_key(name) {
                let k = choose|k: int|
                    0 <= k < v + 1 && (#[trigger] remotes.items()[k]).1@.bookmarks.contains_key(
                        name,
                    );
                assert(k < v);
                assert(on_a_remote(remotes.items(), name, v as nat));
            }
        }
        v = v + 1;
    }
    names
}

fn remote_bookmarks_to_proto(remotes: &TextMap<RemoteView>, name: &str) -> (r: Vec<
    RemoteBookmarkForm,
>)
    ensures
        models(r@) == remote_bookmark_forms(remotes.items(), name@, remotes.items().len()),
{
    let entries = remotes.entries();
    let mut r: Vec<RemoteBookmarkForm> = Vec::new();
    assert(models(r@) =~= Seq::empty());
    let mut i: usize = 0;
    while i < entries.len()
        invariant
            i <= entries@.len(),
            entries@ == remotes.items(),
            models(r@) == remote_bookmark_forms(remotes.items(), name@, i as nat),
        decreases entries@.len() - i,
    {
        match entries[i].1.bookmarks.get(name) {
            Some(remote_ref) => {
                let ghost before = r@;
                r.push(
                    RemoteBookmarkForm {
                        remote_name: entries[i].0.clone(),
                        target: ref_target_to_proto(&remote_ref.target),
                        state: Some(remote_ref_state_to_proto(remote_ref.state)),
                    },
                );
                assert(models(r@) =~= models(before).push(r@.last()@));
            },
            None => {},
        }
        i = i + 1;
    }
    r
}

fn bookmark_views_to_proto_legacy(
    locals: &TextMap<RefTarget>,
    remotes: &TextMap<RemoteView>,
) -> (r: Vec<BookmarkForm>)
    ensures
        are_bookmark_forms(locals@, remotes.items(), models(r@)),
{
    let names = bookmark_names(locals, remotes);
    let mut r: Vec<BookmarkForm> = Vec::new();
    let mut i: usize = 0;
    while i < names.len()
        invariant
            i <= names@.len(),
            r@.len() == i,
            forall|j: int|
                0 <= j < i ==> (#[trigger] r@[j])@ == bookmark_form(
                    locals@,
                    remotes.items(),
                    names@[j]@,
                ),
        decreases names@.len() - i,
    {
        let local_target = match locals.get(names[i].as_str()) {
            Some(target) => ref_target_to_proto(target),
            None => {
                let nowhere = absent_target();
                ref_target_to_proto(&nowhere)
            },
        };
        r.push(
            BookmarkForm {
                name: names[i].clone(),
                local_target,
                remote_bookmarks: remote_bookmarks_to_proto(remotes, names[i].as_str()),
            },
        );
        i = i + 1;
    }
    proof {
        let forms = models(r@);
        assert forall|j: int| 0 <= j < forms.len() implies #[trigger] forms[j] == bookmark_form(
            locals@,
            remotes.items(),
            forms[j].name,
        ) by {
            assert(forms[j] == r@[j]@);
        }
        assert(form_names(forms) =~= models(names@)) by {
            assert forall|j: int| 0 <= j < forms.len() implies #[trigger] form_names(forms)[j]
                == models(names@)[j] by {
                assert(forms[j] == r@[j]@);
            }
        }
    }
    r
}

// ─── Views ────────────────────────────────────────────────────────────────────

/// The workspace that a commit without one belongs to.
pub const DEFAULT_WORKSPACE: &'static str = "default";

/// How the repository looks after an operation.
#[derive(Debug, PartialEq, Eq)]
pub struct RepoView {
    /// The visible heads, in no order that means anything.
    pub head_ids: Vec<Vec<u8>>,
    pub local_bookmarks: TextMap<RefTarget>,
    pub local_tags: TextMap<RefTarget>,
    pub remote_views: TextMap<RemoteView>,
    pub git_refs: TextMap<RefTarget>,
    pub git_head: RefTarget,
    /// The commit that each workspace has checked out.
    pub wc_commit_ids: TextMap<Vec<u8>>,
}

#[verifier::ext_equal]
pub struct RepoViewModel {
    pub head_ids: Set<Seq<u8>>,
    pub local_bookmarks: Map<Seq<char>, Seq<Option<Seq<u8>>>>,
    pub local_tags: Map<Seq<char>, Seq<Option<Seq<u8>>>>,
    pub remote_views: Map<Seq<char>, RemoteViewModel>,
    pub git_refs: Map<Seq<char>, Seq<Option<Seq<u8>>>>,
    pub git_head: Seq<Option<Seq<u8>>>,
    pub wc_commit_ids: Map<Seq<char>, Seq<u8>>,
}

impl View for RepoView {
    type V = RepoViewModel;

    open spec fn view(&self) -> RepoViewModel {
        RepoViewModel {
            head_ids: models(self.head_ids@).to_set(),
            local_bookmarks: self.local_bookmarks@,
            local_tags: self.local_tags@,
            remote_views: self.remote_views@,
            git_refs: self.git_refs@,
            git_head: self.git_head@,
            wc_commit_ids: self.wc_commit_ids@,
        }
    }
}

/// A tag on the wire.
#[derive(Debug, Clone, PartialEq, Eq)]
pub struct TagForm {
    pub name: String,
    pub target: Option<Option<RefTargetForm>>,
}

#[verifier::ext_equal]
pub struct TagFormModel {
    pub name: Seq<char>,
    pub target: Option<Option<RefTargetFormModel>>,
}

impl View for TagForm {
    type V = TagFormModel;

    open spec fn view(&self) -> TagFormModel {
        TagFormModel { name: self.name@, target: target_field(self.target) }
    }
}

/// A reference of the underlying Git repository on the wire. The commit counts
/// where there is no target.
#[derive(Debug, Clone, PartialEq, Eq)]
pub struct GitRefForm {
    pub name: String,
    pub commit_id: Vec<u8>,
    pub target: Option<Option<RefTargetForm>>,
}

#[verifier::ext_equal]
pub struct GitRefFormModel {
    pub name: Seq<char>,
    pub commit_id: Seq<u8>,
    pub target: Option<Option<RefTargetFormModel>>,
}

impl View for GitRefForm {
    type V = GitRefFormModel;

    open spec fn view(&self) -> GitRefFormModel {
        GitRefFormModel {
            name: self.name@,
            commit_id: self.commit_id@,
            target: target_field(self.target),
        }
    }
}

/// A view on the wire.
#[derive(Debug, Clone, PartialEq, Eq)]
pub struct RepoViewForm {
    pub head_ids: Vec<Vec<u8>>,
    pub wc_commit_id: Vec<u8>,
    pub wc_commit_ids: Vec<(String, Vec<u8>)>,
    pub bookmarks: Vec<BookmarkForm>,
    pub local_tags: Vec<TagForm>,
    pub remote_views: Vec<RemoteViewForm>,
    pub git_refs: Vec<GitRefForm>,
    pub git_head_legacy: Vec<u8>,
    pub git_head: Option<Option<RefTargetForm>>,
    pub has_git_refs_migrated_to_remote_tags: bool,
}

#[verifier::ext_equal]
pub struct RepoViewFormModel {
    pub head_ids: Seq<Seq<u8>>,
    pub wc_commit_id: Seq<u8>,
    pub wc_commit_ids: Map<Seq<char>, Seq<u8>>,
    pub bookmarks: Seq<BookmarkFormModel>,
    pub local_tags: Seq<TagFormModel>,
    pub remote_views: Seq<RemoteViewFormModel>,
    pub git_refs: Seq<GitRefFormModel>,
    pub git_head_legacy: Seq<u8>,
    pub git_head: Option<Option<RefTargetFormModel>>,
    pub has_git_refs_migrated_to_remote_tags: bool,
}

impl View for RepoViewForm {
    type V = RepoViewFormModel;

    open spec fn view(&self) -> RepoViewFormModel {
        RepoViewFormModel {
            head_ids: models(self.head_ids@),
            wc_commit_id: self.wc_commit_id@,
            wc_commit_ids: entries_map(self.wc_commit_ids@),
            bookmarks: models(self.bookmarks@),
            local_tags: models(self.local_tags@),
            remote_views: models(self.remote_views@),
            git_refs: models(self.git_refs@),
            git_head_legacy: self.git_head_legacy@,
            git_head: target_field(self.git_head),
            has_git_refs_migrated_to_remote_tags: self.has_git_refs_migrated_to_remote_tags,
        }
    }
}

/// The tags that the first `n` forms stand for, by name, if they stand for any.
pub open spec fn formed_tags(list: Seq<TagFormModel>, n: nat) -> Option<
    Map<Seq<char>, Seq<Option<Seq<u8>>>>,
>
    decreases n,
{
    if n == 0 {
        Some(Map::empty())
    } else {
        match (formed_tags(list, (n - 1) as nat), formed_target(list[n - 1].target)) {
            (Some(tags), Some(target)) => Some(tags.insert(list[n - 1].name, target)),
            _ => None,
        }
    }
}

pub open spec fn formed_git_target(form: GitRefFormModel) -> Option<Seq<Option<Seq<u8>>>> {
    if form.target is Some {
        formed_target(form.target)
    } else {
        Some(points_at(form.commit_id))
    }
}

pub open spec fn formed_git_refs(list: Seq<GitRefFormModel>, n: nat) -> Option<
    Map<Seq<char>, Seq<Option<Seq<u8>>>>,
>
    decreases n,
{
    if n == 0 {
        Some(Map::empty())
    } else {
        match (formed_git_refs(list, (n - 1) as nat), formed_git_target(list[n - 1])) {
            (Some(refs), Some(target)) => Some(refs.insert(list[n - 1].name, target)),
            _ => None,
        }
    }
}

/// The Git head: the target where there is one, else the commit where there is
/// one, else nowhere.
pub open spec fn formed_git_head(form: RepoViewFormModel) -> Option<Seq<Option<Seq<u8>>>> {
    if form.git_head is Some {
        formed_target(form.git_head)
    } else if form.git_head_legacy.len() > 0 {
        Some(points_at(form.git_head_legacy))
    } else {
        Some(absent())
    }
}

/// The commits of the workspaces. A commit without a workspace is that of the
/// default one, unless that is named too.
pub open spec fn formed_wc_commits(form: RepoViewFormModel) -> Map<Seq<char>, Seq<u8>> {
    if form.wc_commit_id.len() > 0 {
        Map::empty().insert(DEFAULT_WORKSPACE@, form.wc_commit_id).union_prefer_right(
            form.wc_commit_ids,
        )
    } else {
        form.wc_commit_ids
    }
}

/// The view that a form stands for, or why it stands for none. Where the remotes
/// are listed by themselves, what the bookmarks say of them is passed over.
pub open spec fn formed_view(form: RepoViewFormModel) -> Result<RepoViewModel, FormErrorModel> {
    match formed_bookmarks(form.bookmarks, form.bookmarks.len()) {
        Err(e) => Err(e),
        Ok((local_bookmarks, older)) => match (
            formed_tags(form.local_tags, form.local_tags.len()),
            formed_git_refs(form.git_refs, form.git_refs.len()),
        ) {
            (Some(local_tags), Some(git_refs)) => {
                let remotes = if form.remote_views.len() > 0 {
                    formed_remote_views(form.remote_views, form.remote_views.len())
                } else {
                    Ok(older)
                };
                match remotes {
                    Err(e) => Err(e),
                    Ok(remote_views) => match formed_git_head(form) {
                        None => Err(FormErrorModel::Malformed),
                        Some(git_head) => Ok(
                            RepoViewModel {
                                head_ids: form.head_ids.to_set(),
                                local_bookmarks,
                                local_tags,
                                remote_views,
                                git_refs,
                                git_head,
                                wc_commit_ids: formed_wc_commits(form),
                            },
                        ),
                    },
                }
            },
            _ => Err(FormErrorModel::Malformed),
        },
    }
}

proof fn lemma_tags_error_stays(list: Seq<TagFormModel>, n: nat, total: nat)
    requires
        n <= total,
        formed_tags(list, n) is None,
    ensures
        formed_tags(list, total) is None,
    decreases total,
{
    if n < total {
        lemma_tags_error_stays(list, n, (total - 1) as nat);
    }
}

proof fn lemma_git_refs_error_stays(list: Seq<GitRefFormModel>, n: nat, total: nat)
    requires
        n <= total,
        formed_git_refs(list, n) is None,
    ensures
        formed_git_refs(list, total) is None,
    decreases total,
{
    if n < total {
        lemma_git_refs_error_stays(list, n, (total - 1) as nat);
    }
}

/// A tag is in the map that was read exactly when a message names it, and it points
/// where the last message of that name says.
pub proof fn the_named_tags_are_read(list: Seq<TagFormModel>, n: nat, name: Seq<char>)
    requires
        n <= list.len(),
    ensures
        formed_tags(list, n) is Some <==> forall|i: int|
            0 <= i < n ==> formed_target((#[trigger] list[i]).target) is Some,
        formed_tags(list, n) matches Some(tags) ==> (tags.contains_key(name) <==> exists|i: int|
            0 <= i < n && #[trigger] list[i].name == name),
        formed_tags(list, n) matches Some(tags) ==> forall|i: int|
            0 <= i < n && (#[trigger] list[i]).name == name && (forall|j: int|
                i < j < n ==> (#[trigger] list[j]).name != name) ==> Some(tags[name])
                == formed_target(list[i].target),
    decreases n,
{
    if n > 0 {
        the_named_tags_are_read(list, (n - 1) as nat, name);
        if formed_tags(list, n) is Some {
            if list[n - 1].name == name {
                assert(formed_tags(list, n)->0.contains_key(name));
            } else if formed_tags(list, n)->0.contains_key(name) {
                let i = choose|i: int| 0 <= i < n - 1 && #[trigger] list[i].name == name;
                assert(list[i].name == name);
            }
        }
    }
}

/// A Git reference is in the map that was read exactly when a message names it. It points
/// where the last message of that name says: at its target where it has one, else at its
/// commit.
pub proof fn the_named_git_references_are_read(
    list: Seq<GitRefFormModel>,
    n: nat,
    name: Seq<char>,
)
    requires
        n <= list.len(),
    ensures
        formed_git_refs(list, n) is Some <==> forall|i: int|
            0 <= i < n ==> (#[trigger] list[i]).target is None || formed_target(list[i].target)
                is Some,
        formed_git_refs(list, n) matches Some(refs) ==> (refs.contains_key(name) <==> exists|i: int|
            0 <= i < n && #[trigger] list[i].name == name),
        formed_git_refs(list, n) matches Some(refs) ==> forall|i: int|
            0 <= i < n && (#[trigger] list[i]).name == name && (forall|j: int|
                i < j < n ==> (#[trigger] list[j]).name != name) ==> {
                &&& list[i].target is Some ==> Some(refs[name]) == formed_target(list[i].target)
                &&& list[i].target is None ==> refs[name] == seq![Some(list[i].commit_id)]
            },
    decreases n,
{
    if n > 0 {
        the_named_git_references_are_read(list, (n - 1) as nat, name);
        if formed_git_refs(list, n) is Some {
            if list[n - 1].name == name {
                assert(formed_git_refs(list, n)->0.contains_key(name));
            } else if formed_git_refs(list, n)->0.contains_key(name) {
                let i = choose|i: int| 0 <= i < n - 1 && #[trigger] list[i].name == name;
                assert(list[i].name == name);
            }
        }
    }
}

/// A view has what its message lists, each under its own field: the heads its heads, the
/// local bookmarks and tags its bookmarks and tags, and so for the Git references, the Git
/// head and the commits that the workspaces have checked out.
pub proof fn a_view_has_what_its_message_lists(
    form: RepoViewFormModel,
    view: RepoViewModel,
    id: Seq<u8>,
    workspace: Seq<char>,
)
    requires
        formed_view(form) == Ok::<RepoViewModel, FormErrorModel>(view),
    ensures
        view.head_ids.contains(id) <==> form.head_ids.contains(id),
        formed_bookmarks(form.bookmarks, form.bookmarks.len()) matches Ok((locals, _)) && locals
            == view.local_bookmarks,
        Some(view.local_tags) == formed_tags(form.local_tags, form.local_tags.len()),
        Some(view.git_refs) == formed_git_refs(form.git_refs, form.git_refs.len()),
        form.remote_views.len() > 0 ==> formed_remote_views(
            form.remote_views,
            form.remote_views.len(),
        ) == Ok::<Map<Seq<char>, RemoteViewModel>, FormErrorModel>(view.remote_views),
        form.remote_views.len() == 0 ==> (formed_bookmarks(
            form.bookmarks,
            form.bookmarks.len(),
        ) matches Ok((_, remotes)) && remotes == view.remote_views),
        form.git_head is Some ==> Some(view.git_head) == formed_target(form.git_head),
        form.git_head is None && form.git_head_legacy.len() > 0 ==> view.git_head == seq![
            Some(form.git_head_legacy),
        ],
        form.git_head is None && form.git_head_legacy.len() == 0 ==> view.git_head == seq![
            None::<Seq<u8>>,
        ],
        form.wc_commit_ids.contains_key(workspace) ==> view.wc_commit_ids.contains_key(workspace)
            && view.wc_commit_ids[workspace] == form.wc_commit_ids[workspace],
        !form.wc_commit_ids.contains_key(workspace) ==> (view.wc_commit_ids.contains_key(workspace)
            <==> workspace == "default"@ && form.wc_commit_id.len() > 0),
        !form.wc_commit_ids.contains_key(workspace) && view.wc_commit_ids.contains_key(workspace)
            ==> view.wc_commit_ids[workspace] == form.wc_commit_id,
{
    assert(view.head_ids == form.head_ids.to_set());
}

/// A model shows each field of a view, or of its message, under its own name.
pub proof fn view_models_show_each_field(
    view: RepoView,
    form: RepoViewForm,
    tag: TagForm,
    git_ref: GitRefForm,
    bookmark: BookmarkForm,
)
    ensures
        view@.head_ids == models(view.head_ids@).to_set(),
        view@.local_bookmarks == view.local_bookmarks@,
        view@.local_tags == view.local_tags@,
        view@.remote_views == view.remote_views@,
        view@.git_refs == view.git_refs@,
        view@.git_head == view.git_head@,
        view@.wc_commit_ids == view.wc_commit_ids@,
        form@.head_ids == models(form.head_ids@),
        form@.wc_commit_id == form.wc_commit_id@,
        form@.wc_commit_ids == entries_map(form.wc_commit_ids@),
        form@.bookmarks == models(form.bookmarks@),
        form@.local_tags == models(form.local_tags@),
        form@.remote_views == models(form.remote_views@),
        form@.git_refs == models(form.git_refs@),
        form@.git_head_legacy == form.git_head_legacy@,
        form@.git_head == target_field(form.git_head),
        tag@.name == tag.name@,
        tag@.target == target_field(tag.target),
        git_ref@.name == git_ref.name@,
        git_ref@.commit_id == git_ref.commit_id@,
        git_ref@.target == target_field(git_ref.target),
        bookmark@.name == bookmark.name@,
        bookmark@.local_target == target_field(bookmark.local_target),
        bookmark@.remote_bookmarks == models(bookmark.remote_bookmarks@),
{
}

fn tags_from_proto(list: &Vec<TagForm>) -> (r: Option<TextMap<RefTarget>>)
    ensures
        match r {
            Some(tags) => formed_tags(models(list@), list@.len()) == Some(tags@),
            None => formed_tags(models(list@), list@.len()) is None,
        },
{
    let ghost all = models(list@);
    let mut tags: TextMap<RefTarget> = TextMap::new();
    let mut i: usize = 0;
    while i < list.len()
        invariant
            i <= list@.len(),
            all == models(list@),
            formed_tags(all, i as nat) == Some(tags@),
        decreases list@.len() - i,
    {
        assert(all[i as int] == list@[i as int]@);
        match ref_target_from_proto(&list[i].target) {
            Some(target) => {
                tags.insert(list[i].name.as_str(), target);
            },
            None => {
                proof {
                    lemma_tags_error_stays(all, (i + 1) as nat, all.len());
                }
                return None;
            },
        }
        i = i + 1;
    }
    Some(tags)
}

fn git_refs_from_proto(list: &Vec<GitRefForm>) -> (r: Option<TextMap<RefTarget>>)
    ensures
        match r {
            Some(refs) => formed_git_refs(models(list@), list@.len()) == Some(refs@),
            None => formed_git_refs(models(list@), list@.len()) is None,
        },
{
    let ghost all = models(list@);
    let mut refs: TextMap<RefTarget> = TextMap::new();
    let mut i: usize = 0;
    while i < list.len()
        invariant
            i <= list@.len(),
            all == models(list@),
            formed_git_refs(all, i as nat) == Some(refs@),
        decreases list@.len() - i,
    {
        assert(all[i as int] == list@[i as int]@);
        let target = if list[i].target.is_some() {
            ref_target_from_proto(&list[i].target)
        } else {
            Some(normal_target(&list[i].commit_id))
        };
        match target {
            Some(target) => {
                refs.insert(list[i].name.as_str(), target);
            },
            None => {
                proof {
                    lemma_git_refs_error_stays(all, (i + 1) as nat, all.len());
                }
                return None;
            },
        }
        i = i + 1;
    }
    Some(refs)
}

fn wc_commits_from_proto(form: &RepoViewForm) -> (r: TextMap<Vec<u8>>)
    ensures
        r@ == formed_wc_commits(form@),
{
    let mut r: TextMap<Vec<u8>> = TextMap::new();
    if form.wc_commit_id.len() > 0 {
        r.insert(DEFAULT_WORKSPACE, copied(form.wc_commit_id.as_slice()));
    }
    let ghost start = r@;
    assert(start.union_prefer_right(Map::empty()) =~= start);
    let list = &form.wc_commit_ids;
    assert(list@.take(0) =~= Seq::empty());
    let mut i: usize = 0;
    while i < list.len()
        invariant
            i <= list@.len(),
            r@ == start.union_prefer_right(entries_map(list@.take(i as int))),
        decreases list@.len() - i,
    {
        r.insert(list[i].0.as_str(), copied(list[i].1.as_slice()));
        assert(list@.take(i + 1).drop_last() =~= list@.take(i as int));
        assert(r@ =~= start.union_prefer_right(entries_map(list@.take(i + 1))));
        i = i + 1;
    }
    assert(list@.take(i as int) =~= list@);
    assert(r@ =~= formed_wc_commits(form@));
    r
}

fn distinct_ids(ids: &Vec<Vec<u8>>) -> (r: Vec<Vec<u8>>)
    ensures
        models(r@).to_set() == models(ids@).to_set(),
        models(r@).no_duplicates(),
{
    let ghost all = models(ids@);
    let mut r: Vec<Vec<u8>> = Vec::new();
    let mut i: usize = 0;
    while i < ids.len()
        invariant
            i <= ids@.len(),
            all == models(ids@),
            models(r@).no_duplicates(),
            forall|id: Seq<u8>| #[trigger]
                models(r@).contains(id) <==> exists|j: int| 0 <= j < i && #[trigger] all[j] == id,
        decreases ids@.len() - i,
    {
        assert(all[i as int] == ids@[i as int]@);
        let ghost before = models(r@);
        if !holds_bytes(&r, ids[i].as_slice()) {
            r.push(copied(ids[i].as_slice()));
            assert(models(r@) =~= before.push(all[i as int]));
            proof {
                lemma_pushed(before, all[i as int]);
            }
        }
        assert forall|id: Seq<u8>| #[trigger] models(r@).contains(id) <==> exists|j: int|
            0 <= j < i + 1 && #[trigger] all[j] == id by {
            if before.contains(id) {
                let j = choose|j: int| 0 <= j < i && #[trigger] all[j] == id;
                assert(all[j] == id);
            }
            assert(all[i as int] == all[i as int]);
        }
        i = i + 1;
    }
    assert(models(r@).to_set() =~= all.to_set()) by {
        assert forall|id: Seq<u8>| models(r@).to_set().contains(id) <==> #[trigger]
            all.to_set().contains(id) by {
            assert(all.to_set().contains(id) <==> all.contains(id));
            assert(models(r@).to_set().contains(id) <==> models(r@).contains(id));
        }
    }
    r
}

/// The view that a form stands for.
pub fn read_view_form(form: &RepoViewForm) -> (r: Result<RepoView, FormError>)
    ensures
        match r {
            Ok(view) => formed_view(form@) == Ok::<RepoViewModel, FormErrorModel>(view@) && models(
                view.head_ids@,
            ).no_duplicates(),
            Err(e) => formed_view(form@) == Err::<RepoViewModel, FormErrorModel>(e@),
        },
{
    let wc_commit_ids = wc_commits_from_proto(form);
    let head_ids = distinct_ids(&form.head_ids);
    let (local_bookmarks, older) = match bookmark_views_from_proto_legacy(&form.bookmarks) {
        Ok(read) => read,
        Err(e) => {
            return Err(e);
        },
    };
    let local_tags = match tags_from_proto(&form.local_tags) {
        Some(tags) => tags,
        None => {
            return Err(FormError::Malformed);
        },
    };
    let git_refs = match git_refs_from_proto(&form.git_refs) {
        Some(refs) => refs,
        None => {
            return Err(FormError::Malformed);
        },
    };
    let remote_views = if form.remote_views.len() > 0 {
        match remote_views_from_proto(&form.remote_views) {
            Ok(views) => views,
            Err(e) => {
                return Err(e);
            },
        }
    } else {
        older
    };
    let git_head = if form.git_head.is_some() {
        match ref_target_from_proto(&form.git_head) {
            Some(target) => target,
            None => {
                return Err(FormError::Malformed);
            },
        }
    } else if form.git_head_legacy.len() > 0 {
        normal_target(&form.git_head_legacy)
    } else {
        absent_target()
    };
    Ok(
        RepoView {
            head_ids,
            local_bookmarks,
            local_tags,
            remote_views,
            git_refs,
            git_head,
            wc_commit_ids,
        },
    )
}

/// The view that a form stands for, or what it says that is refused.
pub fn view_from_proto(form: &RepoViewForm) -> (r: Result<RepoView, String>)
    requires
        formed_view(form@) != Err::<RepoViewModel, FormErrorModel>(FormErrorModel::Malformed),
    ensures
        match r {
            Ok(view) => formed_view(form@) == Ok::<RepoViewModel, FormErrorModel>(view@) && models(
                view.head_ids@,
            ).no_duplicates(),
            Err(message) => formed_view(form@) == Err::<RepoViewModel, FormErrorModel>(
                FormErrorModel::Refused(message@),
            ),
        },
{
    match read_view_form(form) {
        Ok(view) => Ok(view),
        Err(FormError::Refused(message)) => Err(message),
        Err(FormError::Malformed) => {
            assert(false);
            Err("".to_owned())
        },
    }
}

// ─── Views as bytes ───────────────────────────────────────────────────────────

/// What `prost::Message::decode` reads from bytes as a
/// `jj_lib::protos::simple_op_store::View`.
pub uninterp spec fn view_read(bytes: Seq<u8>) -> Option<RepoViewFormModel>;

/// The form without its bookmarks, tags, Git references and Git head.
pub open spec fn rest_of(form: RepoViewFormModel) -> RepoViewFormModel {
    RepoViewFormModel {
        bookmarks: Seq::empty(),
        local_tags: Seq::empty(),
        git_refs: Seq::empty(),
        git_head: None,
        ..form
    }
}

/// The names of some bookmarks, with their local targets.
pub open spec fn local_forms(list: Seq<BookmarkFormModel>) -> Seq<
    (Seq<char>, Option<Option<RefTargetFormModel>>),
> {
    list.map_values(|form: BookmarkFormModel| (form.name, form.local_target))
}

pub open spec fn locals_view(list: Seq<(String, Option<Option<RefTargetForm>>)>) -> Seq<
    (Seq<char>, Option<Option<RefTargetFormModel>>),
> {
    Seq::new(list.len(), |i: int| (list[i].0@, target_field(list[i].1)))
}

/// What some bookmarks say of the remotes.
pub open spec fn remote_forms(list: Seq<BookmarkFormModel>) -> Seq<Seq<RemoteBookmarkFormModel>> {
    list.map_values(|form: BookmarkFormModel| form.remote_bookmarks)
}

pub open spec fn remotes_view(list: Seq<Vec<RemoteBookmarkForm>>) -> Seq<
    Seq<RemoteBookmarkFormModel>,
> {
    Seq::new(list.len(), |i: int| models(list[i]@))
}

/// `prost::Message::decode` of a `jj_lib::protos::simple_op_store::View`, of which
/// this hands out the names of the bookmarks and their local targets.
#[allow(deprecated)]
#[verifier::external_body]
pub(crate) fn decode_locals(bytes: &[u8]) -> (r: Result<
    Vec<(String, Option<Option<RefTargetForm>>)>,
    DecodeError,
>)
    ensures
        match r {
            Ok(list) => view_read(bytes@) matches Some(form) && locals_view(list@) == local_forms(
                form.bookmarks,
            ),
            Err(_) => view_read(bytes@) is None,
        },
{
    let terms = |l: Vec<Term>| l.into_iter().map(|t| t.value).collect();
    let target = |t: TargetMessage| t.value.map(|v| match v {
        Value::CommitId(id) => RefTargetForm::CommitId(id),
        Value::ConflictLegacy(c) =>
            RefTargetForm::ConflictLegacy { removes: c.removes, adds: c.adds },
        Value::Conflict(c) =>
            RefTargetForm::Conflict { removes: terms(c.removes), adds: terms(c.adds) },
    });
    let list = ViewMessage::decode(bytes)?.bookmarks.into_iter();
    Ok(list.map(|b| (b.name, b.local_target.map(target))).collect())
}

/// `prost::Message::decode` of a `jj_lib::protos::simple_op_store::View`, of which
/// this hands out what each bookmark says of the remotes.
#[allow(deprecated)]
#[verifier::external_body]
pub(crate) fn decode_remotes(bytes: &[u8]) -> (r: Result<Vec<Vec<RemoteBookmarkForm>>, DecodeError>)
    ensures
        match r {
            Ok(list) => view_read(bytes@) matches Some(form) && remotes_view(list@) == remote_forms(
                form.bookmarks,
            ),
            Err(_) => view_read(bytes@) is None,
        },
{
    let terms = |l: Vec<Term>| l.into_iter().map(|t| t.value).collect();
    let target = |t: TargetMessage| t.value.map(|v| match v {
        Value::CommitId(id) => RefTargetForm::CommitId(id),
        Value::ConflictLegacy(c) =>
            RefTargetForm::ConflictLegacy { removes: c.removes, adds: c.adds },
        Value::Conflict(c) =>
            RefTargetForm::Conflict { removes: terms(c.removes), adds: terms(c.adds) },
    });
    let list = ViewMessage::decode(bytes)?.bookmarks.into_iter();
    Ok(list.map(|b| b.remote_bookmarks.into_iter().map(|b| RemoteBookmarkForm {
        remote_name: b.remote_name, target: b.target.map(target), state: b.state,
    }).collect()).collect())
}

/// `prost::Message::decode` of a `jj_lib::protos::simple_op_store::View`, of which
/// this hands out the tags and the Git head.
#[allow(deprecated)]
#[verifier::external_body]
pub(crate) fn decode_tags(bytes: &[u8]) -> (r: Result<
    (Vec<TagForm>, Option<Option<RefTargetForm>>),
    DecodeError,
>)
    ensures
        match r {
            Ok(read) => view_read(bytes@) matches Some(form) && form.local_tags == models(read.0@)
                && form.git_head == target_field(read.1),
            Err(_) => view_read(bytes@) is None,
        },
{
    let terms = |l: Vec<Term>| l.into_iter().map(|t| t.value).collect();
    let target = |t: TargetMessage| t.value.map(|v| match v {
        Value::CommitId(id) => RefTargetForm::CommitId(id),
        Value::ConflictLegacy(c) =>
            RefTargetForm::ConflictLegacy { removes: c.removes, adds: c.adds },
        Value::Conflict(c) =>
            RefTargetForm::Conflict { removes: terms(c.removes), adds: terms(c.adds) },
    });
    let v = ViewMessage::decode(bytes)?;
    let tag = |t: TagMessage| TagForm { name: t.name, target: t.target.map(target) };
    Ok((v.local_tags.into_iter().map(tag).collect(), v.git_head.map(target)))
}

/// `prost::Message::decode` of a `jj_lib::protos::simple_op_store::View`, of which
/// this hands out the Git references.
#[allow(deprecated)]
#[verifier::external_body]
pub(crate) fn decode_git_refs(bytes: &[u8]) -> (r: Result<Vec<GitRefForm>, DecodeError>)
    ensures
        match r {
            Ok(list) => view_read(bytes@) matches Some(form) && form.git_refs == models(list@),
            Err(_) => view_read(bytes@) is None,
        },
{
    let terms = |l: Vec<Term>| l.into_iter().map(|t| t.value).collect();
    let target = |t: TargetMessage| t.value.map(|v| match v {
        Value::CommitId(id) => RefTargetForm::CommitId(id),
        Value::ConflictLegacy(c) =>
            RefTargetForm::ConflictLegacy { removes: c.removes, adds: c.adds },
        Value::Conflict(c) =>
            RefTargetForm::Conflict { removes: terms(c.removes), adds: terms(c.adds) },
    });
    let list = ViewMessage::decode(bytes)?.git_refs.into_iter();
    Ok(list.map(|g| GitRefForm {
        name: g.name, commit_id: g.commit_id, target: g.target.map(target) }).collect())
}

/// `prost::Message::decode` of a `jj_lib::protos::simple_op_store::View`, of which
/// this hands out everything but the bookmarks, the tags, the Git references and
/// the Git head.
#[allow(deprecated)]
#[verifier::external_body]
pub(crate) fn decode_rest(bytes: &[u8]) -> (r: Result<RepoViewForm, DecodeError>)
    ensures
        match r {
            Ok(rest) => view_read(bytes@) matches Some(form) && rest@ == rest_of(form),
            Err(_) => view_read(bytes@) is None,
        },
{
    let refs = |l: Vec<RemoteRefMessage>| l.into_iter().map(|r| RemoteRefForm {
        name: r.name, target_terms: r.target_terms.into_iter().map(|t| t.value).collect(),
        state: r.state }).collect();
    let v = ViewMessage::decode(bytes)?;
    let remotes = v.remote_views.into_iter().map(|r| RemoteViewForm {
        name: r.name, bookmarks: refs(r.bookmarks), tags: refs(r.tags) });
    Ok(RepoViewForm {
        head_ids: v.head_ids, wc_commit_id: v.wc_commit_id,
        wc_commit_ids: v.wc_commit_ids.into_iter().collect(), bookmarks: vec![],
        local_tags: vec![], remote_views: remotes.collect(), git_refs: vec![],
        git_head_legacy: v.git_head_legacy, git_head: None,
        has_git_refs_migrated_to_remote_tags: v.has_git_refs_migrated_to_remote_tags })
}

/// Why bytes are no view.
#[derive(Debug, PartialEq, Eq)]
pub enum ViewError {
    /// They are no view message.
    Decode,
    /// They are one, but it stands for no view.
    Convert(FormError),
}

/// Bookmarks out of their names and local targets and what they say of the
/// remotes.
fn joined_bookmarks(
    locals: Vec<(String, Option<Option<RefTargetForm>>)>,
    remotes: Vec<Vec<RemoteBookmarkForm>>,
    Ghost(said): Ghost<Seq<BookmarkFormModel>>,
) -> (r: Vec<BookmarkForm>)
    requires
        locals_view(locals@) == local_forms(said),
        remotes_view(remotes@) == remote_forms(said),
    ensures
        models(r@) == said,
{
    let mut locals = locals;
    let mut remotes = remotes;
    let mut r: Vec<BookmarkForm> = Vec::new();
    let ghost all = locals@;
    let ghost lists = remotes@;
    assert(locals_view(all).len() == all.len() && local_forms(said).len() == said.len());
    assert(remotes_view(lists).len() == lists.len() && remote_forms(said).len() == said.len());
    assert(all.skip(0) =~= all && lists.skip(0) =~= lists);
    while locals.len() > 0
        invariant
            r@.len() <= said.len(),
            all.len() == said.len(),
            lists.len() == said.len(),
            locals_view(all) == local_forms(said),
            remotes_view(lists) == remote_forms(said),
            locals@ == all.skip(r@.len() as int),
            remotes@ == lists.skip(r@.len() as int),
            forall|i: int| 0 <= i < r@.len() ==> (#[trigger] r@[i])@ == said[i],
        decreases locals@.len(),
    {
        let ghost n = r@.len() as int;
        assert(all.skip(n)[0] == all[n] && lists.skip(n)[0] == lists[n]);
        let (name, local_target) = locals.remove(0);
        let remote_bookmarks = remotes.remove(0);
        let form = BookmarkForm { name, local_target, remote_bookmarks };
        assert(locals_view(all)[n] == (said[n].name, said[n].local_target)) by {
            assert(local_forms(said)[n] == (said[n].name, said[n].local_target));
        }
        assert(remotes_view(lists)[n] == said[n].remote_bookmarks) by {
            assert(remote_forms(said)[n] == said[n].remote_bookmarks);
        }
        assert(form@ =~= said[n]);
        r.push(form);
        assert(locals@ =~= all.skip(n + 1));
        assert(remotes@ =~= lists.skip(n + 1));
    }
    assert(models(r@) =~= said);
    r
}

/// Read a view from bytes.
pub fn read_view(data: &[u8]) -> (r: Result<RepoView, ViewError>)
    ensures
        match view_read(data@) {
            None => r == Err::<RepoView, ViewError>(ViewError::Decode),
            Some(form) => match formed_view(form) {
                Ok(said) => (r matches Ok(view) && view@ == said && models(
                    view.head_ids@,
                ).no_duplicates()),
                Err(said) => (r matches Err(ViewError::Convert(e)) && e@ == said),
            },
        },
{
    let mut form = match decode_rest(data) {
        Ok(form) => form,
        Err(_) => {
            return Err(ViewError::Decode);
        },
    };
    match (decode_locals(data), decode_remotes(data), decode_tags(data), decode_git_refs(data)) {
        (Ok(locals), Ok(remotes), Ok((local_tags, git_head)), Ok(git_refs)) => {
            let ghost said = view_read(data@)->0.bookmarks;
            assert(local_forms(said).len() == said.len());
            assert(remote_forms(said).len() == said.len());
            form.bookmarks = joined_bookmarks(locals, remotes, Ghost(said));
            form.local_tags = local_tags;
            form.git_refs = git_refs;
            form.git_head = git_head;
        },
        _ => {
            return Err(ViewError::Decode);
        },
    }
    assert(view_read(data@) == Some(form@));
    match read_view_form(&form) {
        Ok(view) => Ok(view),
        Err(e) => Err(ViewError::Convert(e)),
    }
}

// ─── Views written ────────────────────────────────────────────────────────────

/// The forms of tags, in the order of their names.
pub open spec fn tag_forms(items: Seq<(String, RefTarget)>) -> Seq<TagFormModel> {
    Seq::new(
        items.len(),
        |i: int| TagFormModel { name: items[i].0@, target: Some(Some(target_form(items[i].1@))) },
    )
}

pub open spec fn git_ref_forms(items: Seq<(String, RefTarget)>) -> Seq<GitRefFormModel> {
    Seq::new(
        items.len(),
        |i: int|
            GitRefFormModel {
                name: items[i].0@,
                commit_id: Seq::empty(),
                target: Some(Some(target_form(items[i].1@))),
            },
    )
}

/// Whether this is the form of a view.
pub open spec fn is_view_form(view: RepoView, form: RepoViewFormModel) -> bool {
    &&& form.head_ids == models(view.head_ids@)
    &&& form.wc_commit_id == Seq::<u8>::empty()
    &&& form.wc_commit_ids == view.wc_commit_ids@
    &&& are_bookmark_forms(view.local_bookmarks@, view.remote_views.items(), form.bookmarks)
    &&& form.local_tags == tag_forms(view.local_tags.items())
    &&& form.remote_views == remote_view_forms(view.remote_views.items())
    &&& form.git_refs == git_ref_forms(view.git_refs.items())
    &&& form.git_head_legacy == Seq::<u8>::empty()
    &&& form.git_head == Some(Some(target_form(view.git_head@)))
    &&& form.has_git_refs_migrated_to_remote_tags
}

/// The message of a view lists what the view has, each under its own field: the tags as
/// tags, the Git references as Git references, each under its name and with its own
/// terms, and nothing in the fields that only older messages have.
pub proof fn a_view_message_lists_what_the_view_has(view: RepoView, form: RepoViewFormModel)
    requires
        is_view_form(view, form),
    ensures
        form.head_ids == models(view.head_ids@),
        form.wc_commit_id.len() == 0,
        form.wc_commit_ids == view.wc_commit_ids@,
        form.git_head_legacy.len() == 0,
        form.git_head == Some(Some(target_form(view.git_head@))),
        form.has_git_refs_migrated_to_remote_tags,
        form.local_tags.len() == view.local_tags.items().len(),
        forall|i: int|
            0 <= i < form.local_tags.len() ==> (#[trigger] form.local_tags[i]).name
                == view.local_tags.items()[i].0@ && form.local_tags[i].target == Some(
                Some(target_form(view.local_tags.items()[i].1@)),
            ),
        form.git_refs.len() == view.git_refs.items().len(),
        forall|i: int|
            0 <= i < form.git_refs.len() ==> (#[trigger] form.git_refs[i]).name
                == view.git_refs.items()[i].0@ && form.git_refs[i].commit_id.len() == 0
                && form.git_refs[i].target == Some(Some(target_form(view.git_refs.items()[i].1@))),
        form.remote_views == remote_view_forms(view.remote_views.items()),
        forall|i: int|
            0 <= i < form.bookmarks.len() ==> {
                let bookmark = #[trigger] form.bookmarks[i];
                &&& view.local_bookmarks@.contains_key(bookmark.name) ==> bookmark.local_target
                    == Some(Some(target_form(view.local_bookmarks@[bookmark.name])))
                &&& !view.local_bookmarks@.contains_key(bookmark.name) ==> bookmark.local_target
                    == Some(Some(target_form(seq![None])))
                &&& bookmark.remote_bookmarks == remote_bookmark_forms(
                    view.remote_views.items(),
                    bookmark.name,
                    view.remote_views.items().len(),
                )
            },
        forall|name: Seq<char>|
            view.local_bookmarks@.contains_key(name) ==> exists|i: int|
                0 <= i < form.bookmarks.len() && #[trigger] form.bookmarks[i].name == name,
{
    assert forall|name: Seq<char>| view.local_bookmarks@.contains_key(name) implies exists|i: int|
        0 <= i < form.bookmarks.len() && #[trigger] form.bookmarks[i].name == name by {
        assert(form_names(form.bookmarks).contains(name));
        let i = choose|i: int|
            0 <= i < form_names(form.bookmarks).len() && form_names(form.bookmarks)[i] == name;
        assert(form.bookmarks[i].name == name);
    }
}

fn tags_to_proto(tags: &TextMap<RefTarget>) -> (r: Vec<TagForm>)
    ensures
        models(r@) == tag_forms(tags.items()),
{
    let entries = tags.entries();
    let mut r: Vec<TagForm> = Vec::new();
    let mut i: usize = 0;
    while i < entries.len()
        invariant
            i <= entries@.len(),
            entries@ == tags.items(),
            r@.len() == i,
            forall|j: int| 0 <= j < i ==> (#[trigger] r@[j])@ == tag_forms(tags.items())[j],
        decreases entries@.len() - i,
    {
        r.push(
            TagForm { name: entries[i].0.clone(), target: ref_target_to_proto(&entries[i].1) },
        );
        i = i + 1;
    }
    assert(models(r@) =~= tag_forms(tags.items()));
    r
}

fn git_refs_to_proto(refs: &TextMap<RefTarget>) -> (r: Vec<GitRefForm>)
    ensures
        models(r@) == git_ref_forms(refs.items()),
{
    let entries = refs.entries();
    let mut r: Vec<GitRefForm> = Vec::new();
    let mut i: usize = 0;
    while i < entries.len()
        invariant
            i <= entries@.len(),
            entries@ == refs.items(),
            r@.len() == i,
            forall|j: int| 0 <= j < i ==> (#[trigger] r@[j])@ == git_ref_forms(refs.items())[j],
        decreases entries@.len() - i,
    {
        let form = GitRefForm {
            name: entries[i].0.clone(),
            commit_id: Vec::new(),
            target: ref_target_to_proto(&entries[i].1),
        };
        assert(form@ =~= git_ref_forms(refs.items())[i as int]);
        r.push(form);
        i = i + 1;
    }
    assert(models(r@) =~= git_ref_forms(refs.items()));
    r
}

fn copied_commits(commits: &TextMap<Vec<u8>>) -> (r: Vec<(String, Vec<u8>)>)
    ensures
        entries_map(r@) == commits@,
{
    let entries = commits.entries();
    let mut r: Vec<(String, Vec<u8>)> = Vec::new();
    assert(entries@.take(0) =~= Seq::empty());
    let mut i: usize = 0;
    while i < entries.len()
        invariant
            i <= entries@.len(),
            r@.len() == i,
            entries_map(r@) == entries_map(entries@.take(i as int)),
        decreases entries@.len() - i,
    {
        let ghost before = r@;
        r.push((entries[i].0.clone(), copied(entries[i].1.as_slice())));
        assert(r@.drop_last() =~= before);
        assert(entries@.take(i + 1).drop_last() =~= entries@.take(i as int));
        i = i + 1;
    }
    assert(entries@.take(i as int) =~= entries@);
    r
}

/// The form of a view.
pub fn view_to_proto(view: &RepoView) -> (form: RepoViewForm)
    ensures
        is_view_form(*view, form@),
{
    let form = RepoViewForm {
        head_ids: copied_ids(&view.head_ids),
        wc_commit_id: Vec::new(),
        wc_commit_ids: copied_commits(&view.wc_commit_ids),
        bookmarks: bookmark_views_to_proto_legacy(&view.local_bookmarks, &view.remote_views),
        local_tags: tags_to_proto(&view.local_tags),
        remote_views: remote_views_to_proto(&view.remote_views),
        git_refs: git_refs_to_proto(&view.git_refs),
        git_head_legacy: Vec::new(),
        git_head: ref_target_to_proto(&view.git_head),
        has_git_refs_migrated_to_remote_tags: true,
    };
    assert(form@.wc_commit_id =~= Seq::<u8>::empty());
    assert(form@.git_head_legacy =~= Seq::<u8>::empty());
    form
}

// ─── Views written ────────────────────────────────────────────────────────────

/// A target as it is written: what it removes, and what it adds.
#[derive(Debug, PartialEq, Eq)]
pub struct Sides {
    pub removes: Vec<Option<Vec<u8>>>,
    pub adds: Vec<Option<Vec<u8>>>,
}

impl View for Sides {
    type V = RefTargetFormModel;

    open spec fn view(&self) -> RefTargetFormModel {
        RefTargetFormModel::Conflict {
            removes: terms_view(self.removes@),
            adds: terms_view(self.adds@),
        }
    }
}

/// What a bookmark says of a remote, as it is written.
#[derive(Debug, PartialEq, Eq)]
pub struct RemoteBookmarkSides {
    pub remote_name: String,
    pub target: Sides,
    pub state: i32,
}

impl View for RemoteBookmarkSides {
    type V = RemoteBookmarkFormModel;

    open spec fn view(&self) -> RemoteBookmarkFormModel {
        RemoteBookmarkFormModel {
            remote_name: self.remote_name@,
            target: Some(Some(self.target@)),
            state: Some(self.state as int),
        }
    }
}

/// A bookmark as it is written.
#[derive(Debug, PartialEq, Eq)]
pub struct BookmarkSides {
    pub name: String,
    pub local_target: Sides,
    pub remote_bookmarks: Vec<RemoteBookmarkSides>,
}

impl View for BookmarkSides {
    type V = BookmarkFormModel;

    open spec fn view(&self) -> BookmarkFormModel {
        BookmarkFormModel {
            name: self.name@,
            local_target: Some(Some(self.local_target@)),
            remote_bookmarks: models(self.remote_bookmarks@),
        }
    }
}

/// Tags as they are written.
pub open spec fn written_tags(tags: Seq<(String, Sides)>) -> Seq<TagFormModel> {
    Seq::new(
        tags.len(),
        |i: int| TagFormModel { name: tags[i].0@, target: Some(Some(tags[i].1@)) },
    )
}

/// Git references as they are written.
pub open spec fn written_git_refs(refs: Seq<(String, Sides)>) -> Seq<GitRefFormModel> {
    Seq::new(
        refs.len(),
        |i: int|
            GitRefFormModel {
                name: refs[i].0@,
                commit_id: Seq::empty(),
                target: Some(Some(refs[i].1@)),
            },
    )
}

/// `prost::Message::encode_to_vec` of a `jj_lib::protos::simple_op_store::View`
/// that has everything but bookmarks, tags, Git references and a Git head. What is
/// written is read back.
#[allow(deprecated)]
#[verifier::external_body]
pub(crate) fn encode_rest(rest: RepoViewForm) -> (bytes: Vec<u8>)
    ensures
        view_read(bytes@) == Some(rest_of(rest@)),
{
    let refs = |l: Vec<RemoteRefForm>| l.into_iter().map(|r| RemoteRefMessage {
        name: r.name, state: r.state,
        target_terms: r.target_terms.into_iter().map(|value| TermMessage { value }).collect(),
    }).collect();
    let remotes = rest.remote_views.into_iter().map(|r| RemoteViewMessage {
        name: r.name, bookmarks: refs(r.bookmarks), tags: refs(r.tags) });
    ViewMessage {
        head_ids: rest.head_ids, wc_commit_id: rest.wc_commit_id,
        wc_commit_ids: rest.wc_commit_ids.into_iter().collect(),
        remote_views: remotes.collect(), git_head_legacy: rest.git_head_legacy,
        has_git_refs_migrated_to_remote_tags: rest.has_git_refs_migrated_to_remote_tags,
        ..Default::default()
    }.encode_to_vec()
}

/// `prost::Message::encode_to_vec` of the `jj_lib::protos::simple_op_store::View`
/// that `prost::Message::decode` reads, once it has other bookmarks. What is
/// written is read back.
#[allow(deprecated)]
#[verifier::external_body]
pub(crate) fn with_bookmarks(bytes: &[u8], list: Vec<BookmarkSides>) -> (out: Vec<u8>)
    requires
        view_read(bytes@) is Some,
    ensures
        view_read(out@) == Some(
            RepoViewFormModel { bookmarks: models(list@), ..view_read(bytes@)->0 },
        ),
{
    let terms = |l: Vec<Option<Vec<u8>>>| l.into_iter().map(|value| Term { value }).collect();
    let target = |s: Sides| Some(TargetMessage { value: Some(Value::Conflict(RefConflict {
        removes: terms(s.removes), adds: terms(s.adds) })) });
    let mut v = ViewMessage::decode(bytes).unwrap();
    v.bookmarks = list.into_iter().map(|b| BookmarkMessage {
        name: b.name, local_target: target(b.local_target),
        remote_bookmarks: b.remote_bookmarks.into_iter().map(|r| RemoteMessage {
            remote_name: r.remote_name, target: target(r.target), state: Some(r.state),
        }).collect(),
    }).collect();
    v.encode_to_vec()
}

/// `prost::Message::encode_to_vec` of the `jj_lib::protos::simple_op_store::View`
/// that `prost::Message::decode` reads, once it has other tags, Git references and
/// another Git head. What is written is read back.
#[allow(deprecated)]
#[verifier::external_body]
pub(crate) fn with_targets(
    bytes: &[u8],
    tags: Vec<(String, Sides)>,
    refs: Vec<(String, Sides)>,
    head: Sides,
) -> (out: Vec<u8>)
    requires
        view_read(bytes@) is Some,
    ensures
        view_read(out@) == Some(
            RepoViewFormModel {
                local_tags: written_tags(tags@),
                git_refs: written_git_refs(refs@),
                git_head: Some(Some(head@)),
                ..view_read(bytes@)->0
            },
        ),
{
    let terms = |l: Vec<Option<Vec<u8>>>| l.into_iter().map(|value| Term { value }).collect();
    let target = |s: Sides| Some(TargetMessage { value: Some(Value::Conflict(RefConflict {
        removes: terms(s.removes), adds: terms(s.adds) })) });
    let mut v = ViewMessage::decode(bytes).unwrap();
    v.local_tags = tags.into_iter().map(|(name, s)| TagMessage { name, target: target(s) }).collect();
    v.git_refs = refs.into_iter().map(|(name, s)| GitRefMessage {
        name, target: target(s), commit_id: vec![] }).collect();
    v.git_head = target(head);
    v.encode_to_vec()
}

fn sides_of(target: &RefTarget) -> (r: Sides)
    ensures
        r@ == target_form(target@),
{
    match ref_target_to_proto(target) {
        Some(Some(RefTargetForm::Conflict { removes, adds })) => Sides { removes, adds },
        _ => {
            assert(false);
            Sides { removes: Vec::new(), adds: Vec::new() }
        },
    }
}

fn named_sides(targets: &TextMap<RefTarget>) -> (r: Vec<(String, Sides)>)
    ensures
        written_tags(r@) == tag_forms(targets.items()),
        written_git_refs(r@) == git_ref_forms(targets.items()),
{
    let entries = targets.entries();
    let mut r: Vec<(String, Sides)> = Vec::new();
    let mut i: usize = 0;
    while i < entries.len()
        invariant
            i <= entries@.len(),
            entries@ == targets.items(),
            r@.len() == i,
            forall|j: int|
                0 <= j < i ==> (#[trigger] r@[j]).0@ == entries@[j].0@ && r@[j].1@ == target_form(
                    entries@[j].1@,
                ),
        decreases entries@.len() - i,
    {
        r.push((entries[i].0.clone(), sides_of(&entries[i].1)));
        i = i + 1;
    }
    assert(written_tags(r@) =~= tag_forms(targets.items()));
    assert(written_git_refs(r@) =~= git_ref_forms(targets.items()));
    r
}

/// Whether a field holds a target in the form that is written.
pub open spec fn is_written_target(field: Option<Option<RefTargetFormModel>>) -> bool {
    field matches Some(Some(form)) && form is Conflict
}

/// Whether a bookmark is in the form that is written.
pub open spec fn is_written(form: BookmarkFormModel) -> bool {
    &&& is_written_target(form.local_target)
    &&& forall|i: int|
        0 <= i < form.remote_bookmarks.len() ==> is_written_target(
            (#[trigger] form.remote_bookmarks[i]).target,
        ) && form.remote_bookmarks[i].state is Some
}

fn field_sides(field: Option<Option<RefTargetForm>>) -> (r: Sides)
    requires
        is_written_target(target_field(field)),
    ensures
        target_field(field) == Some(Some(r@)),
{
    match field {
        Some(Some(RefTargetForm::Conflict { removes, adds })) => Sides { removes, adds },
        _ => {
            assert(false);
            Sides { removes: Vec::new(), adds: Vec::new() }
        },
    }
}

fn bookmark_sides(form: BookmarkForm) -> (r: BookmarkSides)
    requires
        is_written(form@),
    ensures
        r@ == form@,
{
    let ghost said = form@;
    let mut forms = form.remote_bookmarks;
    let ghost all = forms@;
    assert(said.remote_bookmarks == models(all));
    let mut remote_bookmarks: Vec<RemoteBookmarkSides> = Vec::new();
    assert(all.skip(0) =~= all);
    while forms.len() > 0
        invariant
            remote_bookmarks@.len() <= all.len(),
            forms@ == all.skip(remote_bookmarks@.len() as int),
            is_written(said),
            said.remote_bookmarks == models(all),
            forall|i: int|
                0 <= i < remote_bookmarks@.len() ==> (#[trigger] remote_bookmarks@[i])@
                    == all[i]@,
        decreases forms@.len(),
    {
        let ghost n = remote_bookmarks@.len() as int;
        assert(all.skip(n)[0] == all[n]);
        assert(said.remote_bookmarks[n] == all[n]@);
        let RemoteBookmarkForm { remote_name, target, state } = forms.remove(0);
        let target = field_sides(target);
        let state: i32 = match state {
            Some(n) => n,
            None => {
                assert(false);
                0
            },
        };
        let sides = RemoteBookmarkSides { remote_name, target, state };
        assert(sides@ =~= all[n]@);
        remote_bookmarks.push(sides);
        assert(forms@ =~= all.skip(n + 1));
    }
    let local_target = field_sides(form.local_target);
    assert(models(remote_bookmarks@) =~= models(all));
    BookmarkSides { name: form.name, local_target, remote_bookmarks }
}

proof fn lemma_remote_forms_are_written(
    remotes: Seq<(String, RemoteView)>,
    name: Seq<char>,
    n: nat,
)
    ensures
        forall|i: int|
            0 <= i < remote_bookmark_forms(remotes, name, n).len() ==> is_written_target(
                (#[trigger] remote_bookmark_forms(remotes, name, n)[i]).target,
            ) && remote_bookmark_forms(remotes, name, n)[i].state is Some,
    decreases n,
{
    if n > 0 {
        lemma_remote_forms_are_written(remotes, name, (n - 1) as nat);
    }
}

fn all_bookmark_sides(view: &RepoView) -> (r: Vec<BookmarkSides>)
    ensures
        are_bookmark_forms(view.local_bookmarks@, view.remote_views.items(), models(r@)),
{
    let mut forms = bookmark_views_to_proto_legacy(&view.local_bookmarks, &view.remote_views);
    let ghost all = forms@;
    let ghost locals = view.local_bookmarks@;
    let ghost remotes = view.remote_views.items();
    let mut r: Vec<BookmarkSides> = Vec::new();
    assert(all.skip(0) =~= all);
    while forms.len() > 0
        invariant
            r@.len() <= all.len(),
            forms@ == all.skip(r@.len() as int),
            are_bookmark_forms(locals, remotes, models(all)),
            forall|i: int| 0 <= i < r@.len() ==> (#[trigger] r@[i])@ == all[i]@,
        decreases forms@.len(),
    {
        let ghost n = r@.len() as int;
        assert(all.skip(n)[0] == all[n]);
        proof {
            let form = models(all)[n];
            assert(form == all[n]@);
            assert(form == bookmark_form(locals, remotes, form.name));
            lemma_remote_forms_are_written(remotes, form.name, remotes.len());
        }
        let sides = bookmark_sides(forms.remove(0));
        r.push(sides);
        assert(forms@ =~= all.skip(n + 1));
    }
    assert(models(r@) =~= models(all));
    r
}

/// Write a view. What is written is the form of the view.
pub fn write_view(view: &RepoView) -> (data: Vec<u8>)
    ensures
        view_read(data@) matches Some(form) && is_view_form(*view, form),
{
    let rest = RepoViewForm {
        head_ids: copied_ids(&view.head_ids),
        wc_commit_id: Vec::new(),
        wc_commit_ids: copied_commits(&view.wc_commit_ids),
        bookmarks: Vec::new(),
        local_tags: Vec::new(),
        remote_views: remote_views_to_proto(&view.remote_views),
        git_refs: Vec::new(),
        git_head_legacy: Vec::new(),
        git_head: None,
        has_git_refs_migrated_to_remote_tags: true,
    };
    assert(rest@.wc_commit_id =~= Seq::<u8>::empty());
    assert(rest@.git_head_legacy =~= Seq::<u8>::empty());
    let data = encode_rest(rest);
    let data = with_bookmarks(data.as_slice(), all_bookmark_sides(view));
    with_targets(
        data.as_slice(),
        named_sides(&view.local_tags),
        named_sides(&view.git_refs),
        sides_of(&view.git_head),
    )
}

// ─── What is written is read back ─────────────────────────────────────────────

pub open spec fn valid_targets(items: Seq<(String, RefTarget)>) -> bool {
    forall|i: int| 0 <= i < items.len() ==> is_target((#[trigger] items[i]).1@)
}

/// Whether every target in a view can be one.
pub open spec fn valid_view(view: RepoView) -> bool {
    &&& forall|name: Seq<char>| #[trigger]
        view.local_bookmarks@.contains_key(name) ==> is_target(view.local_bookmarks@[name])
    &&& valid_targets(view.local_tags.items())
    &&& valid_remote_views(view.remote_views.items())
    &&& keys_of_remotes(view.remote_views.items())
    &&& valid_targets(view.git_refs.items())
    &&& is_target(view.git_head@)
}

/// Whether the bookmarks of each remote are listed under increasing names.
pub open spec fn keys_of_remotes(items: Seq<(String, RemoteView)>) -> bool {
    forall|i: int| 0 <= i < items.len() ==> keys_increase((#[trigger] items[i]).1.bookmarks.items())
}

proof fn lemma_tags_read_back(items: Seq<(String, RefTarget)>, n: nat)
    requires
        valid_targets(items),
        n <= items.len(),
    ensures
        formed_tags(tag_forms(items), n) == Some(entries_map(items.take(n as int))),
        formed_git_refs(git_ref_forms(items), n) == Some(entries_map(items.take(n as int))),
    decreases n,
{
    if n > 0 {
        lemma_tags_read_back(items, (n - 1) as nat);
        assert(items.take(n as int).drop_last() =~= items.take(n - 1));
        let item = items[n - 1];
        assert(items.take(n as int).last() == item);
        assert(is_target(item.1@));
        targets_read_back(item.1@);
    }
}

/// What the older way of writing the remote bookmarks holds can be read.
proof fn lemma_older_remotes_read(
    views: Map<Seq<char>, RemoteViewModel>,
    remotes: Seq<(String, RemoteView)>,
    name: Seq<char>,
    n: nat,
)
    requires
        n <= remotes.len(),
        valid_remote_views(remotes),
        keys_of_remotes(remotes),
    ensures
        ({
            let list = remote_bookmark_forms(remotes, name, n);
            with_remotes(views, name, list, list.len()) is Ok
        }),
    decreases n,
{
    if n > 0 {
        lemma_older_remotes_read(views, remotes, name, (n - 1) as nat);
        let before = remote_bookmark_forms(remotes, name, (n - 1) as nat);
        let list = remote_bookmark_forms(remotes, name, n);
        let items = remotes[n - 1].1.bookmarks.items();
        let bookmarks = remotes[n - 1].1@.bookmarks;
        if bookmarks.contains_key(name) {
            lemma_same_remotes(views, name, before, list, before.len());
            lemma_entries_map(items);
            let i = choose|i: int| 0 <= i < items.len() && #[trigger] items[i].0@ == name;
            assert(bookmarks[name] == items[i].1@);
            assert(valid_refs(items));
            assert(is_target(items[i].1.target@));
            targets_read_back(bookmarks[name].target);
            assert(list[list.len() - 1] == list.last());
        }
    }
}

proof fn lemma_same_remotes(
    views: Map<Seq<char>, RemoteViewModel>,
    name: Seq<char>,
    a: Seq<RemoteBookmarkFormModel>,
    b: Seq<RemoteBookmarkFormModel>,
    n: nat,
)
    requires
        n <= a.len() <= b.len(),
        forall|i: int| 0 <= i < a.len() ==> a[i] == b[i],
    ensures
        with_remotes(views, name, a, n) == with_remotes(views, name, b, n),
    decreases n,
{
    if n > 0 {
        lemma_same_remotes(views, name, a, b, (n - 1) as nat);
    }
}

proof fn lemma_bookmarks_read_back(
    locals: Map<Seq<char>, Seq<Option<Seq<u8>>>>,
    remotes: Seq<(String, RemoteView)>,
    forms: Seq<BookmarkFormModel>,
    n: nat,
)
    requires
        n <= forms.len(),
        are_bookmark_forms(locals, remotes, forms),
        valid_remote_views(remotes),
        keys_of_remotes(remotes),
        forall|name: Seq<char>| #[trigger]
            locals.contains_key(name) ==> is_target(locals[name]) && locals[name] != absent(),
    ensures
        formed_bookmarks(forms, n) is Ok,
        remotes.len() == 0 ==> formed_bookmarks(forms, n)->Ok_0.1 == Map::<
            Seq<char>,
            RemoteViewModel,
        >::empty(),
        forall|name: Seq<char>| #[trigger]
            formed_bookmarks(forms, n)->Ok_0.0.contains_key(name) <==> locals.contains_key(name)
                && form_names(forms).take(n as int).contains(name),
        forall|name: Seq<char>| #[trigger]
            formed_bookmarks(forms, n)->Ok_0.0.contains_key(name) ==> formed_bookmarks(
                forms,
                n,
            )->Ok_0.0[name] == locals[name],
    decreases n,
{
    let names = form_names(forms);
    if n > 0 {
        lemma_bookmarks_read_back(locals, remotes, forms, (n - 1) as nat);
        let form = forms[n - 1];
        assert(form == bookmark_form(locals, remotes, form.name));
        let (before, older) = formed_bookmarks(forms, (n - 1) as nat)->Ok_0;
        let target = if locals.contains_key(form.name) {
            locals[form.name]
        } else {
            absent()
        };
        assert(absent().len() == 1);
        targets_read_back(target);
        lemma_older_remotes_read(older, remotes, form.name, remotes.len());
        assert(names.take(n as int) =~= names.take(n - 1).push(form.name));
        lemma_pushed(names.take(n - 1), form.name);
    } else {
        assert(names.take(0) =~= Seq::empty());
    }
}

/// A view comes back from its form as it was, as long as no local bookmark in it
/// points nowhere.
pub proof fn views_read_back(view: RepoView, form: RepoViewFormModel)
    requires
        is_view_form(view, form),
        valid_view(view),
        forall|name: Seq<char>| #[trigger]
            view.local_bookmarks@.contains_key(name) ==> view.local_bookmarks@[name] != absent(),
    ensures
        formed_view(form) == Ok::<RepoViewModel, FormErrorModel>(view@),
{
    let locals = view.local_bookmarks@;
    let remotes = view.remote_views.items();
    let forms = form.bookmarks;
    lemma_bookmarks_read_back(locals, remotes, forms, forms.len());
    let (read, older) = formed_bookmarks(forms, forms.len())->Ok_0;
    assert(form_names(forms).take(forms.len() as int) =~= form_names(forms));
    assert forall|name: Seq<char>| read.contains_key(name) <==> #[trigger] locals.contains_key(
        name,
    ) by {
        if locals.contains_key(name) {
            assert(form_names(forms).contains(name));
        }
    }
    assert(read =~= locals);
    let tags = view.local_tags.items();
    lemma_tags_read_back(tags, tags.len());
    assert(tags.take(tags.len() as int) =~= tags);
    let git_refs = view.git_refs.items();
    lemma_tags_read_back(git_refs, git_refs.len());
    assert(git_refs.take(git_refs.len() as int) =~= git_refs);
    lemma_remote_views_read_back(remotes, remotes.len());
    assert(remotes.take(remotes.len() as int) =~= remotes);
    targets_read_back(view.git_head@);
    lemma_views_of_entries(view);
    assert(formed_view(form)->Ok_0 =~= view@);
}

/// A view that was written is read as it was, as long as no local bookmark in it
/// points nowhere.
pub proof fn written_views_read_back(view: RepoView, data: Seq<u8>)
    requires
        view_read(data) matches Some(form) && is_view_form(view, form),
        valid_view(view),
        forall|name: Seq<char>| #[trigger]
            view.local_bookmarks@.contains_key(name) ==> view.local_bookmarks@[name] != absent(),
    ensures
        view_read(data) matches Some(form) && formed_view(form) == Ok::<
            RepoViewModel,
            FormErrorModel,
        >(view@),
{
    views_read_back(view, view_read(data)->0);
}

/// The maps of a view are those of its entries.
proof fn lemma_views_of_entries(view: RepoView)
    ensures
        view.local_tags@ == entries_map(view.local_tags.items()),
        view.git_refs@ == entries_map(view.git_refs.items()),
        view.remote_views@ == entries_map(view.remote_views.items()),
{
}

} // verus!
