//! Documents that stand for a struct: a JSON object with its fields in any order, or a
//! JSON array with its fields in theirs.
//!
//! What is read of a document is which bytes belong to which field. Fields that nobody
//! asked for are passed over, whatever they hold; a field that was asked for and is
//! there twice makes the document unreadable. That is how a reader that `serde` derives
//! for a struct takes a document. Where a value ends and what a name says is for
//! `serde_json`.
use vstd::prelude::*;
use vstd::slice::slice_subrange;

use crate::faults::bytes_view;
use crate::json::{
    entries_in, number_in, read_entries, read_number, read_text, read_texts, skip_value, text_in,
    texts_in, value_end,
};
use crate::order::{copied, TextMap};
use crate::text::{models, same_text};

verus! {

pub open spec fn is_white(b: u8) -> bool {
    b == 0x20 || b == 0x0a || b == 0x09 || b == 0x0d
}

/// The first place from `i` on that is not white space, or the end.
pub open spec fn past_white(document: Seq<u8>, i: nat) -> nat
    decreases document.len() - i,
{
    if i < document.len() && is_white(document[i as int]) {
        past_white(document, i + 1)
    } else {
        i
    }
}

/// Spaces, line feeds, tabs and carriage returns are passed over, all of them and nothing
/// else.
pub proof fn white_space_is_passed_over(document: Seq<u8>, i: nat)
    ensures
        i <= past_white(document, i),
        i <= document.len() ==> past_white(document, i) <= document.len(),
        forall|k: int|
            i <= k < past_white(document, i) ==> {
                let b = #[trigger] document[k];
                b == ' ' as u8 || b == '\n' as u8 || b == '\t' as u8 || b == '\r' as u8
            },
        past_white(document, i) < document.len() ==> {
            let b = document[past_white(document, i) as int];
            b != ' ' as u8 && b != '\n' as u8 && b != '\t' as u8 && b != '\r' as u8
        },
    decreases document.len() - i,
{
    if i < document.len() && is_white(document[i as int]) {
        white_space_is_passed_over(document, i + 1);
    }
}

/// Whether `b` stands at `i`.
pub open spec fn stands_at(document: Seq<u8>, i: nat, b: u8) -> bool {
    i < document.len() && document[i as int] == b
}

/// Where the value that begins at `i` ends.
pub open spec fn ends_at(document: Seq<u8>, i: nat) -> Option<nat> {
    if i > document.len() {
        None
    } else {
        match value_end(document.skip(i as int)) {
            Some(n) => if 0 < n <= document.len() - i {
                Some(i + n)
            } else {
                None
            },
            None => None,
        }
    }
}

/// Where the next item of an object or an array begins: at `i` for the first of them,
/// behind a comma at `i` for any other.
pub open spec fn item_at(document: Seq<u8>, i: nat, first: bool) -> Option<nat> {
    if first {
        Some(i)
    } else if stands_at(document, i, 0x2c) {
        Some(past_white(document, i + 1))
    } else {
        None
    }
}

/// One member of an object: its name, the bytes of its value, and where it ends.
pub open spec fn member_at(document: Seq<u8>, i: nat) -> Option<(Seq<char>, Seq<u8>, nat)> {
    if !stands_at(document, i, 0x22) {
        None
    } else {
        match ends_at(document, i) {
            None => None,
            Some(name_end) => {
                let colon = past_white(document, name_end);
                if !stands_at(document, colon, 0x3a) {
                    None
                } else {
                    match (
                        text_in(document.subrange(i as int, name_end as int)),
                        ends_at(document, colon + 1),
                    ) {
                        (Some(name), Some(end)) => Some(
                            (name, document.subrange(colon as int + 1, end as int), end),
                        ),
                        _ => None,
                    }
                }
            },
        }
    }
}

/// The members of an object that is open at `i`, behind the ones before, and where
/// the object ends.
pub open spec fn members_from(
    document: Seq<u8>,
    i: nat,
    before: Seq<(Seq<char>, Seq<u8>)>,
) -> Option<(Seq<(Seq<char>, Seq<u8>)>, nat)>
    decreases document.len() - i,
{
    let j = past_white(document, i);
    if stands_at(document, j, 0x7d) {
        Some((before, j + 1))
    } else {
        match item_at(document, j, before.len() == 0) {
            None => None,
            Some(k) => match member_at(document, k) {
                None => None,
                Some((name, value, end)) => if i < end <= document.len() {
                    members_from(document, end, before.push((name, value)))
                } else {
                    None
                },
            },
        }
    }
}

/// The elements of an array that is open at `i`, behind the ones before, and where
/// the array ends.
pub open spec fn elements_from(document: Seq<u8>, i: nat, before: Seq<Seq<u8>>) -> Option<
    (Seq<Seq<u8>>, nat),
>
    decreases document.len() - i,
{
    let j = past_white(document, i);
    if stands_at(document, j, 0x5d) {
        Some((before, j + 1))
    } else {
        match item_at(document, j, before.len() == 0) {
            None => None,
            Some(k) => match ends_at(document, k) {
                None => None,
                Some(end) => if i < end <= document.len() {
                    elements_from(document, end, before.push(document.subrange(k as int, end as int)))
                } else {
                    None
                },
            },
        }
    }
}

/// What stands under a name in the first `n` members, if anything does; it may not
/// stand there twice.
pub open spec fn under_name(members: Seq<(Seq<char>, Seq<u8>)>, name: Seq<char>, n: nat) -> Option<
    Option<Seq<u8>>,
>
    decreases n,
{
    if n == 0 {
        Some(None)
    } else {
        match under_name(members, name, (n - 1) as nat) {
            None => None,
            Some(found) => if members[n - 1].0 != name {
                Some(found)
            } else if found is Some {
                None
            } else {
                Some(Some(members[n - 1].1))
            },
        }
    }
}

/// What the members hold under the first `n` names.
pub open spec fn under_names(
    members: Seq<(Seq<char>, Seq<u8>)>,
    names: Seq<Seq<char>>,
    n: nat,
) -> Option<Seq<Option<Seq<u8>>>>
    decreases n,
{
    if n == 0 {
        Some(Seq::empty())
    } else {
        match (
            under_names(members, names, (n - 1) as nat),
            under_name(members, names[n - 1], members.len()),
        ) {
            (Some(found), Some(value)) => Some(found.push(value)),
            _ => None,
        }
    }
}

/// What an array holds for so many fields: it may be shorter, but not longer.
pub open spec fn in_order(elements: Seq<Seq<u8>>, count: nat) -> Option<Seq<Option<Seq<u8>>>> {
    if elements.len() > count {
        None
    } else {
        Some(
            Seq::new(
                count,
                |i: int|
                    if i < elements.len() {
                        Some(elements[i])
                    } else {
                        None
                    },
            ),
        )
    }
}

/// What stands under a name is the value of the one member of that name. Where there is no
/// such member nothing does, and where there are two the members cannot be read for it.
pub proof fn a_name_stands_for_its_only_member(
    members: Seq<(Seq<char>, Seq<u8>)>,
    name: Seq<char>,
    n: nat,
)
    requires
        n <= members.len(),
    ensures
        match under_name(members, name, n) {
            Some(Some(value)) => exists|i: int|
                {
                    &&& 0 <= i < n && (#[trigger] members[i]) == (name, value)
                    &&& forall|j: int| 0 <= j < n && j != i ==> (#[trigger] members[j]).0 != name
                },
            Some(None) => forall|i: int| 0 <= i < n ==> (#[trigger] members[i]).0 != name,
            None => exists|i: int, j: int|
                0 <= i < j < n && (#[trigger] members[i]).0 == name && (#[trigger] members[j]).0
                    == name,
        },
    decreases n,
{
    if n > 0 {
        a_name_stands_for_its_only_member(members, name, (n - 1) as nat);
        match under_name(members, name, (n - 1) as nat) {
            None => {
                let (i, j) = choose|i: int, j: int|
                    0 <= i < j < n - 1 && (#[trigger] members[i]).0 == name && (
                    #[trigger] members[j]).0 == name;
                assert(members[i].0 == name && members[j].0 == name);
            },
            Some(Some(value)) => {
                let i = choose|i: int|
                    {
                        &&& 0 <= i < n - 1 && (#[trigger] members[i]) == (name, value)
                        &&& forall|j: int|
                            0 <= j < n - 1 && j != i ==> (#[trigger] members[j]).0 != name
                    };
                if members[n - 1].0 == name {
                    assert(members[i].0 == name);
                } else {
                    assert(members[i] == (name, value));
                }
            },
            Some(None) => {
                if members[n - 1].0 == name {
                    assert(members[n - 1] == (name, members[n - 1].1));
                }
            },
        }
    }
}

/// Each name gets what stands under it, in the order of the names; where one of them
/// cannot be read for, none is.
pub proof fn each_name_gets_what_stands_under_it(
    members: Seq<(Seq<char>, Seq<u8>)>,
    names: Seq<Seq<char>>,
    n: nat,
)
    requires
        n <= names.len(),
    ensures
        match under_names(members, names, n) {
            Some(found) => found.len() == n && forall|i: int|
                0 <= i < n ==> under_name(members, names[i], members.len()) == Some(
                    #[trigger] found[i],
                ),
            None => exists|i: int|
                0 <= i < n && under_name(members, #[trigger] names[i], members.len()) is None,
        },
    decreases n,
{
    if n > 0 {
        each_name_gets_what_stands_under_it(members, names, (n - 1) as nat);
        if under_names(members, names, n) is None {
            if under_names(members, names, (n - 1) as nat) is None {
                let i = choose|i: int|
                    0 <= i < n - 1 && under_name(members, #[trigger] names[i], members.len())
                        is None;
                assert(under_name(members, names[i], members.len()) is None);
            } else {
                assert(under_name(members, names[n - 1], members.len()) is None);
            }
        }
    }
}

/// An array gives its elements to the fields in order; those it is too short for get
/// nothing, and it may not be longer.
pub proof fn an_array_gives_its_elements_in_order(elements: Seq<Seq<u8>>, count: nat, i: int)
    requires
        0 <= i < count,
    ensures
        in_order(elements, count) is Some <==> elements.len() <= count,
        in_order(elements, count) matches Some(found) ==> found.len() == count && (i
            < elements.len() ==> found[i] == Some(elements[i])) && (i >= elements.len()
            ==> found[i] is None),
{
}

/// The members of an object come one by one: those read before stay in front; the object
/// ends where its brace stands and has no more members exactly then; else the next member
/// is the one that stands there, behind a comma unless it is the first.
pub proof fn members_come_one_by_one(
    document: Seq<u8>,
    i: nat,
    before: Seq<(Seq<char>, Seq<u8>)>,
)
    ensures
        members_from(document, i, before) matches Some((all, end)) ==> {
            &&& before.len() <= all.len()
            &&& all.take(before.len() as int) == before
            &&& all.len() == before.len() <==> stands_at(document, past_white(document, i), 0x7d)
            &&& 0 < end <= document.len() && document[end - 1] == '}' as u8
            &&& all.len() > before.len() ==> {
                let j = past_white(document, i);
                let k = if before.len() == 0 {
                    j
                } else {
                    past_white(document, j + 1)
                };
                &&& before.len() > 0 ==> stands_at(document, j, ',' as u8)
                &&& member_at(document, k) matches Some((name, value, _)) && all[before.len() as int]
                    == (name, value)
            }
        },
    decreases document.len() - i,
{
    let j = past_white(document, i);
    if members_from(document, i, before) is Some && !stands_at(document, j, 0x7d) {
        let k = item_at(document, j, before.len() == 0)->0;
        let (name, value, end) = member_at(document, k)->0;
        let longer = before.push((name, value));
        members_come_one_by_one(document, end, longer);
        let (all, _) = members_from(document, i, before)->0;
        assert(all.take(before.len() as int) =~= all.take(longer.len() as int).drop_last());
        assert(longer.drop_last() =~= before);
        assert(all[before.len() as int] == all.take(longer.len() as int)[before.len() as int]);
    } else if members_from(document, i, before) is Some {
        assert(before.take(before.len() as int) =~= before);
    }
}

/// A member is its name in quotes, a colon, and its value, with white space allowed between
/// them.
pub proof fn a_member_is_a_name_and_a_value(document: Seq<u8>, i: nat)
    ensures
        member_at(document, i) matches Some((name, value, end)) ==> exists|name_end: nat| {
            let colon = #[trigger] past_white(document, name_end);
            &&& document[i as int] == '"' as u8
            &&& ends_at(document, i) == Some(name_end)
            &&& text_in(document.subrange(i as int, name_end as int)) == Some(name)
            &&& colon < document.len() && document[colon as int] == ':' as u8
            &&& value == document.subrange(colon as int + 1, end as int)
            &&& ends_at(document, colon + 1) == Some(end)
        },
{
    if member_at(document, i) is Some {
        let name_end = ends_at(document, i)->0;
        let colon = past_white(document, name_end);
        assert(stands_at(document, colon, 0x3a));
    }
}

/// What a document holds for each of these fields, if it can be read for them.
/// What a document holds for each of these fields, if it can be read for them.
pub open spec fn struct_read(document: Seq<u8>, names: Seq<Seq<char>>) -> Option<
    Seq<Option<Seq<u8>>>,
> {
    let start = past_white(document, 0);
    if stands_at(document, start, 0x7b) {
        match members_from(document, start + 1, Seq::empty()) {
            Some((members, end)) => if past_white(document, end) >= document.len() {
                under_names(members, names, names.len())
            } else {
                None
            },
            None => None,
        }
    } else if stands_at(document, start, 0x5b) {
        match elements_from(document, start + 1, Seq::empty()) {
            Some((elements, end)) => if past_white(document, end) >= document.len() {
                in_order(elements, names.len())
            } else {
                None
            },
            None => None,
        }
    } else {
        None
    }
}

/// The elements of an array come one by one, as the members of an object do.
pub proof fn elements_come_one_by_one(document: Seq<u8>, i: nat, before: Seq<Seq<u8>>)
    ensures
        elements_from(document, i, before) matches Some((all, end)) ==> {
            &&& before.len() <= all.len()
            &&& all.take(before.len() as int) == before
            &&& all.len() == before.len() <==> stands_at(document, past_white(document, i), 0x5d)
            &&& 0 < end <= document.len() && document[end - 1] == ']' as u8
            &&& all.len() > before.len() ==> {
                let j = past_white(document, i);
                let k = if before.len() == 0 {
                    j
                } else {
                    past_white(document, j + 1)
                };
                &&& before.len() > 0 ==> stands_at(document, j, ',' as u8)
                &&& ends_at(document, k) matches Some(e) && all[before.len() as int]
                    == document.subrange(k as int, e as int)
            }
        },
    decreases document.len() - i,
{
    let j = past_white(document, i);
    if elements_from(document, i, before) is Some && !stands_at(document, j, 0x5d) {
        let k = item_at(document, j, before.len() == 0)->0;
        let end = ends_at(document, k)->0;
        let longer = before.push(document.subrange(k as int, end as int));
        elements_come_one_by_one(document, end, longer);
        let (all, _) = elements_from(document, i, before)->0;
        assert(all.take(before.len() as int) =~= all.take(longer.len() as int).drop_last());
        assert(longer.drop_last() =~= before);
        assert(all[before.len() as int] == all.take(longer.len() as int)[before.len() as int]);
    } else if elements_from(document, i, before) is Some {
        assert(before.take(before.len() as int) =~= before);
    }
}

/// A document that can be read is one object or one array with white space around it. An
/// object gives each field what stands under its name, an array its elements in order.
pub proof fn a_document_is_an_object_or_an_array(document: Seq<u8>, names: Seq<Seq<char>>)
    ensures
        struct_read(document, names) matches Some(found) ==> {
            let start = past_white(document, 0);
            &&& found.len() == names.len()
            &&& start < document.len()
            &&& document[start as int] == '{' as u8 || document[start as int] == '[' as u8
            &&& document[start as int] == '{' as u8 ==> (members_from(
                document,
                start + 1,
                Seq::empty(),
            ) matches Some((members, end)) && past_white(document, end) >= document.len()
                && forall|i: int|
                0 <= i < names.len() ==> under_name(members, names[i], members.len()) == Some(
                    #[trigger] found[i],
                ))
            &&& document[start as int] == '[' as u8 ==> (elements_from(
                document,
                start + 1,
                Seq::empty(),
            ) matches Some((elements, end)) && past_white(document, end) >= document.len()
                && elements.len() <= names.len() && forall|i: int|
                0 <= i < names.len() ==> #[trigger] found[i] == (if i < elements.len() {
                    Some(elements[i])
                } else {
                    None
                }))
        },
{
    let start = past_white(document, 0);
    if stands_at(document, start, 0x7b) && struct_read(document, names) is Some {
        let (members, _) = members_from(document, start + 1, Seq::empty())->0;
        each_name_gets_what_stands_under_it(members, names, names.len());
    }
}

// ─── Reading ──────────────────────────────────────────────────────────────────

/// One member of an object.
#[derive(Debug, PartialEq, Eq)]
pub struct Member {
    pub name: String,
    pub value: Vec<u8>,
}

impl View for Member {
    type V = (Seq<char>, Seq<u8>);

    open spec fn view(&self) -> (Seq<char>, Seq<u8>) {
        (self.name@, self.value@)
    }
}

pub open spec fn found_model(found: Seq<Option<Vec<u8>>>) -> Seq<Option<Seq<u8>>> {
    Seq::new(found.len(), |i: int| bytes_view(found[i]))
}

fn skip_white(document: &[u8], i: usize) -> (j: usize)
    ensures
        j == past_white(document@, i as nat),
        i <= document@.len() ==> j <= document@.len(),
        i <= j,
{
    let mut j: usize = i;
    while j < document.len() && (document[j] == 0x20 || document[j] == 0x0a || document[j] == 0x09
        || document[j] == 0x0d)
        invariant
            i <= j,
            past_white(document@, i as nat) == past_white(document@, j as nat),
            i <= document@.len() ==> j <= document@.len(),
        decreases document@.len() - j,
    {
        j = j + 1;
    }
    j
}

fn is_at(document: &[u8], i: usize, b: u8) -> (r: bool)
    ensures
        r == stands_at(document@, i as nat, b),
        r ==> i < usize::MAX,
{
    i < document.len() && document[i] == b
}

fn end_of_value(document: &[u8], i: usize) -> (r: Option<usize>)
    ensures
        match r {
            Some(end) => ends_at(document@, i as nat) == Some(end as nat) && i < end
                <= document@.len(),
            None => ends_at(document@, i as nat) is None,
        },
{
    if i > document.len() {
        return None;
    }
    let rest = slice_subrange(document, i, document.len());
    assert(rest@ =~= document@.skip(i as int));
    match skip_value(rest) {
        Some(n) => Some(i + n),
        None => None,
    }
}

fn next_item(document: &[u8], i: usize, first: bool) -> (r: Option<usize>)
    ensures
        match r {
            Some(k) => item_at(document@, i as nat, first) == Some(k as nat) && i <= k,
            None => item_at(document@, i as nat, first) is None,
        },
{
    if first {
        Some(i)
    } else if is_at(document, i, 0x2c) {
        Some(skip_white(document, i + 1))
    } else {
        None
    }
}

fn read_member(document: &[u8], i: usize) -> (r: Option<(Member, usize)>)
    ensures
        match r {
            Some((member, end)) => member_at(document@, i as nat) == Some(
                (member@.0, member@.1, end as nat),
            ) && i < end <= document@.len(),
            None => member_at(document@, i as nat) is None,
        },
{
    if !is_at(document, i, 0x22) {
        return None;
    }
    let name_end: usize = match end_of_value(document, i) {
        Some(end) => end,
        None => return None,
    };
    let colon: usize = skip_white(document, name_end);
    if !is_at(document, colon, 0x3a) {
        return None;
    }
    let name = match read_text(slice_subrange(document, i, name_end)) {
        Ok(name) => name,
        Err(_) => return None,
    };
    let end: usize = match end_of_value(document, colon + 1) {
        Some(end) => end,
        None => return None,
    };
    let value = copied(slice_subrange(document, colon + 1, end));
    Some((Member { name, value }, end))
}

fn read_members(document: &[u8], start: usize) -> (r: Option<(Vec<Member>, usize)>)
    requires
        start <= document@.len(),
    ensures
        match r {
            Some((members, end)) => members_from(document@, start as nat, Seq::empty()) == Some(
                (models(members@), end as nat),
            ) && end <= document@.len(),
            None => members_from(document@, start as nat, Seq::empty()) is None,
        },
{
    let mut members: Vec<Member> = Vec::new();
    assert(models(members@) =~= Seq::empty());
    let mut i: usize = start;
    loop
        invariant
            i <= document@.len(),
            members_from(document@, start as nat, Seq::empty()) == members_from(
                document@,
                i as nat,
                models(members@),
            ),
        decreases document@.len() - i,
    {
        let j: usize = skip_white(document, i);
        if is_at(document, j, 0x7d) {
            return Some((members, j + 1));
        }
        let k: usize = match next_item(document, j, members.len() == 0) {
            Some(k) => k,
            None => return None,
        };
        match read_member(document, k) {
            Some((member, end)) => {
                let ghost before = models(members@);
                let ghost model = member@;
                members.push(member);
                assert(models(members@) =~= before.push(model));
                i = end;
            },
            None => return None,
        }
    }
}

fn read_elements(document: &[u8], start: usize) -> (r: Option<(Vec<Vec<u8>>, usize)>)
    requires
        start <= document@.len(),
    ensures
        match r {
            Some((elements, end)) => elements_from(document@, start as nat, Seq::empty()) == Some(
                (models(elements@), end as nat),
            ) && end <= document@.len(),
            None => elements_from(document@, start as nat, Seq::empty()) is None,
        },
{
    let mut elements: Vec<Vec<u8>> = Vec::new();
    assert(models(elements@) =~= Seq::empty());
    let mut i: usize = start;
    loop
        invariant
            i <= document@.len(),
            elements_from(document@, start as nat, Seq::empty()) == elements_from(
                document@,
                i as nat,
                models(elements@),
            ),
        decreases document@.len() - i,
    {
        let j: usize = skip_white(document, i);
        if is_at(document, j, 0x5d) {
            return Some((elements, j + 1));
        }
        let k: usize = match next_item(document, j, elements.len() == 0) {
            Some(k) => k,
            None => return None,
        };
        match end_of_value(document, k) {
            Some(end) => {
                let ghost before = models(elements@);
                let element = copied(slice_subrange(document, k, end));
                let ghost model = element@;
                elements.push(element);
                assert(models(elements@) =~= before.push(model));
                i = end;
            },
            None => return None,
        }
    }
}

/// What the members hold under a name; nothing at all, where it is there twice.
pub fn value_under(members: &Vec<Member>, name: &str) -> (r: Option<Option<Vec<u8>>>)
    ensures
        match r {
            Some(found) => under_name(models(members@), name@, members@.len()) == Some(
                bytes_view(found),
            ),
            None => under_name(models(members@), name@, members@.len()) is None,
        },
{
    let mut found: Option<Vec<u8>> = None;
    let mut i: usize = 0;
    while i < members.len()
        invariant
            i <= members@.len(),
            under_name(models(members@), name@, i as nat) == Some(bytes_view(found)),
        decreases members@.len() - i,
    {
        assert(models(members@)[i as int] == members@[i as int]@);
        if same_text(members[i].name.as_str(), name) {
            if found.is_some() {
                proof {
                    lemma_stays_twice(models(members@), name@, (i + 1) as nat);
                }
                return None;
            }
            found = Some(copied(members[i].value.as_slice()));
        }
        i = i + 1;
    }
    Some(found)
}

proof fn lemma_stays_twice(members: Seq<(Seq<char>, Seq<u8>)>, name: Seq<char>, n: nat)
    requires
        n <= members.len(),
        under_name(members, name, n) is None,
    ensures
        under_name(members, name, members.len()) is None,
    decreases members.len() - n,
{
    if n < members.len() {
        lemma_stays_twice(members, name, n + 1);
    }
}

/// What the members hold under each of the names.
pub fn values_under(members: &Vec<Member>, names: &Vec<String>) -> (r: Option<
    Vec<Option<Vec<u8>>>,
>)
    ensures
        match r {
            Some(found) => under_names(models(members@), models(names@), names@.len()) == Some(
                found_model(found@),
            ) && found@.len() == names@.len(),
            None => under_names(models(members@), models(names@), names@.len()) is None,
        },
{
    let mut found: Vec<Option<Vec<u8>>> = Vec::new();
    assert(found_model(found@) =~= Seq::empty());
    let mut i: usize = 0;
    while i < names.len()
        invariant
            i <= names@.len(),
            found@.len() == i,
            under_names(models(members@), models(names@), i as nat) == Some(found_model(found@)),
        decreases names@.len() - i,
    {
        assert(models(names@)[i as int] == names@[i as int]@);
        match value_under(members, names[i].as_str()) {
            Some(value) => {
                let ghost before = found_model(found@);
                let ghost model = bytes_view(value);
                found.push(value);
                assert(found_model(found@) =~= before.push(model));
            },
            None => {
                proof {
                    lemma_stays_unread(models(members@), models(names@), (i + 1) as nat);
                }
                return None;
            },
        }
        i = i + 1;
    }
    Some(found)
}

proof fn lemma_stays_unread(
    members: Seq<(Seq<char>, Seq<u8>)>,
    names: Seq<Seq<char>>,
    n: nat,
)
    requires
        n <= names.len(),
        under_names(members, names, n) is None,
    ensures
        under_names(members, names, names.len()) is None,
    decreases names.len() - n,
{
    if n < names.len() {
        lemma_stays_unread(members, names, n + 1);
    }
}

/// What an array holds for so many fields.
pub fn values_in_order(elements: Vec<Vec<u8>>, count: usize) -> (r: Option<Vec<Option<Vec<u8>>>>)
    ensures
        match r {
            Some(found) => in_order(models(elements@), count as nat) == Some(found_model(found@))
                && found@.len() == count,
            None => in_order(models(elements@), count as nat) is None,
        },
{
    if elements.len() > count {
        return None;
    }
    let mut found: Vec<Option<Vec<u8>>> = Vec::new();
    let mut i: usize = 0;
    while i < count
        invariant
            i <= count,
            elements@.len() <= count,
            found@.len() == i,
            forall|j: int|
                0 <= j < i ==> bytes_view(#[trigger] found@[j]) == (if j < elements@.len() {
                    Some(elements@[j]@)
                } else {
                    None
                }),
        decreases count - i,
    {
        if i < elements.len() {
            found.push(Some(copied(elements[i].as_slice())));
        } else {
            found.push(None);
        }
        i = i + 1;
    }
    assert(found_model(found@) =~= in_order(models(elements@), count as nat)->0);
    Some(found)
}

/// Read a document for some fields.
pub fn read_struct(document: &[u8], names: &Vec<String>) -> (r: Option<Vec<Option<Vec<u8>>>>)
    ensures
        match r {
            Some(found) => struct_read(document@, models(names@)) == Some(found_model(found@))
                && found@.len() == names@.len(),
            None => struct_read(document@, models(names@)) is None,
        },
{
    let start: usize = skip_white(document, 0);
    if is_at(document, start, 0x7b) {
        match read_members(document, start + 1) {
            Some((members, end)) => {
                if skip_white(document, end) < document.len() {
                    return None;
                }
                values_under(&members, names)
            },
            None => None,
        }
    } else if is_at(document, start, 0x5b) {
        match read_elements(document, start + 1) {
            Some((elements, end)) => {
                if skip_white(document, end) < document.len() {
                    return None;
                }
                values_in_order(elements, names.len())
            },
            None => None,
        }
    } else {
        None
    }
}

// ─── Fields ───────────────────────────────────────────────────────────────────

/// The number that a field holds; it has to be there.
pub open spec fn number_held(bytes: Option<Seq<u8>>) -> Option<u64> {
    match bytes {
        Some(bytes) => number_in(bytes),
        None => None,
    }
}

/// The strings that a field holds, none where it is not there.
pub open spec fn texts_held(bytes: Option<Seq<u8>>) -> Option<Seq<Seq<char>>> {
    match bytes {
        Some(bytes) => texts_in(bytes),
        None => Some(Seq::empty()),
    }
}

/// The entries that a field holds, none where it is not there.
pub open spec fn entries_held(bytes: Option<Seq<u8>>) -> Option<Map<Seq<char>, Seq<char>>> {
    match bytes {
        Some(bytes) => entries_in(bytes),
        None => Some(Map::empty()),
    }
}

/// A number has to be there; a list or a map that is not there is empty.
pub proof fn only_a_number_has_to_be_there(bytes: Seq<u8>)
    ensures
        number_held(None) is None,
        texts_held(None) == Some(Seq::<Seq<char>>::empty()),
        entries_held(None) == Some(Map::<Seq<char>, Seq<char>>::empty()),
        number_held(Some(bytes)) == number_in(bytes),
        texts_held(Some(bytes)) == texts_in(bytes),
        entries_held(Some(bytes)) == entries_in(bytes),
{
}

pub(crate) fn number_of(bytes: &Option<Vec<u8>>) -> (r: Option<u64>)
    ensures
        r == number_held(bytes_view(*bytes)),
{
    match bytes {
        Some(bytes) => match read_number(bytes.as_slice()) {
            Ok(n) => Some(n),
            Err(_) => None,
        },
        None => None,
    }
}

pub(crate) fn texts_of(bytes: &Option<Vec<u8>>) -> (r: Option<Vec<String>>)
    ensures
        match r {
            Some(texts) => texts_held(bytes_view(*bytes)) == Some(models(texts@)),
            None => texts_held(bytes_view(*bytes)) is None,
        },
{
    match bytes {
        Some(bytes) => match read_texts(bytes.as_slice()) {
            Ok(texts) => Some(texts),
            Err(_) => None,
        },
        None => {
            let none: Vec<String> = Vec::new();
            assert(models(none@) =~= Seq::<Seq<char>>::empty());
            Some(none)
        },
    }
}

pub(crate) fn entries_of(bytes: &Option<Vec<u8>>) -> (r: Option<TextMap<String>>)
    ensures
        match r {
            Some(entries) => entries_held(bytes_view(*bytes)) == Some(entries@),
            None => entries_held(bytes_view(*bytes)) is None,
        },
{
    match bytes {
        Some(bytes) => match read_entries(bytes.as_slice()) {
            Ok(pairs) => Some(TextMap::from_pairs(&pairs)),
            Err(_) => None,
        },
        None => Some(TextMap::new()),
    }
}

} // verus!
