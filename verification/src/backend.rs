//! Commits as a client writes them: what is refused, what is signed, and what is
//! sent.
use vstd::prelude::*;
use vstd::string::*;

use crate::proto_convert::{
    commit_bytes, commit_read, encode_commit, is_commit_form, is_formed_commit, Commit, CommitForm,
    CommitFormModel,
};

verus! {

/// Whether a new commit can be written. Only the root commit has no parent, and it
/// is never written. A new commit has no signature yet.
pub fn check_commit(form: &CommitForm) -> (r: Result<(), String>)
    requires
        form.secure_sig is None,
    ensures
        match r {
            Ok(_) => form.parents@.len() > 0,
            Err(m) => form.parents@.len() == 0 && m@ == "Cannot write a commit with no parents"@,
        },
{
    if form.parents.len() == 0 {
        Err("Cannot write a commit with no parents".to_owned())
    } else {
        Ok(())
    }
}

/// The bytes of a commit: what is signed of one without a signature, and what is
/// sent of one with it.
pub fn commit_data(form: &CommitForm) -> (data: Vec<u8>)
    ensures
        data@ == commit_bytes(form@),
        commit_read(data@) == Some(form@),
{
    encode_commit(form)
}

/// The commit with a signature.
pub fn signed(form: CommitForm, sig: Vec<u8>) -> (r: CommitForm)
    ensures
        r@ == (CommitFormModel { secure_sig: Some(sig@), ..form@ }),
{
    let mut r = form;
    let ghost before = r@;
    r.secure_sig = Some(sig);
    assert(r@ =~= CommitFormModel { secure_sig: Some(sig@), ..before });
    r
}

/// A signed commit reads back with its signature and with the very bytes that were
/// signed.
pub proof fn a_signature_is_kept_with_what_was_signed(
    form: CommitFormModel,
    sig: Seq<u8>,
    read: Commit,
)
    requires
        form.secure_sig is None,
        is_commit_form(form),
        is_formed_commit(read, CommitFormModel { secure_sig: Some(sig), ..form }),
    ensures
        read.secure_sig matches Some(kept) && kept.sig@ == sig && kept.data@ == commit_bytes(form),
{
    let whole = CommitFormModel { secure_sig: Some(sig), ..form };
    assert(CommitFormModel { secure_sig: None, ..whole } =~= form);
}

/// Without a signature there is none to read back.
pub proof fn an_unsigned_commit_stays_unsigned(form: CommitFormModel, read: Commit)
    requires
        form.secure_sig is None,
        is_formed_commit(read, form),
    ensures
        read.secure_sig is None,
{
}

} // verus!
