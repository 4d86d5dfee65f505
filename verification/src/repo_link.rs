//! What a workspace on disk knows about the server it belongs to.
//!
//! Three facts: the address to talk to, the bearer to talk with, and the
//! workspace name to speak for. Each is a file next to a store, overridable by an
//! environment variable: the file is what `tandem init` leaves behind so an
//! ordinary `jj` command in the workspace just works, and the variable is what a
//! harness or a container sets when the workspace was created somewhere else.
//! The functions here take what the variable and the file hold.
use vstd::prelude::*;
use vstd::string::*;

use crate::text::{
    a_trim_takes_the_ends_off, is_blank, is_white, maybe, trim, trimmed, CharClass,
};

verus! {

pub const SERVER_ADDRESS_FILE: &'static str = "server_address";

pub const TOKEN_FILE: &'static str = "token";

pub const WORKSPACE_ID_FILE: &'static str = "workspace_id";

pub const SERVER_ADDRESS_ENV: &'static str = "TANDEM_SERVER";

pub const TOKEN_ENV: &'static str = "TANDEM_TOKEN";

pub const WORKSPACE_ID_ENV: &'static str = "TANDEM_WORKSPACE";

/// What a file next to a store held.
#[derive(Debug, PartialEq, Eq)]
pub enum FileRead {
    Text(String),
    /// There is no such file.
    Missing(String),
    /// The file could not be read, for this reason.
    Failed(String),
}

/// What a variable sets: its value without white space around it, where anything
/// is left.
pub open spec fn env_says(value: Option<Seq<char>>) -> Option<Seq<char>> {
    match value {
        Some(value) => {
            let word = trimmed(value, CharClass::White);
            if word.len() == 0 {
                None
            } else {
                Some(word)
            }
        },
        None => None,
    }
}

/// A variable sets something exactly when it holds a character that is not white space,
/// and then it sets what it holds without the white space around it.
pub proof fn a_variable_sets_what_it_holds(value: Seq<char>) -> (r: (int, int))
    ensures
        env_says(None) is None,
        env_says(Some(value)) is None <==> forall|k: int|
            0 <= k < value.len() ==> is_white(#[trigger] value[k]),
        env_says(Some(value)) matches Some(said) ==> {
            &&& 0 <= r.0 < r.1 <= value.len()
            &&& said == value.subrange(r.0, r.1)
            &&& !is_white(said[0]) && !is_white(said.last())
            &&& forall|k: int| 0 <= k < r.0 ==> is_white(#[trigger] value[k])
            &&& forall|k: int| r.1 <= k < value.len() ==> is_white(#[trigger] value[k])
        },
{
    let (i, j) = a_trim_takes_the_ends_off(value, CharClass::White);
    let class = CharClass::White;
    assert(forall|k: int| 0 <= k < value.len() ==> class.holds(#[trigger] value[k]) == is_white(
        value[k],
    ));
    (i, j)
}

/// What the variable sets, if anything.
pub fn env_value(value: Option<String>) -> (r: Option<String>)
    ensures
        maybe(r) == env_says(maybe(value)),
{
    match value {
        Some(value) => {
            let word = trim(value.as_str(), CharClass::White);
            if is_blank(word.as_str()) {
                None
            } else {
                Some(word)
            }
        },
        None => None,
    }
}

/// The reason a file gave nothing.
pub open spec fn reason(file: FileRead) -> Seq<char> {
    match file {
        FileRead::Text(_) => Seq::empty(),
        FileRead::Missing(why) => why@,
        FileRead::Failed(why) => why@,
    }
}

/// The server's address: the variable, or else the file as it stands. `path`
/// says where the file was looked for.
pub fn read_server_address(env: Option<String>, file: FileRead, path: &str) -> (r: Result<
    String,
    String,
>)
    ensures
        match r {
            Ok(address) => env_says(maybe(env)) == Some(address@) || (env_says(maybe(env)) is None
                && (file matches FileRead::Text(text) && text@ == address@)),
            Err(message) => env_says(maybe(env)) is None && !(file is Text) && message@
                == "cannot read tandem server address from "@ + path@ + " or "@
                + SERVER_ADDRESS_ENV@ + " env: "@ + reason(file),
        },
{
    match env_value(env) {
        Some(address) => Ok(address),
        None => match file {
            FileRead::Text(text) => Ok(text),
            FileRead::Missing(why) => Err(
                unread("cannot read tandem server address from ", path, SERVER_ADDRESS_ENV, why),
            ),
            FileRead::Failed(why) => Err(
                unread("cannot read tandem server address from ", path, SERVER_ADDRESS_ENV, why),
            ),
        },
    }
}

fn unread(what: &str, path: &str, env: &str, why: String) -> (s: String)
    ensures
        s@ == what@ + path@ + " or "@ + env@ + " env: "@ + why@,
{
    let mut s = what.to_owned();
    s.append(path);
    s.append(" or ");
    s.append(env);
    s.append(" env: ");
    s.append(why.as_str());
    s
}

/// The bearer this workspace presents on every request.
///
/// Absent is a failure rather than an empty string: a server refuses an
/// unauthenticated request, so a workspace with no token would fail later,
/// somewhere less obvious, with an HTTP status instead of a sentence about where
/// the token was supposed to be.
pub fn read_token(env: Option<String>, file: FileRead, path: &str) -> (r: Result<String, String>)
    ensures
        match r {
            Ok(token) => env_says(maybe(env)) == Some(token@) || (env_says(maybe(env)) is None && (
            file matches FileRead::Text(text) && token@ == trimmed(text@, CharClass::White))),
            Err(message) => env_says(maybe(env)) is None && !(file is Text) && message@
                == "cannot read the tandem token from "@ + path@ + " or "@ + TOKEN_ENV@
                + " env: "@ + reason(file),
        },
{
    match env_value(env) {
        Some(token) => Ok(token),
        None => match file {
            FileRead::Text(text) => Ok(trim(text.as_str(), CharClass::White)),
            FileRead::Missing(why) => Err(
                unread("cannot read the tandem token from ", path, TOKEN_ENV, why),
            ),
            FileRead::Failed(why) => Err(
                unread("cannot read the tandem token from ", path, TOKEN_ENV, why),
            ),
        },
    }
}

/// The name in the file; `default` where there is none.
pub open spec fn named_workspace(text: Seq<char>) -> Seq<char> {
    if trimmed(text, CharClass::White).len() == 0 {
        "default"@
    } else {
        trimmed(text, CharClass::White)
    }
}

/// The workspace this checkout speaks for. Unnamed means `default`.
pub fn read_workspace_id(env: Option<String>, file: FileRead, path: &str) -> (r: Result<
    String,
    String,
>)
    ensures
        match (env_says(maybe(env)), file) {
            (Some(id), _) => r matches Ok(name) && name@ == id,
            (None, FileRead::Text(text)) => r matches Ok(name) && name@ == named_workspace(text@),
            (None, FileRead::Missing(_)) => r matches Ok(name) && name@ == "default"@,
            (None, FileRead::Failed(why)) => r matches Err(message) && message@
                == "cannot read tandem workspace identity from "@ + path@ + ": "@ + why@,
        },
{
    match env_value(env) {
        Some(id) => Ok(id),
        None => match file {
            FileRead::Text(text) => {
                let name = trim(text.as_str(), CharClass::White);
                if is_blank(name.as_str()) {
                    Ok("default".to_owned())
                } else {
                    Ok(name)
                }
            },
            FileRead::Missing(_) => Ok("default".to_owned()),
            FileRead::Failed(why) => {
                let mut s = "cannot read tandem workspace identity from ".to_owned();
                s.append(path);
                s.append(": ");
                s.append(why.as_str());
                Err(s)
            },
        },
    }
}

/// What `init` writes is what `load` reads: a token without white space around
/// it comes back as it is.
pub proof fn a_written_token_reads_back(token: Seq<char>)
    requires
        trimmed(token, CharClass::White) == token,
        token.len() > 0,
    ensures
        env_says(Some(token)) == Some(token),
        named_workspace(token) == token,
{
}

} // verus!
