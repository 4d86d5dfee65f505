//! What `tandem watch` prints of a change of the heads.
use vstd::prelude::*;
use vstd::string::*;

use crate::hex::{hex_texts, to_hex_all};
use crate::text::{decimal, join, joined, models, push_decimal};

verus! {

/// The line for one notification: `version=<N> heads=<hex>,<hex>,...`
pub fn notification_line(version: u64, heads: &Vec<Vec<u8>>) -> (line: String)
    ensures
        line@ == "version="@ + decimal(version as nat) + " heads="@ + joined(
            hex_texts(models(heads@)),
            ","@,
        ),
{
    let hex_heads = to_hex_all(heads.as_slice());
    let list = join(&hex_heads, ",");
    let mut line = "version=".to_owned();
    push_decimal(&mut line, version);
    line.append(" heads=");
    line.append(list.as_str());
    line
}

/// What a watch hears next.
#[derive(Debug, PartialEq, Eq)]
pub enum WatchEvent {
    /// A notification, as its line.
    Line(String),
    /// No notification can come any more.
    Closed,
    /// The connection ended, well or with an error.
    Ended(Option<String>),
    /// What drove the connection panicked.
    Panicked(String),
}

/// What the watch does about it.
#[derive(Debug, PartialEq, Eq)]
pub enum WatchAction {
    Print(String),
    /// Stop, with what is said about it where something is.
    Stop(Option<String>),
}

/// Notifications are printed until none can come or the connection is gone.
pub fn watch_step(event: WatchEvent) -> (r: WatchAction)
    ensures
        match event {
            WatchEvent::Line(line) => r == WatchAction::Print(line),
            WatchEvent::Closed => r == WatchAction::Stop(None),
            WatchEvent::Ended(None) => r == WatchAction::Stop(None),
            WatchEvent::Ended(Some(e)) => r matches WatchAction::Stop(Some(m)) && m@
                == "rpc error: "@ + e@,
            WatchEvent::Panicked(e) => r matches WatchAction::Stop(Some(m)) && m@
                == "rpc task panicked: "@ + e@,
        },
{
    match event {
        WatchEvent::Line(line) => WatchAction::Print(line),
        WatchEvent::Closed => WatchAction::Stop(None),
        WatchEvent::Ended(None) => WatchAction::Stop(None),
        WatchEvent::Ended(Some(e)) => {
            let mut m = "rpc error: ".to_owned();
            m.append(e.as_str());
            WatchAction::Stop(Some(m))
        },
        WatchEvent::Panicked(e) => {
            let mut m = "rpc task panicked: ".to_owned();
            m.append(e.as_str());
            WatchAction::Stop(Some(m))
        },
    }
}

} // verus!
