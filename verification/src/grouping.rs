//! Grouping of consecutive messages under one header, as Discord shows them.
use vstd::prelude::*;

use crate::models::Message;
use crate::text::str_eq;
use crate::timestamp::{parse_epoch, parse_epoch_spec};

verus! {

/// Messages of one author less than seven minutes apart share a header.
pub const GROUP_WINDOW_SECS: i64 = 420;

/// The seconds since the epoch of a message's timestamp, if it has one that reads.
pub open spec fn message_epoch(m: Message) -> Option<i64> {
    match m.timestamp {
        Some(ts) => parse_epoch_spec(vstd::utf8::encode_utf8(ts@)),
        None => None,
    }
}

/// Whether message `i` of `ms` opens a new group: it is the first, its author
/// differs from the previous one's, a timestamp is missing or unreadable, or
/// it lies more than seven minutes from the previous message.
pub open spec fn starts_group(ms: Seq<Message>, i: int) -> bool {
    if i == 0 {
        true
    } else if ms[i - 1].author.id@ != ms[i].author.id@ {
        true
    } else {
        match (message_epoch(ms[i - 1]), message_epoch(ms[i])) {
            (Some(a), Some(b)) => {
                let gap = b - a;
                (if gap < 0 {
                    -gap
                } else {
                    gap
                }) > GROUP_WINDOW_SECS
            },
            _ => true,
        }
    }
}

fn epoch_of(m: &Message) -> (r: Option<i64>)
    ensures
        r == message_epoch(*m),
        r matches Some(v) ==> -1_000_000_000_000 <= v <= 1_000_000_000_000,
{
    match &m.timestamp {
        Some(ts) => parse_epoch(ts.as_str()),
        None => None,
    }
}

/// For each message, whether it opens a new group (and so shows a header).
pub fn group_flags(messages: &[Message]) -> (r: Vec<bool>)
    ensures
        r@.len() == messages@.len(),
        forall|i: int| 0 <= i < r@.len() ==> r@[i] == starts_group(messages@, i),
{
    let mut flags: Vec<bool> = Vec::new();
    let mut i: usize = 0;
    while i < messages.len()
        invariant
            i <= messages@.len(),
            flags@.len() == i,
            forall|k: int| 0 <= k < i ==> flags@[k] == starts_group(messages@, k),
        decreases messages@.len() - i,
    {
        let new_group = if i == 0 {
            true
        } else {
            let prev = &messages[i - 1];
            let m = &messages[i];
            if !str_eq(prev.author.id.as_str(), m.author.id.as_str()) {
                true
            } else {
                match (epoch_of(prev), epoch_of(m)) {
                    (Some(a), Some(b)) => {
                        let far = if b >= a {
                            b - a > GROUP_WINDOW_SECS
                        } else {
                            a - b > GROUP_WINDOW_SECS
                        };
                        far
                    },
                    _ => true,
                }
            }
        };
        flags.push(new_group);
        i = i + 1;
    }
    flags
}

} // verus!
