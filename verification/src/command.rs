//! Commands as they arrive: a topic and a payload, decoded into what to do.

use crate::fraction::{is_decimal_text, Fraction};
use crate::text::{parse_steps, steps_text};
use vstd::prelude::*;
use vstd::slice::slice_subrange;

verus! {

/// What a message asks the controller to do.
#[derive(Debug)]
pub enum Command {
    /// Move by a signed number of steps: positive opens, negative closes.
    Step(i16),
    /// Move to a fraction of the full travel.
    SetPosition(Fraction),
}

/// Why a message was dropped.
#[derive(Clone, Copy, Debug, PartialEq, Eq, Structural)]
pub enum CommandError {
    /// The payload does not write a number of the kind the topic takes.
    Decode,
    /// The topic names no command.
    UnknownTopic,
}

/// The path of the step command, `/step`.
pub open spec fn step_path() -> Seq<u8> {
    seq![47u8, 115u8, 116u8, 101u8, 112u8]
}

/// The path of the position command, `/set-position`.
pub open spec fn set_position_path() -> Seq<u8> {
    seq![
        47u8,
        115u8,
        101u8,
        116u8,
        45u8,
        112u8,
        111u8,
        115u8,
        105u8,
        116u8,
        105u8,
        111u8,
        110u8,
    ]
}

/// `topic` without the device's prefix at its beginning; a topic that does not
/// begin with the prefix is taken as it is.
pub open spec fn relative_path(prefix: Seq<u8>, topic: Seq<u8>) -> Seq<u8> {
    if prefix.is_prefix_of(topic) {
        topic.skip(prefix.len() as int)
    } else {
        topic
    }
}

/// What decoding a message gives: the command that the path names, with the
/// number that the payload writes, or the reason why there is none.
pub open spec fn decodes_to(
    path: Seq<u8>,
    payload: Seq<u8>,
    outcome: Result<Command, CommandError>,
) -> bool {
    match outcome {
        Ok(Command::Step(steps)) => path == step_path() && steps_text(payload) == Some(steps),
        Ok(Command::SetPosition(target)) => path == set_position_path() && is_decimal_text(payload)
            && target.reads(payload),
        Err(CommandError::Decode) => (path == step_path() && steps_text(payload).is_none()) || (path
            == set_position_path() && !is_decimal_text(payload)),
        Err(CommandError::UnknownTopic) => path != step_path() && path != set_position_path(),
    }
}

/// Whether `bytes` begins with `prefix`.
pub fn starts_with(bytes: &[u8], prefix: &[u8]) -> (found: bool)
    ensures
        found == prefix@.is_prefix_of(bytes@),
{
    if prefix.len() > bytes.len() {
        return false;
    }
    let mut at: usize = 0;
    while at < prefix.len()
        invariant
            at <= prefix@.len() <= bytes@.len(),
            forall|i: int| 0 <= i < at ==> prefix@[i] == bytes@[i],
        decreases prefix.len() - at,
    {
        if prefix[at] != bytes[at] {
            assert(bytes@.subrange(0, prefix@.len() as int)[at as int] != prefix@[at as int]);
            return false;
        }
        at = at + 1;
    }
    assert(bytes@.subrange(0, prefix@.len() as int) =~= prefix@);
    true
}

/// Whether `path` is `/step`.
pub fn is_step_path(path: &[u8]) -> (found: bool)
    ensures
        found == (path@ == step_path()),
{
    let found = path.len() == 5 && path[0] == 47 && path[1] == 115 && path[2] == 116 && path[3]
        == 101 && path[4] == 112;
    assert(found ==> path@ =~= step_path());
    found
}

/// Whether `path` is `/set-position`.
pub fn is_set_position_path(path: &[u8]) -> (found: bool)
    ensures
        found == (path@ == set_position_path()),
{
    let found = path.len() == 13 && path[0] == 47 && path[1] == 115 && path[2] == 101 && path[3]
        == 116 && path[4] == 45 && path[5] == 112 && path[6] == 111 && path[7] == 115 && path[8]
        == 105 && path[9] == 116 && path[10] == 105 && path[11] == 111 && path[12] == 110;
    assert(found ==> path@ =~= set_position_path());
    found
}

/// Decodes one message. The device's prefix is taken off the topic; `/step`
/// takes a whole number of steps, `/set-position` a decimal fraction. A payload
/// that does not write such a number is a decode error, and so is one that is
/// not text at all; any other path is an unknown topic.
pub fn decode(prefix: &[u8], topic: &[u8], payload: &[u8]) -> (outcome: Result<
    Command,
    CommandError,
>)
    ensures
        decodes_to(relative_path(prefix@, topic@), payload@, outcome),
{
    let from: usize = if starts_with(topic, prefix) {
        prefix.len()
    } else {
        0
    };
    let path = slice_subrange(topic, from, topic.len());
    assert(path@ =~= relative_path(prefix@, topic@));
    if is_step_path(path) {
        match parse_steps(payload) {
            Some(steps) => Ok(Command::Step(steps)),
            None => Err(CommandError::Decode),
        }
    } else if is_set_position_path(path) {
        match Fraction::parse(payload) {
            Some(target) => Ok(Command::SetPosition(target)),
            None => Err(CommandError::Decode),
        }
    } else {
        Err(CommandError::UnknownTopic)
    }
}

} // verus!
