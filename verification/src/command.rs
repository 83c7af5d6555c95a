//! Command dispatch: from a parsed frame to one of the two value
//! operations, and from the operation's outcome back to a response frame.

use crate::frame::{frame_model, item_model, Frame, FrameModel};
use crate::store::Store;
use vstd::prelude::*;

verus! {

/// A decoded request.
#[derive(Debug, PartialEq)]
pub enum Command {
    /// The wire command `get`.
    Get { key: Vec<u8> },
    /// The wire command `set`.
    Put { key: Vec<u8>, value: Vec<u8> },
}

/// The mathematical model of a command.
pub enum CommandModel {
    Get(Seq<u8>),
    Put(Seq<u8>, Seq<u8>),
}

pub open spec fn command_model(c: Command) -> CommandModel {
    match c {
        Command::Get { key } => CommandModel::Get(key@),
        Command::Put { key, value } => CommandModel::Put(key@, value@),
    }
}

/// The text an argument frame carries: simple lines and bulk payloads only.
pub open spec fn text_of(fm: FrameModel) -> Option<Seq<u8>> {
    match fm {
        FrameModel::Simple(s) => Some(s),
        FrameModel::Bulk(p) => Some(p),
        _ => None,
    }
}

/// ASCII lower case of one byte.
pub open spec fn ascii_lower(b: u8) -> u8 {
    if 65 <= b <= 90 {
        (b + 32) as u8
    } else {
        b
    }
}

/// ASCII lower case of a byte string.
pub open spec fn lower(s: Seq<u8>) -> Seq<u8> {
    Seq::new(s.len(), |i: int| ascii_lower(s[i]))
}

/// The bytes of "get".
pub open spec fn get_name() -> Seq<u8> {
    seq![103u8, 101u8, 116u8]
}

/// The bytes of "set".
pub open spec fn set_name() -> Seq<u8> {
    seq![115u8, 101u8, 116u8]
}

/// The command a frame names: an array whose first element names `get` or
/// `set` case-insensitively, with exactly one key for `get` and exactly one
/// key and one value for `set`. Anything else is unsupported.
pub open spec fn frame_command(fm: FrameModel) -> Option<CommandModel> {
    match fm {
        FrameModel::Array(els) => {
            if els.len() == 2 {
                match (text_of(els[0]), text_of(els[1])) {
                    (Some(name), Some(key)) => if lower(name) == get_name() {
                        Some(CommandModel::Get(key))
                    } else {
                        None
                    },
                    _ => None,
                }
            } else if els.len() == 3 {
                match (text_of(els[0]), text_of(els[1]), text_of(els[2])) {
                    (Some(name), Some(key), Some(value)) => if lower(name) == set_name() {
                        Some(CommandModel::Put(key, value))
                    } else {
                        None
                    },
                    _ => None,
                }
            } else {
                None
            }
        },
        _ => None,
    }
}

/// Why a frame is not a command. Unsupported commands are fatal for this
/// core by design: the caller decides how to fail.
#[derive(Debug, Clone, Copy, PartialEq, Eq, Structural)]
pub enum CommandError {
    /// Not an array, a name other than the two operations, or wrong arity.
    Unsupported,
}

/// ASCII lower case of one byte.
fn lower_byte(b: u8) -> (r: u8)
    ensures
        r == ascii_lower(b),
{
    if 65 <= b && b <= 90 {
        b + 32
    } else {
        b
    }
}

/// Whether `name` spells "get", case-insensitively.
fn name_is_get(name: &[u8]) -> (r: bool)
    ensures
        r == (lower(name@) == get_name()),
{
    if name.len() != 3 {
        proof {
            assert(lower(name@).len() != get_name().len());
        }
        return false;
    }
    let b0 = lower_byte(*vstd::slice::slice_index_get(name, 0));
    let b1 = lower_byte(*vstd::slice::slice_index_get(name, 1));
    let b2 = lower_byte(*vstd::slice::slice_index_get(name, 2));
    let r = b0 == 103 && b1 == 101 && b2 == 116;
    proof {
        if r {
            assert(lower(name@) =~= get_name());
        } else {
            if lower(name@) == get_name() {
                assert(lower(name@)[0] == 103 && lower(name@)[1] == 101 && lower(name@)[2]
                    == 116);
                assert(false);
            }
        }
    }
    r
}

/// Whether `name` spells "set", case-insensitively.
fn name_is_set(name: &[u8]) -> (r: bool)
    ensures
        r == (lower(name@) == set_name()),
{
    if name.len() != 3 {
        proof {
            assert(lower(name@).len() != set_name().len());
        }
        return false;
    }
    let b0 = lower_byte(*vstd::slice::slice_index_get(name, 0));
    let b1 = lower_byte(*vstd::slice::slice_index_get(name, 1));
    let b2 = lower_byte(*vstd::slice::slice_index_get(name, 2));
    let r = b0 == 115 && b1 == 101 && b2 == 116;
    proof {
        if r {
            assert(lower(name@) =~= set_name());
        } else {
            if lower(name@) == set_name() {
                assert(lower(name@)[0] == 115 && lower(name@)[1] == 101 && lower(name@)[2]
                    == 116);
                assert(false);
            }
        }
    }
    r
}

/// The text an argument frame carries, if it carries one.
fn arg_text(f: &Frame) -> (r: Option<&Vec<u8>>)
    ensures
        match r {
            Some(v) => text_of(item_model(*f)) == Some(v@),
            None => text_of(item_model(*f)) is None,
        },
{
    match f {
        Frame::Simple(s) => Some(s),
        Frame::Bulk(p) => Some(p),
        _ => None,
    }
}

/// Copy a byte string.
fn copy_bytes(v: &Vec<u8>) -> (r: Vec<u8>)
    ensures
        r@ == v@,
{
    vstd::slice::slice_to_vec(v.as_slice())
}

impl Command {
    /// Decode a command from a frame, exactly when the frame names one.
    pub fn from_frame(f: &Frame) -> (r: Result<Command, CommandError>)
        ensures
            match r {
                Ok(c) => frame_command(frame_model(*f)) == Some(command_model(c)),
                Err(_) => frame_command(frame_model(*f)) is None,
            },
    {
        match f {
            Frame::Array(els) => {
                if els.len() == 2 {
                    match arg_text(&els[0]) {
                        Some(nm) => {
                            if name_is_get(nm.as_slice()) {
                                match arg_text(&els[1]) {
                                    Some(k) => Ok(Command::Get { key: copy_bytes(k) }),
                                    None => Err(CommandError::Unsupported),
                                }
                            } else {
                                Err(CommandError::Unsupported)
                            }
                        },
                        None => Err(CommandError::Unsupported),
                    }
                } else if els.len() == 3 {
                    match arg_text(&els[0]) {
                        Some(nm) => {
                            if name_is_set(nm.as_slice()) {
                                match (arg_text(&els[1]), arg_text(&els[2])) {
                                    (Some(k), Some(v)) => Ok(Command::Put {
                                        key: copy_bytes(k),
                                        value: copy_bytes(v),
                                    }),
                                    _ => Err(CommandError::Unsupported),
                                }
                            } else {
                                Err(CommandError::Unsupported)
                            }
                        },
                        None => Err(CommandError::Unsupported),
                    }
                } else {
                    Err(CommandError::Unsupported)
                }
            },
            _ => Err(CommandError::Unsupported),
        }
    }
}

/// The bytes of the `OK` status line.
pub open spec fn ok_text() -> Seq<u8> {
    seq![79u8, 75u8]
}

/// Apply a command to the store and build the response frame. A set binds
/// the key before the response exists; the response to a get reflects
/// exactly the store's binding. The response is always encodable.
pub fn apply_command(cmd: Command, store: &mut Store) -> (resp: Frame)
    requires
        old(store).wf(),
    ensures
        final(store).wf(),
        match cmd {
            Command::Put { key, value } => final(store)@ == old(store)@.insert(key@, value@)
                && frame_model(resp) == FrameModel::Simple(ok_text()),
            Command::Get { key } => final(store)@ == old(store)@ && frame_model(resp) == (
            if old(store)@.contains_key(key@) {
                FrameModel::Bulk(old(store)@[key@])
            } else {
                FrameModel::Null
            }),
        },
        crate::frame::frame_wf(resp),
{
    match cmd {
        Command::Put { key, value } => {
            store.set(key, value);
            let mut text: Vec<u8> = Vec::new();
            text.push(79);
            text.push(75);
            proof {
                assert(text@ =~= ok_text());
                assert(text@[0] == 79 && text@[1] == 75);
                assert(crate::frame::line_ok(text@));
            }
            Frame::Simple(text)
        },
        Command::Get { key } => {
            match store.get(key.as_slice()) {
                Some(v) => {
                    let val = copy_bytes(v);
                    let n: usize = val.len();
                    proof {
                        assert(val@.len() == n <= usize::MAX);
                    }
                    Frame::Bulk(val)
                },
                None => Frame::Null,
            }
        },
    }
}

/// Serve one parsed frame: decode the command, apply it, and hand back the
/// response frame; a frame naming no supported command is refused and the
/// store is untouched.
pub fn handle_frame(f: &Frame, store: &mut Store) -> (r: Result<Frame, CommandError>)
    requires
        old(store).wf(),
    ensures
        final(store).wf(),
        match r {
            Ok(resp) => frame_command(frame_model(*f)) matches Some(c) && crate::frame::frame_wf(
                resp,
            ) && (match c {
                CommandModel::Put(k, v) => final(store)@ == old(store)@.insert(k, v)
                    && frame_model(resp) == FrameModel::Simple(ok_text()),
                CommandModel::Get(k) => final(store)@ == old(store)@ && frame_model(resp) == (
                if old(store)@.contains_key(k) {
                    FrameModel::Bulk(old(store)@[k])
                } else {
                    FrameModel::Null
                }),
            }),
            Err(_) => frame_command(frame_model(*f)) is None && final(store)@ == old(store)@,
        },
{
    match Command::from_frame(f) {
        Ok(cmd) => Ok(apply_command(cmd, store)),
        Err(e) => Err(e),
    }
}

} // verus!
