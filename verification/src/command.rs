use vstd::prelude::*;
use vstd::string::StringSliceAdditionalSpecFns;

use crate::digits::{dec_value, is_digit, leading_digits};
use crate::frame::{Frame, FrameModel};

verus! {

/// A client request, interpreted from an array of bulk strings.
#[derive(Debug, PartialEq, Eq)]
pub enum Command {
    Ping,
    Echo(Vec<u8>),
    Get(String),
    SetValue { key: String, value: Vec<u8>, px: Option<u64> },
    Info,
    Replconf,
    Psync,
}

/// Mathematical model of a `Command`.
pub enum CommandModel {
    Ping,
    Echo(Seq<u8>),
    Get(Seq<char>),
    SetValue { key: Seq<char>, value: Seq<u8>, px: Option<u64> },
    Info,
    Replconf,
    Psync,
}

/// Why a frame is not a command. Each failure is reported to the
/// client as an error frame; the connection stays open.
#[derive(Debug, PartialEq, Eq)]
pub enum CommandError {
    /// The frame is not an array.
    InvalidFrame,
    /// The array holds no elements.
    EmptyArray,
    /// An element of the array is not a bulk string.
    NotBulk,
    /// `PING` takes no arguments.
    PingArity,
    /// `ECHO` takes exactly one argument.
    EchoArity,
    /// `GET` takes exactly one argument.
    GetArity,
    /// `SET` takes a key, a value, and optional trailing arguments.
    SetArity,
    /// `INFO` takes at most one argument.
    InfoArity,
    /// The key is not valid UTF-8 text.
    BadKey,
    /// The command name is none of the known ones.
    Unknown(Vec<u8>),
}

/// Mathematical model of a `CommandError`.
pub enum CommandErrorModel {
    InvalidFrame,
    EmptyArray,
    NotBulk,
    PingArity,
    EchoArity,
    GetArity,
    SetArity,
    InfoArity,
    BadKey,
    Unknown(Seq<u8>),
}

impl Command {
    pub open spec fn deep(&self) -> CommandModel {
        match self {
            Command::Ping => CommandModel::Ping,
            Command::Echo(b) => CommandModel::Echo(b@),
            Command::Get(k) => CommandModel::Get(k@),
            Command::SetValue { key, value, px } => CommandModel::SetValue {
                key: key@,
                value: value@,
                px: *px,
            },
            Command::Info => CommandModel::Info,
            Command::Replconf => CommandModel::Replconf,
            Command::Psync => CommandModel::Psync,
        }
    }
}

impl CommandError {
    pub open spec fn deep(&self) -> CommandErrorModel {
        match self {
            CommandError::InvalidFrame => CommandErrorModel::InvalidFrame,
            CommandError::EmptyArray => CommandErrorModel::EmptyArray,
            CommandError::NotBulk => CommandErrorModel::NotBulk,
            CommandError::PingArity => CommandErrorModel::PingArity,
            CommandError::EchoArity => CommandErrorModel::EchoArity,
            CommandError::GetArity => CommandErrorModel::GetArity,
            CommandError::SetArity => CommandErrorModel::SetArity,
            CommandError::InfoArity => CommandErrorModel::InfoArity,
            CommandError::BadKey => CommandErrorModel::BadKey,
            CommandError::Unknown(name) => CommandErrorModel::Unknown(name@),
        }
    }
}

pub open spec fn ping_name() -> Seq<u8> {
    seq!['P' as u8, 'I' as u8, 'N' as u8, 'G' as u8]
}

pub open spec fn echo_name() -> Seq<u8> {
    seq!['E' as u8, 'C' as u8, 'H' as u8, 'O' as u8]
}

pub open spec fn get_name() -> Seq<u8> {
    seq!['G' as u8, 'E' as u8, 'T' as u8]
}

pub open spec fn set_name() -> Seq<u8> {
    seq!['S' as u8, 'E' as u8, 'T' as u8]
}

pub open spec fn info_name() -> Seq<u8> {
    seq!['I' as u8, 'N' as u8, 'F' as u8, 'O' as u8]
}

pub open spec fn replconf_name() -> Seq<u8> {
    seq!['R' as u8, 'E' as u8, 'P' as u8, 'L' as u8, 'C' as u8, 'O' as u8, 'N' as u8, 'F' as u8]
}

pub open spec fn psync_name() -> Seq<u8> {
    seq!['P' as u8, 'S' as u8, 'Y' as u8, 'N' as u8, 'C' as u8]
}

/// The `PX` modifier token is matched against this exact lowercase
/// literal, as the protocol's lenient option scan does.
pub open spec fn px_name() -> Seq<u8> {
    seq!['p' as u8, 'x' as u8]
}

/// What `atoi` yields for `u64` on arbitrary bytes: an optional single
/// sign byte, then the leading run of decimal digits; a minus sign
/// only reaches zero.
pub open spec fn spec_atoi_u64(s: Seq<u8>) -> Option<u64> {
    if s.len() == 0 {
        None
    } else if s[0] == ('+' as u8) {
        spec_atoi_after_sign(s.drop_first(), false)
    } else if s[0] == ('-' as u8) {
        spec_atoi_after_sign(s.drop_first(), true)
    } else if is_digit(s[0]) {
        spec_atoi_after_sign(s, false)
    } else {
        None
    }
}

pub open spec fn spec_atoi_after_sign(rest: Seq<u8>, negative: bool) -> Option<u64> {
    let v = dec_value(leading_digits(rest));
    if negative {
        if v == 0 {
            Some(0u64)
        } else {
            None
        }
    } else {
        if v > u64::MAX {
            None
        } else {
            Some(v as u64)
        }
    }
}

/// Index of the first element equal to the `px` token, scanning from `i`.
pub open spec fn spec_first_px(elems: Seq<Seq<u8>>, i: int) -> Option<int>
    decreases elems.len() - i,
{
    if i >= elems.len() {
        None
    } else if elems[i] == px_name() {
        Some(i)
    } else {
        spec_first_px(elems, i + 1)
    }
}

/// The optional millisecond count of a `SET`: the element after the
/// first `px` token, read as an unsigned number; a missing or
/// unreadable element silently yields no expiry.
pub open spec fn spec_px(elems: Seq<Seq<u8>>) -> Option<u64> {
    match spec_first_px(elems, 0) {
        None => None,
        Some(j) => {
            if j + 1 < elems.len() {
                spec_atoi_u64(elems[j + 1])
            } else {
                None
            }
        },
    }
}

/// Interprets the bulk elements of an array frame as a command.
pub open spec fn spec_command_from(elems: Seq<Seq<u8>>) -> Result<
    CommandModel,
    CommandErrorModel,
>
    recommends
        elems.len() > 0,
{
    let name = elems[0];
    if name == ping_name() {
        if elems.len() != 1 {
            Err(CommandErrorModel::PingArity)
        } else {
            Ok(CommandModel::Ping)
        }
    } else if name == echo_name() {
        if elems.len() != 2 {
            Err(CommandErrorModel::EchoArity)
        } else {
            Ok(CommandModel::Echo(elems[1]))
        }
    } else if name == get_name() {
        if elems.len() != 2 {
            Err(CommandErrorModel::GetArity)
        } else if vstd::utf8::valid_utf8(elems[1]) {
            Ok(CommandModel::Get(vstd::utf8::decode_utf8(elems[1])))
        } else {
            Err(CommandErrorModel::BadKey)
        }
    } else if name == set_name() {
        if elems.len() < 3 {
            Err(CommandErrorModel::SetArity)
        } else if vstd::utf8::valid_utf8(elems[1]) {
            Ok(
                CommandModel::SetValue {
                    key: vstd::utf8::decode_utf8(elems[1]),
                    value: elems[2],
                    px: spec_px(elems),
                },
            )
        } else {
            Err(CommandErrorModel::BadKey)
        }
    } else if name == info_name() {
        if elems.len() > 2 {
            Err(CommandErrorModel::InfoArity)
        } else {
            Ok(CommandModel::Info)
        }
    } else if name == replconf_name() {
        Ok(CommandModel::Replconf)
    } else if name == psync_name() {
        Ok(CommandModel::Psync)
    } else {
        Err(CommandErrorModel::Unknown(name))
    }
}

/// Whether every frame of a sequence is a bulk string.
pub open spec fn all_bulk(fs: Seq<FrameModel>) -> bool {
    forall|i: int| 0 <= i < fs.len() ==> (#[trigger] fs[i]) is Bulk
}

/// The bulk payloads of a frame sequence.
pub open spec fn bulk_payloads(fs: Seq<FrameModel>) -> Seq<Seq<u8>> {
    Seq::new(fs.len(), |i: int| fs[i]->Bulk_0)
}

/// The command a frame means, or the exact error reported for it:
/// only a non-empty array of bulk strings is a command.
pub open spec fn spec_parse_command(f: FrameModel) -> Result<CommandModel, CommandErrorModel> {
    match f {
        FrameModel::Array(fs) => {
            if fs.len() == 0 {
                Err(CommandErrorModel::EmptyArray)
            } else if !all_bulk(fs) {
                Err(CommandErrorModel::NotBulk)
            } else {
                spec_command_from(bulk_payloads(fs))
            }
        },
        _ => Err(CommandErrorModel::InvalidFrame),
    }
}

/// How an executable result must reflect the model's.
pub open spec fn command_reflects(
    r: Result<Command, CommandError>,
    sr: Result<CommandModel, CommandErrorModel>,
) -> bool {
    match sr {
        Ok(cm) => r matches Ok(c) && c.deep() == cm,
        Err(em) => r matches Err(e) && e.deep() == em,
    }
}

/// Compares two byte strings.
pub fn eq_bytes(a: &[u8], b: &[u8]) -> (r: bool)
    ensures
        r == (a@ == b@),
{
    if a.len() != b.len() {
        return false;
    }
    let mut i: usize = 0;
    while i < a.len()
        invariant
            a@.len() == b@.len(),
            i <= a@.len(),
            forall|j: int| 0 <= j < i ==> a@[j] == b@[j],
        decreases a@.len() - i,
    {
        if a[i] != b[i] {
            return false;
        }
        i = i + 1;
    }
    proof {
        assert(a@ =~= b@);
    }
    true
}

/// Relies on `atoi::atoi` for `u64`: per its source it accepts one
/// optional leading `+` or `-`, reads the leading run of decimal
/// digits (ignoring what follows), returns `None` when no sign or
/// digit starts the input or when the value cannot be represented,
/// and reaches only zero under a minus sign.
#[verifier::external_body]
fn atoi_u64(b: &[u8]) -> (r: Option<u64>)
    ensures
        r == spec_atoi_u64(b@),
{
    atoi::atoi::<u64>(b)
}

/// Relies on `String::from_utf8`: it succeeds exactly on valid UTF-8
/// and decodes those bytes to the characters they encode.
#[verifier::external_body]
fn bytes_to_string(b: Vec<u8>) -> (r: Option<String>)
    ensures
        r is Some <==> vstd::utf8::valid_utf8(b@),
        r matches Some(s) ==> s@ == vstd::utf8::decode_utf8(b@),
{
    String::from_utf8(b).ok()
}

impl Command {
    /// Interprets a parsed frame as a command, or says exactly why it
    /// is none.
    pub fn parse(frame: Frame) -> (r: Result<Command, CommandError>)
        ensures
            command_reflects(r, spec_parse_command(frame.deep())),
    {
        let fs = match frame {
            Frame::Array(fs) => fs,
            _ => {
                return Err(CommandError::InvalidFrame);
            },
        };
        let ghost fsm = Frame::deep_seq(fs@);
        proof {
            crate::frame::lemma_deep_seq_index(fs@);
        }
        if fs.len() == 0 {
            return Err(CommandError::EmptyArray);
        }
        let mut elems: Vec<Vec<u8>> = Vec::new();
        let mut i: usize = 0;
        while i < fs.len()
            invariant
                i <= fs@.len(),
                0 < fs@.len(),
                elems@.len() == i,
                fsm == Frame::deep_seq(fs@),
                frame.deep() == FrameModel::Array(fsm),
                fsm.len() == fs@.len(),
                forall|j: int| 0 <= j < fs@.len() ==> fsm[j] == #[trigger] fs@[j].deep(),
                forall|j: int| 0 <= j < i ==> (#[trigger] fsm[j]) is Bulk,
                forall|j: int| 0 <= j < i ==> (#[trigger] elems@[j])@ == fsm[j]->Bulk_0,
            decreases fs@.len() - i,
        {
            let fi = &fs[i];
            assert(*fi == fs@[i as int]);
            match fi {
                Frame::Bulk(b) => {
                    proof {
                        assert(fs@[i as int] == Frame::Bulk(*b));
                        assert(fsm[i as int] == fs@[i as int].deep());
                        assert(fsm[i as int] == FrameModel::Bulk(b@));
                    }
                    let copy = vstd::slice::slice_to_vec(b.as_slice());
                    elems.push(copy);
                },
                _ => {
                    proof {
                        assert(fsm[i as int] == fs@[i as int].deep());
                        assert(!(fsm[i as int] is Bulk));
                    }
                    return Err(CommandError::NotBulk);
                },
            }
            i = i + 1;
        }
        proof {
            assert(all_bulk(fsm));
            assert forall|j: int| 0 <= j < fsm.len() implies #[trigger] bulk_payloads(fsm)[j]
                == elems@[j]@ by {}
            assert(bulk_payloads(fsm) =~= Seq::new(elems@.len(), |j: int| elems@[j]@));
        }
        Self::from_elements(elems)
    }

    /// Dispatches on the exact, case-sensitive command name.
    fn from_elements(elems: Vec<Vec<u8>>) -> (r: Result<Command, CommandError>)
        requires
            elems@.len() > 0,
        ensures
            command_reflects(r, spec_command_from(Seq::new(elems@.len(), |j: int| elems@[j]@))),
    {
        let ghost es = Seq::new(elems@.len(), |j: int| elems@[j]@);
        let name = elems[0].as_slice();
        assert(name@ == es[0]);
        let ping: Vec<u8> = vec!['P' as u8, 'I' as u8, 'N' as u8, 'G' as u8];
        let echo: Vec<u8> = vec!['E' as u8, 'C' as u8, 'H' as u8, 'O' as u8];
        let get: Vec<u8> = vec!['G' as u8, 'E' as u8, 'T' as u8];
        let set: Vec<u8> = vec!['S' as u8, 'E' as u8, 'T' as u8];
        let info: Vec<u8> = vec!['I' as u8, 'N' as u8, 'F' as u8, 'O' as u8];
        let replconf: Vec<u8> = vec![
            'R' as u8,
            'E' as u8,
            'P' as u8,
            'L' as u8,
            'C' as u8,
            'O' as u8,
            'N' as u8,
            'F' as u8,
        ];
        let psync: Vec<u8> = vec!['P' as u8, 'S' as u8, 'Y' as u8, 'N' as u8, 'C' as u8];
        if eq_bytes(name, ping.as_slice()) {
            if elems.len() != 1 {
                Err(CommandError::PingArity)
            } else {
                Ok(Command::Ping)
            }
        } else if eq_bytes(name, echo.as_slice()) {
            if elems.len() != 2 {
                Err(CommandError::EchoArity)
            } else {
                let msg = vstd::slice::slice_to_vec(elems[1].as_slice());
                Ok(Command::Echo(msg))
            }
        } else if eq_bytes(name, get.as_slice()) {
            if elems.len() != 2 {
                Err(CommandError::GetArity)
            } else {
                let key_bytes = vstd::slice::slice_to_vec(elems[1].as_slice());
                match bytes_to_string(key_bytes) {
                    Some(key) => Ok(Command::Get(key)),
                    None => Err(CommandError::BadKey),
                }
            }
        } else if eq_bytes(name, set.as_slice()) {
            if elems.len() < 3 {
                Err(CommandError::SetArity)
            } else {
                let key_bytes = vstd::slice::slice_to_vec(elems[1].as_slice());
                match bytes_to_string(key_bytes) {
                    Some(key) => {
                        let value = vstd::slice::slice_to_vec(elems[2].as_slice());
                        let px = Self::find_px(&elems);
                        Ok(Command::SetValue { key, value, px })
                    },
                    None => Err(CommandError::BadKey),
                }
            }
        } else if eq_bytes(name, info.as_slice()) {
            if elems.len() > 2 {
                Err(CommandError::InfoArity)
            } else {
                Ok(Command::Info)
            }
        } else if eq_bytes(name, replconf.as_slice()) {
            Ok(Command::Replconf)
        } else if eq_bytes(name, psync.as_slice()) {
            Ok(Command::Psync)
        } else {
            let name_copy = vstd::slice::slice_to_vec(name);
            Err(CommandError::Unknown(name_copy))
        }
    }

    /// Scans all elements for the lowercase `px` token and reads the
    /// element after it as the expiry, if both are there.
    fn find_px(elems: &Vec<Vec<u8>>) -> (r: Option<u64>)
        ensures
            r == spec_px(Seq::new(elems@.len(), |j: int| elems@[j]@)),
    {
        let ghost es = Seq::new(elems@.len(), |j: int| elems@[j]@);
        let px_tok: Vec<u8> = vec!['p' as u8, 'x' as u8];
        let mut j: usize = 0;
        while j < elems.len()
            invariant
                j <= elems@.len(),
                es == Seq::new(elems@.len(), |k: int| elems@[k]@),
                px_tok@ == px_name(),
                spec_first_px(es, 0) == spec_first_px(es, j as int),
            decreases elems@.len() - j,
        {
            if eq_bytes(elems[j].as_slice(), px_tok.as_slice()) {
                assert(spec_first_px(es, j as int) == Some(j as int));
                if j + 1 < elems.len() {
                    return atoi_u64(elems[j + 1].as_slice());
                } else {
                    return None;
                }
            }
            j = j + 1;
        }
        None
    }
}

} // verus!

verus! {

/// The message an error frame carries back to the client for each
/// command failure.
pub open spec fn error_text(e: CommandErrorModel) -> Seq<u8> {
    match e {
        CommandErrorModel::InvalidFrame => ("invalid frame for command").spec_bytes(),
        CommandErrorModel::EmptyArray => ("empty array").spec_bytes(),
        CommandErrorModel::NotBulk => ("only bulk strings are supported").spec_bytes(),
        CommandErrorModel::PingArity => ("expected: PING (no arguments)").spec_bytes(),
        CommandErrorModel::EchoArity => ("expected: ECHO <message>").spec_bytes(),
        CommandErrorModel::GetArity => ("expected: GET <key>").spec_bytes(),
        CommandErrorModel::SetArity => ("expected: SET <key> <value> [PX milliseconds] ").spec_bytes(),
        CommandErrorModel::InfoArity => ("expected: INFO [replication] ").spec_bytes(),
        CommandErrorModel::BadKey => ("key is not valid utf-8 text").spec_bytes(),
        CommandErrorModel::Unknown(name) => ("unknown command: ").spec_bytes() + name,
    }
}

impl CommandError {
    /// The reply sent for this failure; the connection stays open.
    pub fn to_error_frame(&self) -> (r: Frame)
        ensures
            r.deep() == FrameModel::Error(error_text(self.deep())),
    {
        let mut out: Vec<u8> = Vec::new();
        match self {
            CommandError::InvalidFrame => {
                crate::frame::push_all(&mut out, "invalid frame for command".as_bytes());
            },
            CommandError::EmptyArray => {
                crate::frame::push_all(&mut out, "empty array".as_bytes());
            },
            CommandError::NotBulk => {
                crate::frame::push_all(&mut out, "only bulk strings are supported".as_bytes());
            },
            CommandError::PingArity => {
                crate::frame::push_all(&mut out, "expected: PING (no arguments)".as_bytes());
            },
            CommandError::EchoArity => {
                crate::frame::push_all(&mut out, "expected: ECHO <message>".as_bytes());
            },
            CommandError::GetArity => {
                crate::frame::push_all(&mut out, "expected: GET <key>".as_bytes());
            },
            CommandError::SetArity => {
                crate::frame::push_all(
                    &mut out,
                    "expected: SET <key> <value> [PX milliseconds] ".as_bytes(),
                );
            },
            CommandError::InfoArity => {
                crate::frame::push_all(&mut out, "expected: INFO [replication] ".as_bytes());
            },
            CommandError::BadKey => {
                crate::frame::push_all(&mut out, "key is not valid utf-8 text".as_bytes());
            },
            CommandError::Unknown(name) => {
                crate::frame::push_all(&mut out, "unknown command: ".as_bytes());
                crate::frame::push_all(&mut out, name.as_slice());
            },
        }
        proof {
            assert(out@ =~= error_text(self.deep()));
        }
        Frame::Error(out)
    }
}

} // verus!
