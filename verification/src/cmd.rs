//! The command layer: a top-level array frame becomes a typed command,
//! arity and argument kinds checked, and a command executes against the
//! backend to produce a response frame.
use vstd::prelude::*;
use crate::backend::{Backend, StoreView};
use crate::frame::{
    FrameView, RespFrame, RespArray, SimpleString, StringifyError, try_string_view, frames_view,
    frame_view, lemma_frames_view_len,
};
use crate::msg;
use crate::text::{lower_bytes, dec_rep, format_u64, to_lower};

verus! {

/// What command parsing can report. None of these ends the connection;
/// each is sent back as an error frame.
#[derive(Debug, PartialEq)]
pub enum CommandError {
    NotEqualCommand,
    UnexpectedError,
    InvalidCommand(Vec<u8>),
    InvalidArgument(Vec<u8>),
}

/// Command errors as values.
pub enum CmdErrView {
    NotEqualCommand,
    UnexpectedError,
    InvalidCommand(Seq<u8>),
    InvalidArgument(Seq<u8>),
}

impl View for CommandError {
    type V = CmdErrView;

    open spec fn view(&self) -> CmdErrView {
        match self {
            CommandError::NotEqualCommand => CmdErrView::NotEqualCommand,
            CommandError::UnexpectedError => CmdErrView::UnexpectedError,
            CommandError::InvalidCommand(m) => CmdErrView::InvalidCommand(m@),
            CommandError::InvalidArgument(m) => CmdErrView::InvalidArgument(m@),
        }
    }
}

/// A parsed command as values.
pub enum CommandView {
    Get { key: Seq<u8> },
    SetCmd { key: Seq<u8>, value: FrameView },
    HGet { key: Seq<u8>, field: Seq<u8> },
    HSet { key: Seq<u8>, field: Seq<u8>, value: FrameView },
    HMGet { key: Seq<u8>, fields: Seq<Seq<u8>> },
    SADD { key: Seq<u8>, members: Seq<Seq<u8>> },
    SISMEBER { key: Seq<u8>, member: Seq<u8> },
    Echo { value: FrameView },
    Unrecognized,
}

#[derive(Debug)]
pub struct Get {
    pub key: Vec<u8>,
}

#[derive(Debug)]
pub struct SetCmd {
    pub key: Vec<u8>,
    pub value: RespFrame,
}

#[derive(Debug)]
pub struct HGet {
    pub key: Vec<u8>,
    pub field: Vec<u8>,
}

#[derive(Debug)]
pub struct HSet {
    pub key: Vec<u8>,
    pub field: Vec<u8>,
    pub value: RespFrame,
}

#[derive(Debug)]
pub struct HMGet {
    pub key: Vec<u8>,
    pub fields: Vec<Vec<u8>>,
}

#[derive(Debug)]
pub struct SADD {
    pub key: Vec<u8>,
    pub members: Vec<Vec<u8>>,
}

#[derive(Debug)]
pub struct SISMEBER {
    pub key: Vec<u8>,
    pub member: Vec<u8>,
}

#[derive(Debug)]
pub struct Echo {
    pub value: RespFrame,
}

#[derive(Debug)]
pub struct Unrecognized;

/// A request, parsed: one variant per verb, plus the sentinel for a
/// verb nobody recognizes.
#[derive(Debug)]
pub enum Command {
    Get(Get),
    SetCmd(SetCmd),
    HGet(HGet),
    HSet(HSet),
    HMGet(HMGet),
    SADD(SADD),
    SISMEBER(SISMEBER),
    Echo(Echo),
    Unrecognized(Unrecognized),
}

/// The views of a list of byte strings, in order.
pub open spec fn texts_view(v: Seq<Vec<u8>>) -> Seq<Seq<u8>> {
    Seq::new(v.len(), |i: int| v[i]@)
}

impl View for Command {
    type V = CommandView;

    open spec fn view(&self) -> CommandView {
        match self {
            Command::Get(c) => CommandView::Get { key: c.key@ },
            Command::SetCmd(c) => CommandView::SetCmd { key: c.key@, value: c.value@ },
            Command::HGet(c) => CommandView::HGet { key: c.key@, field: c.field@ },
            Command::HSet(c) => CommandView::HSet {
                key: c.key@,
                field: c.field@,
                value: c.value@,
            },
            Command::HMGet(c) => CommandView::HMGet {
                key: c.key@,
                fields: texts_view(c.fields@),
            },
            Command::SADD(c) => CommandView::SADD {
                key: c.key@,
                members: texts_view(c.members@),
            },
            Command::SISMEBER(c) => CommandView::SISMEBER { key: c.key@, member: c.member@ },
            Command::Echo(c) => CommandView::Echo { value: c.value@ },
            Command::Unrecognized(_) => CommandView::Unrecognized,
        }
    }
}

/// The leading verb and the arguments behind it: the whole array when
/// the verb matches, with the named failures otherwise.
pub open spec fn spec_get_args(av: Option<Seq<FrameView>>, cmd: Seq<u8>) -> Result<
    Seq<FrameView>,
    CmdErrView,
> {
    match av {
        None => Err(CmdErrView::InvalidCommand(msg::empty_command_upper_text())),
        Some(items) => {
            if items.len() == 0 {
                Err(CmdErrView::InvalidCommand(msg::empty_command_upper_text()))
            } else {
                match try_string_view(items[0]) {
                    Err(_) => Err(CmdErrView::InvalidCommand(msg::invalid_command_text())),
                    Ok(t) => {
                        if lower_bytes(t) != cmd {
                            Err(CmdErrView::NotEqualCommand)
                        } else {
                            Ok(items.skip(1))
                        }
                    },
                }
            }
        },
    }
}

/// The arity failure's text: what was expected, what arrived.
pub open spec fn arity_message(expect: nat, got: nat) -> Seq<u8> {
    msg::args_expect_text() + dec_rep(expect) + msg::args_got_text() + dec_rep(got)
}

/// `spec_get_args`, then the arity check.
pub open spec fn spec_get_args_n(av: Option<Seq<FrameView>>, cmd: Seq<u8>, n: nat) -> Result<
    Seq<FrameView>,
    CmdErrView,
> {
    match spec_get_args(av, cmd) {
        Err(e) => Err(e),
        Ok(args) => {
            if args.len() != n {
                Err(CmdErrView::InvalidCommand(arity_message(n, args.len())))
            } else {
                Ok(args)
            }
        },
    }
}

/// Why a frame yields no key text, said in words.
pub open spec fn stringify_msg(e: StringifyError) -> Seq<u8> {
    match e {
        StringifyError::NullBulkString => msg::bulk_null_text(),
        StringifyError::NotUtf8 => msg::invalid_utf8_text(),
        StringifyError::NotSupported => msg::not_stringifiable_text(),
    }
}

/// The key texts of all the frames, in order; the first frame that
/// yields none fails the whole row, so nothing is passed over.
pub open spec fn collect_strings(args: Seq<FrameView>) -> Result<Seq<Seq<u8>>, StringifyError>
    decreases args.len(),
{
    if args.len() == 0 {
        Ok(Seq::empty())
    } else {
        match try_string_view(args[0]) {
            Ok(t) => match collect_strings(args.skip(1)) {
                Ok(rest) => Ok(seq![t] + rest),
                Err(e) => Err(e),
            },
            Err(e) => Err(e),
        }
    }
}

/// Strip the verb of `cmd` off the front of `value` and hand back the
/// remaining argument frames.
pub fn get_args_without_check(value: RespArray, command: &[u8]) -> (r: Result<
    Vec<RespFrame>,
    CommandError,
>)
    ensures
        match r {
            Ok(v) => spec_get_args(value@, command@) == Ok::<Seq<FrameView>, CmdErrView>(
                frames_view(v@),
            ),
            Err(e) => spec_get_args(value@, command@) == Err::<Seq<FrameView>, CmdErrView>(e@),
        },
{
    match value.0 {
        None => Err(CommandError::InvalidCommand(msg::empty_command_upper_bytes())),
        Some(mut v) => {
            if v.len() == 0 {
                proof {
                    assert(frames_view(v@).len() == 0);
                }
                return Err(CommandError::InvalidCommand(msg::empty_command_upper_bytes()));
            }
            let ghost items = frames_view(v@);
            proof {
                lemma_frames_view_len(v@);
            }
            let first = v.remove(0);
            proof {
                assert(items[0] == frame_view(first));
                lemma_frames_view_len(v@);
                assert(frames_view(v@) =~= items.skip(1)) by {
                    assert forall|i: int| 0 <= i < v@.len() implies #[trigger] frames_view(
                        v@,
                    )[i] == items.skip(1)[i] by {
                        assert(frames_view(v@)[i] == frame_view(v@[i]));
                    }
                }
            }
            match first.try_to_string() {
                Err(_) => Err(CommandError::InvalidCommand(msg::invalid_command_bytes())),
                Ok(t) => {
                    let lt = to_lower(t.as_slice());
                    if !crate::frame::bytes_eq(lt.as_slice(), command) {
                        Err(CommandError::NotEqualCommand)
                    } else {
                        Ok(v)
                    }
                },
            }
        },
    }
}

/// `get_args_without_check`, then insist on exactly `args` arguments.
pub fn get_args(value: RespArray, command: &[u8], args: usize) -> (r: Result<
    Vec<RespFrame>,
    CommandError,
>)
    ensures
        match r {
            Ok(v) => spec_get_args_n(value@, command@, args as nat) == Ok::<
                Seq<FrameView>,
                CmdErrView,
            >(frames_view(v@)),
            Err(e) => spec_get_args_n(value@, command@, args as nat) == Err::<
                Seq<FrameView>,
                CmdErrView,
            >(e@),
        },
{
    let frame = match get_args_without_check(value, command) {
        Ok(v) => v,
        Err(e) => {
            return Err(e);
        },
    };
    proof {
        lemma_frames_view_len(frame@);
    }
    if frame.len() != args {
        let mut m = msg::args_expect_bytes();
        let d1 = format_u64(args as u64);
        crate::frame::append_to(&mut m, d1.as_slice());
        let d2 = msg::args_got_bytes();
        crate::frame::append_to(&mut m, d2.as_slice());
        let d3 = format_u64(frame.len() as u64);
        crate::frame::append_to(&mut m, d3.as_slice());
        proof {
            assert(m@ == arity_message(args as nat, frames_view(frame@).len()));
        }
        return Err(CommandError::InvalidCommand(m));
    }
    Ok(frame)
}

/// The key, then every further argument as text; any argument that
/// yields no text fails the whole parse.
pub fn parse_key_values_as_string(args: Vec<RespFrame>) -> (r: Result<
    (Vec<u8>, Vec<Vec<u8>>),
    CommandError,
>)
    ensures
        match r {
            Ok(kv) => frames_view(args@).len() > 0 && try_string_view(frames_view(args@)[0])
                == Ok::<Seq<u8>, StringifyError>(kv.0@) && collect_strings(
                frames_view(args@).skip(1),
            ) == Ok::<Seq<Seq<u8>>, StringifyError>(texts_view(kv.1@)),
            Err(e) => (frames_view(args@).len() == 0 && e@ == CmdErrView::InvalidCommand(
                msg::empty_command_upper_text(),
            )) || (frames_view(args@).len() > 0 && try_string_view(frames_view(args@)[0]) is Err
                && e@ == CmdErrView::InvalidArgument(
                stringify_msg(try_string_view(frames_view(args@)[0])->Err_0),
            )) || (frames_view(args@).len() > 0 && try_string_view(frames_view(args@)[0]) is Ok
                && collect_strings(frames_view(args@).skip(1)) is Err && e@
                == CmdErrView::InvalidArgument(
                stringify_msg(collect_strings(frames_view(args@).skip(1))->Err_0),
            )),
        },
{
    let ghost s = frames_view(args@);
    proof {
        lemma_frames_view_len(args@);
    }
    if args.len() == 0 {
        return Err(CommandError::InvalidCommand(msg::empty_command_upper_bytes()));
    }
    let key = match args[0].try_to_string() {
        Ok(k) => k,
        Err(se) => {
            let m = stringify_bytes(se);
            return Err(CommandError::InvalidArgument(m));
        },
    };
    let mut fields: Vec<Vec<u8>> = Vec::new();
    let n = args.len();
    let mut i: usize = 1;
    proof {
        assert(texts_view(fields@) =~= Seq::<Seq<u8>>::empty());
    }
    while i < n
        invariant
            1 <= i <= n,
            n == args@.len(),
            s == frames_view(args@),
            s.len() == n,
            forall|j: int| 0 <= j < n ==> #[trigger] s[j] == frame_view(args@[j]),
            try_string_view(s[0]) is Ok,
            (match collect_strings(s.skip(i as int)) {
                Ok(rest) => collect_strings(s.skip(1)) == Ok::<Seq<Seq<u8>>, StringifyError>(
                    texts_view(fields@) + rest,
                ),
                Err(e) => collect_strings(s.skip(1)) == Err::<Seq<Seq<u8>>, StringifyError>(e),
            }),
        decreases n - i,
    {
        let ghost before = fields@;
        proof {
            assert(s.skip(i as int)[0] == s[i as int]);
            assert(s.skip(i as int).skip(1) =~= s.skip(i + 1));
        }
        match args[i].try_to_string() {
            Ok(t) => {
                fields.push(t);
                proof {
                    assert(texts_view(fields@) =~= texts_view(before).push(
                        try_string_view(s[i as int])->Ok_0,
                    ));
                    match collect_strings(s.skip(i + 1)) {
                        Ok(rest2) => {
                            assert(texts_view(fields@) + rest2 =~= texts_view(before) + (seq![
                                try_string_view(s[i as int])->Ok_0,
                            ] + rest2));
                        },
                        Err(_) => {
                        },
                    }
                }
            },
            Err(se) => {
                proof {
                    assert(collect_strings(s.skip(i as int)) == Err::<
                        Seq<Seq<u8>>,
                        StringifyError,
                    >(se));
                }
                let m = stringify_bytes(se);
                return Err(CommandError::InvalidArgument(m));
            },
        }
        i = i + 1;
    }
    proof {
        assert(s.skip(n as int).len() == 0);
        assert(collect_strings(s.skip(n as int)) == Ok::<Seq<Seq<u8>>, StringifyError>(
            Seq::empty(),
        ));
        assert(texts_view(fields@) + Seq::<Seq<u8>>::empty() =~= texts_view(fields@));
    }
    Ok((key, fields))
}

/// The text of a `StringifyError`.
fn stringify_bytes(e: StringifyError) -> (r: Vec<u8>)
    ensures
        r@ == stringify_msg(e),
{
    match e {
        StringifyError::NullBulkString => msg::bulk_null_bytes(),
        StringifyError::NotUtf8 => msg::invalid_utf8_bytes(),
        StringifyError::NotSupported => msg::not_stringifiable_bytes(),
    }
}

/// What parsing a `GET` request yields.
pub open spec fn spec_parse_get(av: Option<Seq<FrameView>>) -> Result<CommandView, CmdErrView> {
    match spec_get_args_n(av, msg::verb_get_text(), 1) {
        Err(e) => Err(e),
        Ok(args) => match try_string_view(args[0]) {
            Ok(k) => Ok(CommandView::Get { key: k }),
            Err(e) => Err(CmdErrView::InvalidArgument(stringify_msg(e))),
        },
    }
}

/// What parsing a `SET` request yields.
pub open spec fn spec_parse_set(av: Option<Seq<FrameView>>) -> Result<CommandView, CmdErrView> {
    match spec_get_args_n(av, msg::verb_set_text(), 2) {
        Err(e) => Err(e),
        Ok(args) => match try_string_view(args[0]) {
            Ok(k) => Ok(CommandView::SetCmd { key: k, value: args[1] }),
            Err(e) => Err(CmdErrView::InvalidArgument(stringify_msg(e))),
        },
    }
}

/// What parsing an `HGET` request yields.
pub open spec fn spec_parse_hget(av: Option<Seq<FrameView>>) -> Result<CommandView, CmdErrView> {
    match spec_get_args_n(av, msg::verb_hget_text(), 2) {
        Err(e) => Err(e),
        Ok(args) => match try_string_view(args[0]) {
            Ok(k) => match try_string_view(args[1]) {
                Ok(f) => Ok(CommandView::HGet { key: k, field: f }),
                Err(e) => Err(CmdErrView::InvalidArgument(stringify_msg(e))),
            },
            Err(e) => Err(CmdErrView::InvalidArgument(stringify_msg(e))),
        },
    }
}

/// What parsing an `HSET` request yields.
pub open spec fn spec_parse_hset(av: Option<Seq<FrameView>>) -> Result<CommandView, CmdErrView> {
    match spec_get_args_n(av, msg::verb_hset_text(), 3) {
        Err(e) => Err(e),
        Ok(args) => match try_string_view(args[0]) {
            Ok(k) => match try_string_view(args[1]) {
                Ok(f) => Ok(CommandView::HSet { key: k, field: f, value: args[2] }),
                Err(e) => Err(CmdErrView::InvalidArgument(stringify_msg(e))),
            },
            Err(e) => Err(CmdErrView::InvalidArgument(stringify_msg(e))),
        },
    }
}

/// What parsing an `HMGET` request yields: a key and every field that
/// reads as text.
pub open spec fn spec_parse_hmget(av: Option<Seq<FrameView>>) -> Result<CommandView, CmdErrView> {
    match spec_get_args(av, msg::verb_hmget_text()) {
        Err(e) => Err(e),
        Ok(args) => {
            if args.len() == 0 {
                Err(CmdErrView::InvalidCommand(msg::empty_command_upper_text()))
            } else {
                match try_string_view(args[0]) {
                    Ok(k) => match collect_strings(args.skip(1)) {
                        Ok(fs) => Ok(CommandView::HMGet { key: k, fields: fs }),
                        Err(e) => Err(CmdErrView::InvalidArgument(stringify_msg(e))),
                    },
                    Err(e) => Err(CmdErrView::InvalidArgument(stringify_msg(e))),
                }
            }
        },
    }
}

/// What parsing an `SADD` request yields: a key and every member that
/// reads as text.
pub open spec fn spec_parse_sadd(av: Option<Seq<FrameView>>) -> Result<CommandView, CmdErrView> {
    match spec_get_args(av, msg::verb_sadd_text()) {
        Err(e) => Err(e),
        Ok(args) => {
            if args.len() == 0 {
                Err(CmdErrView::InvalidCommand(msg::empty_command_upper_text()))
            } else {
                match try_string_view(args[0]) {
                    Ok(k) => match collect_strings(args.skip(1)) {
                        Ok(ms) => Ok(CommandView::SADD { key: k, members: ms }),
                        Err(e) => Err(CmdErrView::InvalidArgument(stringify_msg(e))),
                    },
                    Err(e) => Err(CmdErrView::InvalidArgument(stringify_msg(e))),
                }
            }
        },
    }
}

/// What parsing a `SISMEMBER` request yields.
pub open spec fn spec_parse_sismember(av: Option<Seq<FrameView>>) -> Result<
    CommandView,
    CmdErrView,
> {
    match spec_get_args_n(av, msg::verb_sismember_text(), 2) {
        Err(e) => Err(e),
        Ok(args) => match try_string_view(args[0]) {
            Ok(k) => match try_string_view(args[1]) {
                Ok(m) => Ok(CommandView::SISMEBER { key: k, member: m }),
                Err(e) => Err(CmdErrView::InvalidArgument(stringify_msg(e))),
            },
            Err(e) => Err(CmdErrView::InvalidArgument(stringify_msg(e))),
        },
    }
}

/// What parsing an `ECHO` request yields.
pub open spec fn spec_parse_echo(av: Option<Seq<FrameView>>) -> Result<CommandView, CmdErrView> {
    match spec_get_args_n(av, msg::verb_echo_text(), 1) {
        Err(e) => Err(e),
        Ok(args) => Ok(CommandView::Echo { value: args[0] }),
    }
}

/// What parsing a request frame yields: only an array can be a command;
/// the first element names the verb, compared without regard to letter
/// case; a verb nobody recognizes parses as the sentinel.
pub open spec fn spec_parse_command(f: FrameView) -> Result<CommandView, CmdErrView> {
    match f {
        FrameView::Array(av) => match av {
            None => Err(CmdErrView::InvalidCommand(msg::empty_command_upper_text())),
            Some(items) => {
                if items.len() == 0 {
                    Err(CmdErrView::InvalidCommand(msg::empty_command_lower_text()))
                } else {
                    let verb = match try_string_view(items[0]) {
                        Ok(t) => lower_bytes(t),
                        Err(_) => Seq::empty(),
                    };
                    if verb == msg::verb_get_text() {
                        spec_parse_get(av)
                    } else if verb == msg::verb_set_text() {
                        spec_parse_set(av)
                    } else if verb == msg::verb_hset_text() {
                        spec_parse_hset(av)
                    } else if verb == msg::verb_hget_text() {
                        spec_parse_hget(av)
                    } else if verb == msg::verb_echo_text() {
                        spec_parse_echo(av)
                    } else if verb == msg::verb_hmget_text() {
                        spec_parse_hmget(av)
                    } else if verb == msg::verb_sadd_text() {
                        spec_parse_sadd(av)
                    } else if verb == msg::verb_sismember_text() {
                        spec_parse_sismember(av)
                    } else {
                        Ok(CommandView::Unrecognized)
                    }
                }
            },
        },
        _ => Err(CmdErrView::InvalidCommand(msg::invalid_command_text())),
    }
}

impl Get {
    pub fn try_from(value: RespArray) -> (r: Result<Get, CommandError>)
        ensures
            match r {
                Ok(c) => spec_parse_get(value@) == Ok::<CommandView, CmdErrView>(
                    CommandView::Get { key: c.key@ },
                ),
                Err(e) => spec_parse_get(value@) == Err::<CommandView, CmdErrView>(e@),
            },
    {
        let verb = msg::verb_get_bytes();
        let args = match get_args(value, verb.as_slice(), 1) {
            Ok(a) => a,
            Err(e) => {
                return Err(e);
            },
        };
        proof {
            lemma_frames_view_len(args@);
        }
        match args[0].try_to_string() {
            Ok(k) => Ok(Get { key: k }),
            Err(se) => Err(CommandError::InvalidArgument(stringify_bytes(se))),
        }
    }
}

impl SetCmd {
    pub fn try_from(value: RespArray) -> (r: Result<SetCmd, CommandError>)
        ensures
            match r {
                Ok(c) => spec_parse_set(value@) == Ok::<CommandView, CmdErrView>(
                    CommandView::SetCmd { key: c.key@, value: c.value@ },
                ),
                Err(e) => spec_parse_set(value@) == Err::<CommandView, CmdErrView>(e@),
            },
    {
        let verb = msg::verb_set_bytes();
        let mut args = match get_args(value, verb.as_slice(), 2) {
            Ok(a) => a,
            Err(e) => {
                return Err(e);
            },
        };
        proof {
            lemma_frames_view_len(args@);
        }
        match args[0].try_to_string() {
            Ok(k) => {
                let ghost av = args@;
                let v = args.remove(1);
                proof {
                    assert(frame_view(v) == frames_view(av)[1]);
                }
                Ok(SetCmd { key: k, value: v })
            },
            Err(se) => Err(CommandError::InvalidArgument(stringify_bytes(se))),
        }
    }
}

impl HGet {
    pub fn try_from(value: RespArray) -> (r: Result<HGet, CommandError>)
        ensures
            match r {
                Ok(c) => spec_parse_hget(value@) == Ok::<CommandView, CmdErrView>(
                    CommandView::HGet { key: c.key@, field: c.field@ },
                ),
                Err(e) => spec_parse_hget(value@) == Err::<CommandView, CmdErrView>(e@),
            },
    {
        let verb = msg::verb_hget_bytes();
        let args = match get_args(value, verb.as_slice(), 2) {
            Ok(a) => a,
            Err(e) => {
                return Err(e);
            },
        };
        proof {
            lemma_frames_view_len(args@);
        }
        let k = match args[0].try_to_string() {
            Ok(k) => k,
            Err(se) => {
                return Err(CommandError::InvalidArgument(stringify_bytes(se)));
            },
        };
        match args[1].try_to_string() {
            Ok(f) => Ok(HGet { key: k, field: f }),
            Err(se) => Err(CommandError::InvalidArgument(stringify_bytes(se))),
        }
    }
}

impl HSet {
    pub fn try_from(value: RespArray) -> (r: Result<HSet, CommandError>)
        ensures
            match r {
                Ok(c) => spec_parse_hset(value@) == Ok::<CommandView, CmdErrView>(
                    CommandView::HSet { key: c.key@, field: c.field@, value: c.value@ },
                ),
                Err(e) => spec_parse_hset(value@) == Err::<CommandView, CmdErrView>(e@),
            },
    {
        let verb = msg::verb_hset_bytes();
        let mut args = match get_args(value, verb.as_slice(), 3) {
            Ok(a) => a,
            Err(e) => {
                return Err(e);
            },
        };
        proof {
            lemma_frames_view_len(args@);
        }
        let k = match args[0].try_to_string() {
            Ok(k) => k,
            Err(se) => {
                return Err(CommandError::InvalidArgument(stringify_bytes(se)));
            },
        };
        match args[1].try_to_string() {
            Ok(f) => {
                let ghost av = args@;
                let v = args.remove(2);
                proof {
                    assert(frame_view(v) == frames_view(av)[2]);
                }
                Ok(HSet { key: k, field: f, value: v })
            },
            Err(se) => Err(CommandError::InvalidArgument(stringify_bytes(se))),
        }
    }
}

impl HMGet {
    pub fn try_from(value: RespArray) -> (r: Result<HMGet, CommandError>)
        ensures
            match r {
                Ok(c) => spec_parse_hmget(value@) == Ok::<CommandView, CmdErrView>(
                    CommandView::HMGet { key: c.key@, fields: texts_view(c.fields@) },
                ),
                Err(e) => spec_parse_hmget(value@) == Err::<CommandView, CmdErrView>(e@),
            },
    {
        let verb = msg::verb_hmget_bytes();
        let args = match get_args_without_check(value, verb.as_slice()) {
            Ok(a) => a,
            Err(e) => {
                return Err(e);
            },
        };
        proof {
            lemma_frames_view_len(args@);
        }
        match parse_key_values_as_string(args) {
            Ok((key, fields)) => Ok(HMGet { key, fields }),
            Err(e) => Err(e),
        }
    }
}

impl SADD {
    pub fn try_from(value: RespArray) -> (r: Result<SADD, CommandError>)
        ensures
            match r {
                Ok(c) => spec_parse_sadd(value@) == Ok::<CommandView, CmdErrView>(
                    CommandView::SADD { key: c.key@, members: texts_view(c.members@) },
                ),
                Err(e) => spec_parse_sadd(value@) == Err::<CommandView, CmdErrView>(e@),
            },
    {
        let verb = msg::verb_sadd_bytes();
        let args = match get_args_without_check(value, verb.as_slice()) {
            Ok(a) => a,
            Err(e) => {
                return Err(e);
            },
        };
        proof {
            lemma_frames_view_len(args@);
        }
        match parse_key_values_as_string(args) {
            Ok((key, members)) => Ok(SADD { key, members }),
            Err(e) => Err(e),
        }
    }
}

impl SISMEBER {
    pub fn try_from(value: RespArray) -> (r: Result<SISMEBER, CommandError>)
        ensures
            match r {
                Ok(c) => spec_parse_sismember(value@) == Ok::<CommandView, CmdErrView>(
                    CommandView::SISMEBER { key: c.key@, member: c.member@ },
                ),
                Err(e) => spec_parse_sismember(value@) == Err::<CommandView, CmdErrView>(e@),
            },
    {
        let verb = msg::verb_sismember_bytes();
        let args = match get_args(value, verb.as_slice(), 2) {
            Ok(a) => a,
            Err(e) => {
                return Err(e);
            },
        };
        proof {
            lemma_frames_view_len(args@);
        }
        let k = match args[0].try_to_string() {
            Ok(k) => k,
            Err(se) => {
                return Err(CommandError::InvalidArgument(stringify_bytes(se)));
            },
        };
        match args[1].try_to_string() {
            Ok(m) => Ok(SISMEBER { key: k, member: m }),
            Err(se) => Err(CommandError::InvalidArgument(stringify_bytes(se))),
        }
    }
}

impl Echo {
    pub fn try_from(value: RespArray) -> (r: Result<Echo, CommandError>)
        ensures
            match r {
                Ok(c) => spec_parse_echo(value@) == Ok::<CommandView, CmdErrView>(
                    CommandView::Echo { value: c.value@ },
                ),
                Err(e) => spec_parse_echo(value@) == Err::<CommandView, CmdErrView>(e@),
            },
    {
        let verb = msg::verb_echo_bytes();
        let mut args = match get_args(value, verb.as_slice(), 1) {
            Ok(a) => a,
            Err(e) => {
                return Err(e);
            },
        };
        proof {
            lemma_frames_view_len(args@);
        }
        let ghost av = args@;
        let v = args.remove(0);
        proof {
            assert(frame_view(v) == frames_view(av)[0]);
        }
        Ok(Echo { value: v })
    }
}

impl Command {
    /// Parse a command out of an array frame.
    pub fn try_from_array(array: RespArray) -> (r: Result<Command, CommandError>)
        ensures
            match r {
                Ok(c) => spec_parse_command(FrameView::Array(array@)) == Ok::<
                    CommandView,
                    CmdErrView,
                >(c@),
                Err(e) => spec_parse_command(FrameView::Array(array@)) == Err::<
                    CommandView,
                    CmdErrView,
                >(e@),
            },
    {
        let is_null = array.0.is_none();
        if is_null {
            return Err(CommandError::InvalidCommand(msg::empty_command_upper_bytes()));
        }
        let (len_zero, verb) = match &array.0 {
            Some(v) => {
                proof {
                    lemma_frames_view_len(v@);
                }
                if v.len() == 0 {
                    (true, Vec::new())
                } else {
                    match (&v[0]).try_to_string() {
                        Ok(t) => (false, to_lower(t.as_slice())),
                        Err(_) => (false, Vec::new()),
                    }
                }
            },
            None => (true, Vec::new()),
        };
        if len_zero {
            return Err(CommandError::InvalidCommand(msg::empty_command_lower_bytes()));
        }
        if crate::frame::bytes_eq(verb.as_slice(), msg::verb_get_bytes().as_slice()) {
            match Get::try_from(array) {
                Ok(c) => Ok(Command::Get(c)),
                Err(e) => Err(e),
            }
        } else if crate::frame::bytes_eq(verb.as_slice(), msg::verb_set_bytes().as_slice()) {
            match SetCmd::try_from(array) {
                Ok(c) => Ok(Command::SetCmd(c)),
                Err(e) => Err(e),
            }
        } else if crate::frame::bytes_eq(verb.as_slice(), msg::verb_hset_bytes().as_slice()) {
            match HSet::try_from(array) {
                Ok(c) => Ok(Command::HSet(c)),
                Err(e) => Err(e),
            }
        } else if crate::frame::bytes_eq(verb.as_slice(), msg::verb_hget_bytes().as_slice()) {
            match HGet::try_from(array) {
                Ok(c) => Ok(Command::HGet(c)),
                Err(e) => Err(e),
            }
        } else if crate::frame::bytes_eq(verb.as_slice(), msg::verb_echo_bytes().as_slice()) {
            match Echo::try_from(array) {
                Ok(c) => Ok(Command::Echo(c)),
                Err(e) => Err(e),
            }
        } else if crate::frame::bytes_eq(verb.as_slice(), msg::verb_hmget_bytes().as_slice()) {
            match HMGet::try_from(array) {
                Ok(c) => Ok(Command::HMGet(c)),
                Err(e) => Err(e),
            }
        } else if crate::frame::bytes_eq(verb.as_slice(), msg::verb_sadd_bytes().as_slice()) {
            match SADD::try_from(array) {
                Ok(c) => Ok(Command::SADD(c)),
                Err(e) => Err(e),
            }
        } else if crate::frame::bytes_eq(verb.as_slice(), msg::verb_sismember_bytes().as_slice()) {
            match SISMEBER::try_from(array) {
                Ok(c) => Ok(Command::SISMEBER(c)),
                Err(e) => Err(e),
            }
        } else {
            Ok(Command::Unrecognized(Unrecognized))
        }
    }

    /// Parse a command out of a request frame; only arrays qualify.
    pub fn try_from(frame: RespFrame) -> (r: Result<Command, CommandError>)
        ensures
            match r {
                Ok(c) => spec_parse_command(frame@) == Ok::<CommandView, CmdErrView>(c@),
                Err(e) => spec_parse_command(frame@) == Err::<CommandView, CmdErrView>(e@),
            },
    {
        match frame {
            RespFrame::Array(a) => Command::try_from_array(a),
            _ => Err(CommandError::InvalidCommand(msg::invalid_command_bytes())),
        }
    }
}

/// The canonical success reply.
pub open spec fn ok_frame() -> FrameView {
    FrameView::SimpleString(msg::ok_text_text())
}

/// What a read of `key` answers: the value, or the null frame.
pub open spec fn kv_lookup(st: StoreView, key: Seq<u8>) -> FrameView {
    if st.kv.dom().contains(key) {
        st.kv[key]
    } else {
        FrameView::Null
    }
}

/// What a read of `field` in the hash under `key` answers.
pub open spec fn hash_lookup(st: StoreView, key: Seq<u8>, field: Seq<u8>) -> FrameView {
    if st.hashes.dom().contains(key) && st.hashes[key].dom().contains(field) {
        st.hashes[key][field]
    } else {
        FrameView::Null
    }
}

/// Members put one by one into a set, counting only the newly added.
pub open spec fn sadd_steps(s: Set<Seq<u8>>, ms: Seq<Seq<u8>>) -> (Set<Seq<u8>>, int)
    decreases ms.len(),
{
    if ms.len() == 0 {
        (s, 0)
    } else {
        let first: int = if s.contains(ms[0]) {
            0
        } else {
            1
        };
        let rest = sadd_steps(s.insert(ms[0]), ms.skip(1));
        (rest.0, first + rest.1)
    }
}

/// The set under `key`, or the empty set before its first member.
pub open spec fn set_of(st: StoreView, key: Seq<u8>) -> Set<Seq<u8>> {
    if st.sets.dom().contains(key) {
        st.sets[key]
    } else {
        Set::empty()
    }
}

/// What one command does: the key-space afterwards, and the reply.
pub open spec fn apply_command(c: CommandView, st: StoreView) -> (StoreView, FrameView) {
    match c {
        CommandView::Get { key } => (st, kv_lookup(st, key)),
        CommandView::SetCmd { key, value } => (
            StoreView { kv: st.kv.insert(key, value), ..st },
            ok_frame(),
        ),
        CommandView::HGet { key, field } => (st, hash_lookup(st, key, field)),
        CommandView::HSet { key, field, value } => (
            StoreView {
                hashes: st.hashes.insert(
                    key,
                    (if st.hashes.dom().contains(key) {
                        st.hashes[key]
                    } else {
                        Map::empty()
                    }).insert(field, value),
                ),
                ..st
            },
            ok_frame(),
        ),
        CommandView::HMGet { key, fields } => (
            st,
            FrameView::Array(
                Some(Seq::new(fields.len(), |i: int| hash_lookup(st, key, fields[i]))),
            ),
        ),
        CommandView::SADD { key, members } => {
            if members.len() == 0 {
                (st, FrameView::Integer(0))
            } else {
                let stepped = sadd_steps(set_of(st, key), members);
                (
                    StoreView { sets: st.sets.insert(key, stepped.0), ..st },
                    FrameView::Integer(stepped.1 as i64 as int),
                )
            }
        },
        CommandView::SISMEBER { key, member } => (
            st,
            FrameView::Integer(
                if set_of(st, key).contains(member) {
                    1
                } else {
                    0
                },
            ),
        ),
        CommandView::Echo { value } => (st, value),
        CommandView::Unrecognized => (st, ok_frame()),
    }
}

/// The canonical `OK` frame.
fn resp_ok() -> (r: RespFrame)
    ensures
        r@ == ok_frame(),
{
    RespFrame::SimpleString(SimpleString(msg::ok_text_bytes()))
}

impl Get {
    pub fn execute(&self, backend: &mut Backend) -> (r: RespFrame)
        ensures
            final (backend)@ == old(backend)@,
            r@ == kv_lookup(old(backend)@, self.key@),
    {
        match backend.get(self.key.as_slice()) {
            Some(f) => f,
            None => RespFrame::Null(crate::frame::RespNull),
        }
    }
}

impl SetCmd {
    pub fn execute(self, backend: &mut Backend) -> (r: RespFrame)
        ensures
            final (backend)@ == apply_command(
                CommandView::SetCmd { key: self.key@, value: self.value@ },
                old(backend)@,
            ).0,
            r@ == ok_frame(),
    {
        let SetCmd { key, value } = self;
        backend.set(key, value);
        resp_ok()
    }
}

impl HGet {
    pub fn execute(&self, backend: &mut Backend) -> (r: RespFrame)
        ensures
            final (backend)@ == old(backend)@,
            r@ == hash_lookup(old(backend)@, self.key@, self.field@),
    {
        match backend.hget(self.key.as_slice(), self.field.as_slice()) {
            Some(f) => f,
            None => RespFrame::Null(crate::frame::RespNull),
        }
    }
}

impl HSet {
    pub fn execute(self, backend: &mut Backend) -> (r: RespFrame)
        ensures
            final (backend)@ == apply_command(
                CommandView::HSet { key: self.key@, field: self.field@, value: self.value@ },
                old(backend)@,
            ).0,
            r@ == ok_frame(),
    {
        let HSet { key, field, value } = self;
        backend.hset(key, field, value);
        resp_ok()
    }
}

impl HMGet {
    /// The reply is an array of exactly one answer per requested field,
    /// in the fields' order, with the null frame where one is missing.
    pub fn execute(&self, backend: &mut Backend) -> (r: RespFrame)
        ensures
            final (backend)@ == old(backend)@,
            r@ == apply_command(
                CommandView::HMGet { key: self.key@, fields: texts_view(self.fields@) },
                old(backend)@,
            ).1,
    {
        let ghost fs = texts_view(self.fields@);
        let ghost want = Seq::new(fs.len(), |i: int| hash_lookup(backend@, self.key@, fs[i]));
        let mut res: Vec<RespFrame> = Vec::new();
        let n = self.fields.len();
        let mut i: usize = 0;
        proof {
            lemma_frames_view_len(res@);
        }
        while i < n
            invariant
                i <= n,
                n == self.fields@.len(),
                *backend == *old(backend),
                fs == texts_view(self.fields@),
                want == Seq::new(fs.len(), |j: int| hash_lookup(backend@, self.key@, fs[j])),
                frames_view(res@) =~= want.take(i as int),
            decreases n - i,
        {
            let one = match backend.hget(self.key.as_slice(), self.fields[i].as_slice()) {
                Some(f) => f,
                None => RespFrame::Null(crate::frame::RespNull),
            };
            proof {
                crate::frame::lemma_frames_view_push(res@, one);
                assert(frames_view(res@).push(frame_view(one)) =~= want.take(i + 1));
            }
            res.push(one);
            i = i + 1;
        }
        proof {
            assert(want.take(n as int) =~= want);
        }
        RespFrame::Array(RespArray(Some(res)))
    }
}

impl SADD {
    /// The reply counts only the members newly added.
    pub fn execute(&self, backend: &mut Backend) -> (r: RespFrame)
        ensures
            final (backend)@ == apply_command(
                CommandView::SADD { key: self.key@, members: texts_view(self.members@) },
                old(backend)@,
            ).0,
            r@ == apply_command(
                CommandView::SADD { key: self.key@, members: texts_view(self.members@) },
                old(backend)@,
            ).1,
    {
        let ghost ms = texts_view(self.members@);
        let ghost s0 = set_of(old(backend)@, self.key@);
        let n = self.members.len();
        if n == 0 {
            return RespFrame::Integer(0);
        }
        let mut count: u64 = 0;
        let mut i: usize = 0;
        proof {
            assert(ms.skip(0) =~= ms);
        }
        while i < n
            invariant
                0 < n == self.members@.len(),
                i <= n,
                ms == texts_view(self.members@),
                count <= i,
                backend@.kv == old(backend)@.kv,
                backend@.hashes == old(backend)@.hashes,
                sadd_steps(s0, ms) == (
                    sadd_steps(set_of(backend@, self.key@), ms.skip(i as int)).0,
                    count + sadd_steps(set_of(backend@, self.key@), ms.skip(i as int)).1,
                ),
                backend@.sets == (if i == 0 {
                    old(backend)@.sets
                } else {
                    old(backend)@.sets.insert(self.key@, set_of(backend@, self.key@))
                }),
            decreases n - i,
        {
            let ghost st_before = backend@;
            let ghost cur = set_of(st_before, self.key@);
            let member = crate::frame::copy_bytes(&self.members[i]);
            let key = crate::frame::copy_bytes(&self.key);
            let added = backend.sadd(key, member);
            proof {
                assert(ms.skip(i as int)[0] == ms[i as int]);
                assert(ms.skip(i as int).skip(1) =~= ms.skip(i + 1));
                assert(set_of(backend@, self.key@) == cur.insert(ms[i as int]));
                if i > 0 {
                    assert(backend@.sets =~= old(backend)@.sets.insert(
                        self.key@,
                        set_of(backend@, self.key@),
                    ));
                }
            }
            if added {
                count = count + 1;
            }
            i = i + 1;
        }
        proof {
            assert(ms.skip(n as int).len() == 0);
            assert(sadd_steps(set_of(backend@, self.key@), ms.skip(n as int)) == (
                set_of(backend@, self.key@),
                0int,
            ));
        }
        RespFrame::Integer(count as i64)
    }
}

impl SISMEBER {
    pub fn execute(&self, backend: &mut Backend) -> (r: RespFrame)
        ensures
            final (backend)@ == old(backend)@,
            r@ == FrameView::Integer(
                if set_of(old(backend)@, self.key@).contains(self.member@) {
                    1int
                } else {
                    0int
                },
            ),
    {
        if backend.sismember(self.key.as_slice(), self.member.as_slice()) {
            RespFrame::Integer(1)
        } else {
            RespFrame::Integer(0)
        }
    }
}

impl Echo {
    pub fn execute(self, backend: &mut Backend) -> (r: RespFrame)
        ensures
            final (backend)@ == old(backend)@,
            r@ == self.value@,
    {
        self.value
    }
}

impl Unrecognized {
    /// An unknown verb still answers `OK`, to stay alive under probes.
    pub fn execute(&self, backend: &mut Backend) -> (r: RespFrame)
        ensures
            final (backend)@ == old(backend)@,
            r@ == ok_frame(),
    {
        resp_ok()
    }
}

impl Command {
    /// Run this command against the backend; see `apply_command`.
    pub fn execute(self, backend: &mut Backend) -> (r: RespFrame)
        ensures
            final (backend)@ == apply_command(self@, old(backend)@).0,
            r@ == apply_command(self@, old(backend)@).1,
    {
        match self {
            Command::Get(c) => {
                let r = c.execute(backend);
                proof {
                    assert(backend@ =~= old(backend)@) by {
                        assert(backend@.kv == old(backend)@.kv);
                        assert(backend@.hashes == old(backend)@.hashes);
                        assert(backend@.sets == old(backend)@.sets);
                    }
                }
                r
            },
            Command::SetCmd(c) => c.execute(backend),
            Command::HGet(c) => c.execute(backend),
            Command::HSet(c) => c.execute(backend),
            Command::HMGet(c) => c.execute(backend),
            Command::SADD(c) => c.execute(backend),
            Command::SISMEBER(c) => c.execute(backend),
            Command::Echo(c) => c.execute(backend),
            Command::Unrecognized(c) => c.execute(backend),
        }
    }
}

/// A command failure, said in words.
pub open spec fn cmd_err_text(e: CmdErrView) -> Seq<u8> {
    match e {
        CmdErrView::NotEqualCommand => msg::not_equal_command_text(),
        CmdErrView::UnexpectedError => msg::unexpected_error_text(),
        CmdErrView::InvalidCommand(m) => msg::invalid_command_prefix_text() + m,
        CmdErrView::InvalidArgument(m) => msg::invalid_type_prefix_text() + m,
    }
}

impl CommandError {
    /// This failure, said in words.
    pub fn message(&self) -> (r: Vec<u8>)
        ensures
            r@ == cmd_err_text(self@),
    {
        match self {
            CommandError::NotEqualCommand => msg::not_equal_command_bytes(),
            CommandError::UnexpectedError => msg::unexpected_error_bytes(),
            CommandError::InvalidCommand(m) => {
                let mut out = msg::invalid_command_prefix_bytes();
                crate::frame::append_to(&mut out, m.as_slice());
                out
            },
            CommandError::InvalidArgument(m) => {
                let mut out = msg::invalid_type_prefix_bytes();
                crate::frame::append_to(&mut out, m.as_slice());
                out
            },
        }
    }
}

/// What one request leaves behind and answers: a command is applied; a
/// request that parses to no command leaves the key-space alone and is
/// answered with an error frame carrying the failure in words.
pub open spec fn handle_request(req: FrameView, st: StoreView) -> (StoreView, FrameView) {
    match spec_parse_command(req) {
        Ok(c) => apply_command(c, st),
        Err(e) => (st, FrameView::Error(msg::command_err_prefix_text() + cmd_err_text(e))),
    }
}

impl Backend {
    /// Answer one request: parse it, run it, reply; a parse failure is
    /// answered, never dropped, so the connection stays alive.
    pub fn handle(&mut self, req: RespFrame) -> (r: RespFrame)
        ensures
            final (self)@ == handle_request(req@, old(self)@).0,
            r@ == handle_request(req@, old(self)@).1,
    {
        match Command::try_from(req) {
            Ok(c) => c.execute(self),
            Err(e) => {
                let mut m = msg::command_err_prefix_bytes();
                let tail = e.message();
                crate::frame::append_to(&mut m, tail.as_slice());
                RespFrame::Error(crate::frame::SimpleError(m))
            },
        }
    }
}

} // verus!
