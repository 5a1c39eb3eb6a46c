//! The request protocol: the commands, how they travel as frames with a
//! length in front, and how a stream of bytes is read back into commands.

use crate::device::{Device, DeviceId, DeviceInstance, DeviceState, DeviceTree};
use crate::error::Win32Error;
use crate::forest::forest_find;
use crate::render::forest_text;
use crate::text::{chars_of, text_from_utf8_lossy, text_of, utf8_lossy};
use crate::topology::{DeviceTracker, StateChange};
use vstd::prelude::*;
use vstd::utf8::encode_utf8;

verus! {

/// Opcode of the request for the list of devices.
pub const OP_GET_DEVICE_LIST: u8 = 2;

/// Opcode of the request to disable a device.
pub const OP_DISABLE_DEVICE: u8 = 3;

/// Opcode of the request to enable a device.
pub const OP_ENABLE_DEVICE: u8 = 4;

/// Opcode of the request for the connection log.
pub const OP_GET_DEVICE_CONNECTION_LOGS: u8 = 5;

/// A request that a client can make.
#[derive(Debug)]
pub enum IoApiCommand {
    /// List the devices of the topology.
    GetDeviceList,
    /// Disable the device of this identity.
    DisableDevice(DeviceId),
    /// Enable the device of this identity.
    EnableDevice(DeviceId),
    /// Hand out the log of arrivals and removals.
    GetDeviceConnectionLogs,
}

/// A request as the contracts see it.
pub enum CommandView {
    GetDeviceList,
    DisableDevice(Seq<char>),
    EnableDevice(Seq<char>),
    GetDeviceConnectionLogs,
}

impl View for IoApiCommand {
    type V = CommandView;

    open spec fn view(&self) -> CommandView {
        match self {
            IoApiCommand::GetDeviceList => CommandView::GetDeviceList,
            IoApiCommand::DisableDevice(id) => CommandView::DisableDevice(id@),
            IoApiCommand::EnableDevice(id) => CommandView::EnableDevice(id@),
            IoApiCommand::GetDeviceConnectionLogs => CommandView::GetDeviceConnectionLogs,
        }
    }
}

/// The view of an optional command.
pub open spec fn opt_command_view(c: Option<IoApiCommand>) -> Option<CommandView> {
    match c {
        Some(c) => Some(c@),
        None => None,
    }
}

/// The opcode of a request.
pub open spec fn command_code(c: CommandView) -> u8 {
    match c {
        CommandView::GetDeviceList => OP_GET_DEVICE_LIST,
        CommandView::DisableDevice(_) => OP_DISABLE_DEVICE,
        CommandView::EnableDevice(_) => OP_ENABLE_DEVICE,
        CommandView::GetDeviceConnectionLogs => OP_GET_DEVICE_CONNECTION_LOGS,
    }
}

/// The first token of a text: its characters up to the first space.
pub open spec fn token_of(text: Seq<char>) -> Seq<char>
    decreases text.len(),
{
    if text.len() == 0 || text[0] == ' ' {
        Seq::empty()
    } else {
        seq![text[0]] + token_of(text.drop_first())
    }
}

/// The request that an opcode and an argument text make: none for an
/// opcode that is not known, and none where a request that names a device
/// comes without a first token.
pub open spec fn command_of(code: u8, text: Seq<char>) -> Option<CommandView> {
    if code == OP_GET_DEVICE_LIST {
        Some(CommandView::GetDeviceList)
    } else if code == OP_GET_DEVICE_CONNECTION_LOGS {
        Some(CommandView::GetDeviceConnectionLogs)
    } else if code == OP_DISABLE_DEVICE || code == OP_ENABLE_DEVICE {
        if token_of(text).len() == 0 {
            None
        } else if code == OP_DISABLE_DEVICE {
            Some(CommandView::DisableDevice(token_of(text)))
        } else {
            Some(CommandView::EnableDevice(token_of(text)))
        }
    } else {
        None
    }
}

/// The request that the body of a frame holds: its first byte is the
/// opcode, the rest the argument text. None for an empty body.
pub open spec fn parsed_body(body: Seq<u8>) -> Option<CommandView> {
    if body.len() == 0 {
        None
    } else {
        command_of(body[0], utf8_lossy(body.skip(1)))
    }
}

/// The first token of a text.
pub fn first_token(text: &str) -> (r: String)
    ensures
        r@ == token_of(text@),
{
    let chars = chars_of(text);
    let mut token: Vec<char> = Vec::new();
    let n = chars.len();
    let mut i: usize = 0;
    proof {
        assert(chars@.skip(0) =~= chars@);
        assert(token@ + token_of(chars@) =~= token_of(chars@));
    }
    while i < n && chars[i] != ' '
        invariant
            i <= n,
            n == chars.len(),
            chars@ == text@,
            token@ + token_of(chars@.skip(i as int)) == token_of(chars@),
        decreases n - i,
    {
        let ghost before = token@;
        let ghost rest = chars@.skip(i as int);
        token.push(chars[i]);
        proof {
            assert(rest[0] == chars@[i as int]);
            assert(rest.drop_first() =~= chars@.skip(i as int + 1));
            assert(token@ + token_of(chars@.skip(i as int + 1)) =~= before + (seq![rest[0]]
                + token_of(rest.drop_first())));
        }
        i += 1;
    }
    proof {
        let rest = chars@.skip(i as int);
        if i < n {
            assert(rest[0] == chars@[i as int]);
        }
        assert(token_of(rest) =~= Seq::<char>::empty());
        assert(token@ + token_of(rest) =~= token@);
    }
    text_of(&token)
}

impl IoApiCommand {
    /// The opcode of the request.
    pub fn cmd_code(&self) -> (code: u8)
        ensures
            code == command_code(self@),
    {
        match self {
            IoApiCommand::GetDeviceList => OP_GET_DEVICE_LIST,
            IoApiCommand::GetDeviceConnectionLogs => OP_GET_DEVICE_CONNECTION_LOGS,
            IoApiCommand::DisableDevice(_) => OP_DISABLE_DEVICE,
            IoApiCommand::EnableDevice(_) => OP_ENABLE_DEVICE,
        }
    }
}

/// The request that an opcode and an argument text make. Of the argument
/// only the first token counts.
pub fn command_from_text(code: u8, text: &str) -> (r: Option<IoApiCommand>)
    ensures
        opt_command_view(r) == command_of(code, text@),
{
    if code == OP_GET_DEVICE_LIST {
        Some(IoApiCommand::GetDeviceList)
    } else if code == OP_GET_DEVICE_CONNECTION_LOGS {
        Some(IoApiCommand::GetDeviceConnectionLogs)
    } else if code == OP_DISABLE_DEVICE || code == OP_ENABLE_DEVICE {
        let token = first_token(text);
        if token.as_str().is_empty() {
            None
        } else if code == OP_DISABLE_DEVICE {
            Some(IoApiCommand::DisableDevice(DeviceId(token)))
        } else {
            Some(IoApiCommand::EnableDevice(DeviceId(token)))
        }
    } else {
        None
    }
}

/// Reads the body of a frame as a request. A body that holds none is
/// answered with `None`: the caller skips it.
pub fn parse_cmd_message(body: &[u8]) -> (r: Option<IoApiCommand>)
    ensures
        opt_command_view(r) == parsed_body(body@),
{
    if body.len() == 0 {
        return None;
    }
    let code = body[0];
    let text = text_from_utf8_lossy(vstd::slice::slice_subrange(body, 1, body.len()));
    proof {
        assert(body@.subrange(1, body@.len() as int) =~= body@.skip(1));
    }
    command_from_text(code, text.as_str())
}

/// The four bytes of a length, the highest first.
pub open spec fn be_bytes4(n: nat) -> Seq<u8> {
    seq![
        (n / 0x100_0000 % 256) as u8,
        (n / 0x1_0000 % 256) as u8,
        (n / 0x100 % 256) as u8,
        (n % 256) as u8,
    ]
}

/// The length that four bytes spell, the highest first.
pub open spec fn be_value4(b: Seq<u8>) -> nat {
    (b[0] as nat) * 0x100_0000 + (b[1] as nat) * 0x1_0000 + (b[2] as nat) * 0x100 + b[3] as nat
}

/// A frame: the length of `bytes` in four bytes, the highest first, then
/// `bytes`.
pub open spec fn payload(bytes: Seq<u8>) -> Seq<u8> {
    be_bytes4(bytes.len()) + bytes
}

/// A length that fits into four bytes is read back from them.
pub proof fn lemma_be_round_trip(n: nat)
    requires
        n <= u32::MAX,
    ensures
        be_value4(be_bytes4(n)) == n,
{
}

/// Wraps bytes into a frame: their length in four bytes, the highest
/// first, then the bytes.
pub fn convert_bytes_to_payload(bytes: &[u8]) -> (out: Vec<u8>)
    requires
        bytes.len() <= u32::MAX,
    ensures
        out@ == payload(bytes@),
{
    let len = bytes.len();
    let mut out: Vec<u8> = Vec::new();
    out.push((len / 0x100_0000 % 256) as u8);
    out.push((len / 0x1_0000 % 256) as u8);
    out.push((len / 0x100 % 256) as u8);
    out.push((len % 256) as u8);
    let ghost head = out@;
    let mut i: usize = 0;
    while i < len
        invariant
            i <= len,
            len == bytes.len(),
            out@ == head + bytes@.take(i as int),
        decreases len - i,
    {
        out.push(bytes[i]);
        proof {
            assert(bytes@.take(i as int + 1) =~= bytes@.take(i as int).push(bytes@[i as int]));
        }
        i += 1;
    }
    proof {
        assert(bytes@.take(len as int) =~= bytes@);
        assert(head =~= be_bytes4(len as nat));
    }
    out
}

/// The body of the frame that carries a request: the opcode, then the
/// UTF-8 text of the identity where the request names a device.
pub open spec fn request_body(c: CommandView) -> Seq<u8> {
    match c {
        CommandView::GetDeviceList => seq![OP_GET_DEVICE_LIST],
        CommandView::GetDeviceConnectionLogs => seq![OP_GET_DEVICE_CONNECTION_LOGS],
        CommandView::DisableDevice(id) => seq![OP_DISABLE_DEVICE] + encode_utf8(id),
        CommandView::EnableDevice(id) => seq![OP_ENABLE_DEVICE] + encode_utf8(id),
    }
}

/// A request in the form in which it travels.
#[derive(Debug)]
pub struct IoApiRequest(pub Vec<u8>);

impl View for IoApiRequest {
    type V = Seq<u8>;

    open spec fn view(&self) -> Seq<u8> {
        self.0@
    }
}

impl IoApiRequest {
    /// The frame that carries the request `value`.
    pub fn from_command(value: IoApiCommand) -> (r: IoApiRequest)
        requires
            request_body(value@).len() <= u32::MAX,
        ensures
            r@ == payload(request_body(value@)),
    {
        let mut body: Vec<u8> = Vec::new();
        body.push(value.cmd_code());
        match &value {
            IoApiCommand::GetDeviceList => {},
            IoApiCommand::GetDeviceConnectionLogs => {},
            IoApiCommand::DisableDevice(id) => {
                append_bytes(&mut body, id.as_str().as_bytes());
            },
            IoApiCommand::EnableDevice(id) => {
                append_bytes(&mut body, id.as_str().as_bytes());
            },
        }
        IoApiRequest(convert_bytes_to_payload(body.as_slice()))
    }

    /// The bytes of the frame.
    pub fn as_bytes(&self) -> (b: &[u8])
        ensures
            b@ == self@,
    {
        self.0.as_slice()
    }
}

/// Appends `tail` to `out`.
pub fn append_bytes(out: &mut Vec<u8>, tail: &[u8])
    ensures
        final(out)@ == old(out)@ + tail@,
{
    let ghost head = out@;
    let n = tail.len();
    let mut i: usize = 0;
    proof {
        assert(head + tail@.take(0) =~= head);
    }
    while i < n
        invariant
            i <= n,
            n == tail.len(),
            out@ == head + tail@.take(i as int),
        decreases n - i,
    {
        out.push(tail[i]);
        proof {
            assert(tail@.take(i as int + 1) =~= tail@.take(i as int).push(tail@[i as int]));
        }
        i += 1;
    }
    proof {
        assert(tail@.take(n as int) =~= tail@);
    }
}

/// The requests that a stream of bytes holds, in order. The stream is
/// read frame by frame; a body that holds no request is passed over; what
/// follows the last whole frame waits for more bytes.
pub open spec fn commands_in(stream: Seq<u8>) -> Seq<CommandView>
    decreases stream.len(),
{
    if stream.len() < 4 {
        Seq::empty()
    } else {
        let n = be_value4(stream.take(4)) as int;
        if stream.len() - 4 < n {
            Seq::empty()
        } else {
            match parsed_body(stream.subrange(4, 4 + n)) {
                Some(c) => seq![c] + commands_in(stream.skip(4 + n)),
                None => commands_in(stream.skip(4 + n)),
            }
        }
    }
}

/// What of a stream follows its last whole frame.
pub open spec fn leftover(stream: Seq<u8>) -> Seq<u8>
    decreases stream.len(),
{
    if stream.len() < 4 {
        stream
    } else {
        let n = be_value4(stream.take(4)) as int;
        if stream.len() - 4 < n {
            stream
        } else {
            leftover(stream.skip(4 + n))
        }
    }
}

/// How far a connection has come in reading its next frame.
#[derive(Debug, Clone, Copy, PartialEq, Eq, Structural)]
pub enum ReadState {
    /// The length in front of the frame is not whole yet.
    AwaitingPrefix,
    /// The length is there: the body of this many bytes is not whole yet.
    AwaitingBody(u32),
    /// A whole frame with a body of this many bytes waits.
    Ready(u32),
}

/// How far the bytes that a connection has received reach into the next
/// frame.
pub open spec fn read_state_of(received: Seq<u8>) -> ReadState {
    if received.len() < 4 {
        ReadState::AwaitingPrefix
    } else if received.len() - 4 < be_value4(received.take(4)) {
        ReadState::AwaitingBody(be_value4(received.take(4)) as u32)
    } else {
        ReadState::Ready(be_value4(received.take(4)) as u32)
    }
}

/// What is left over of a stream does not hold a whole frame.
pub proof fn lemma_leftover_waits(stream: Seq<u8>)
    ensures
        !(read_state_of(leftover(stream)) is Ready),
    decreases stream.len(),
{
    if stream.len() >= 4 {
        let n = be_value4(stream.take(4)) as int;
        if stream.len() - 4 >= n {
            lemma_leftover_waits(stream.skip(4 + n));
        }
    }
}

/// The views of a list of commands.
pub open spec fn commands_view(list: Seq<IoApiCommand>) -> Seq<CommandView> {
    Seq::new(list.len(), |i: int| list[i]@)
}

/// The length that the four bytes from `at` on spell.
fn read_frame_length(bytes: &Vec<u8>, at: usize) -> (n: u32)
    requires
        at + 4 <= bytes.len(),
    ensures
        n == be_value4(bytes@.skip(at as int).take(4)),
{
    let b0 = bytes[at] as u32;
    let b1 = bytes[at + 1] as u32;
    let b2 = bytes[at + 2] as u32;
    let b3 = bytes[at + 3] as u32;
    proof {
        let p = bytes@.skip(at as int).take(4);
        assert(p[0] == bytes@[at as int]);
        assert(p[1] == bytes@[at + 1]);
        assert(p[2] == bytes@[at + 2]);
        assert(p[3] == bytes@[at + 3]);
    }
    b0 * 0x100_0000 + b1 * 0x1_0000 + b2 * 0x100 + b3
}

/// Says how far the bytes that a connection has received reach into the
/// next frame.
pub fn read_state(received: &Vec<u8>) -> (state: ReadState)
    ensures
        state == read_state_of(received@),
{
    if received.len() < 4 {
        return ReadState::AwaitingPrefix;
    }
    let len = read_frame_length(received, 0);
    proof {
        assert(received@.skip(0) =~= received@);
    }
    if received.len() - 4 < len as usize {
        ReadState::AwaitingBody(len)
    } else {
        ReadState::Ready(len)
    }
}

/// Takes the whole frames off the front of what a connection has
/// received, and hands out their requests in order. A frame whose body
/// holds no request is dropped without a word; the bytes of a frame that
/// is not whole yet stay in `buffer`.
pub fn drain_commands(buffer: &mut Vec<u8>) -> (r: Vec<IoApiCommand>)
    ensures
        commands_view(r@) == commands_in(old(buffer)@),
        final(buffer)@ == leftover(old(buffer)@),
        !(read_state_of(final(buffer)@) is Ready),
{
    let ghost stream = buffer@;
    proof {
        lemma_leftover_waits(stream);
    }
    let mut out: Vec<IoApiCommand> = Vec::new();
    let n = buffer.len();
    let mut at: usize = 0;
    proof {
        assert(stream.skip(0) =~= stream);
        assert(commands_view(out@) + commands_in(stream) =~= commands_in(stream));
    }
    loop
        invariant
            at <= n,
            n == buffer.len(),
            buffer@ == stream,
            commands_view(out@) + commands_in(stream.skip(at as int)) == commands_in(stream),
            leftover(stream.skip(at as int)) == leftover(stream),
        ensures
            n - at < 4 || n - at - 4 < be_value4(stream.skip(at as int).take(4)),
        decreases n - at,
    {
        let ghost rest = stream.skip(at as int);
        let ghost before = commands_view(out@);
        if n - at < 4 {
            break ;
        }
        let len = read_frame_length(buffer, at) as usize;
        if n - at - 4 < len {
            break ;
        }
        let body = vstd::slice::slice_subrange(buffer.as_slice(), at + 4, at + 4 + len);
        proof {
            assert(rest.subrange(4, 4 + len as int) =~= body@);
            assert(rest.skip(4 + len as int) =~= stream.skip(at + 4 + len));
        }
        match parse_cmd_message(body) {
            Some(c) => {
                out.push(c);
                proof {
                    assert(commands_view(out@) =~= before.push(c@));
                    assert(commands_view(out@) + commands_in(stream.skip(at + 4 + len)) =~= before
                        + (seq![c@] + commands_in(rest.skip(4 + len as int))));
                }
            },
            None => {},
        }
        at = at + 4 + len;
    }
    proof {
        let rest = stream.skip(at as int);
        assert(commands_in(rest) =~= Seq::<CommandView>::empty());
        assert(commands_view(out@) + commands_in(rest) =~= commands_view(out@));
        assert(leftover(rest) == rest);
    }
    let mut tail: Vec<u8> = Vec::new();
    let mut i: usize = at;
    while i < n
        invariant
            at <= i <= n,
            n == buffer.len(),
            buffer@ == stream,
            tail@ == stream.subrange(at as int, i as int),
        decreases n - i,
    {
        tail.push(buffer[i]);
        proof {
            assert(stream.subrange(at as int, i as int + 1) =~= stream.subrange(
                at as int,
                i as int,
            ).push(stream[i as int]));
        }
        i += 1;
    }
    proof {
        assert(stream.subrange(at as int, n as int) =~= stream.skip(at as int));
    }
    *buffer = tail;
    out
}

/// A frame whose body holds no request is passed over: what follows it on
/// the connection is served as if the frame had not been sent.
pub proof fn lemma_malformed_skipped(body: Seq<u8>, rest: Seq<u8>)
    requires
        body.len() <= u32::MAX,
        parsed_body(body) is None,
    ensures
        commands_in(payload(body) + rest) == commands_in(rest),
        leftover(payload(body) + rest) == leftover(rest),
{
    lemma_frame_split(body, rest);
}

/// A frame whose body holds a request is served, and then what follows.
pub proof fn lemma_wellformed_served(body: Seq<u8>, rest: Seq<u8>)
    requires
        body.len() <= u32::MAX,
        parsed_body(body) is Some,
    ensures
        commands_in(payload(body) + rest) == seq![parsed_body(body)->0] + commands_in(rest),
        leftover(payload(body) + rest) == leftover(rest),
{
    lemma_frame_split(body, rest);
}

/// A stream that starts with a whole frame splits into its body and the rest.
pub proof fn lemma_frame_split(body: Seq<u8>, rest: Seq<u8>)
    requires
        body.len() <= u32::MAX,
    ensures
        ({
            let stream = payload(body) + rest;
            &&& stream.len() >= 4
            &&& be_value4(stream.take(4)) == body.len()
            &&& stream.subrange(4, 4 + body.len() as int) == body
            &&& stream.skip(4 + body.len() as int) == rest
        }),
{
    let stream = payload(body) + rest;
    lemma_be_round_trip(body.len());
    assert(stream.take(4) =~= be_bytes4(body.len()));
    assert(stream.subrange(4, 4 + body.len() as int) =~= body);
    assert(stream.skip(4 + body.len() as int) =~= rest);
}

/// The views of a list of arguments.
pub open spec fn args_view(args: Seq<String>) -> Seq<Seq<char>> {
    Seq::new(args.len(), |i: int| args[i]@)
}

/// The request that an opcode and a list of arguments make: a request
/// that names a device takes the first argument as the identity, and
/// there is none without a first argument.
pub open spec fn command_of_args(code: u8, args: Seq<Seq<char>>) -> Option<CommandView> {
    if code == OP_GET_DEVICE_LIST {
        Some(CommandView::GetDeviceList)
    } else if code == OP_GET_DEVICE_CONNECTION_LOGS {
        Some(CommandView::GetDeviceConnectionLogs)
    } else if code == OP_DISABLE_DEVICE && args.len() > 0 {
        Some(CommandView::DisableDevice(args[0]))
    } else if code == OP_ENABLE_DEVICE && args.len() > 0 {
        Some(CommandView::EnableDevice(args[0]))
    } else {
        None
    }
}

/// The request that the words of a command line make: `list`, `logs`,
/// and `disable` or `enable` followed by an identity.
pub open spec fn command_of_tokens(tokens: Seq<Seq<char>>) -> Option<CommandView> {
    if tokens.len() == 0 {
        None
    } else if tokens[0] == "list"@ {
        Some(CommandView::GetDeviceList)
    } else if tokens[0] == "disable"@ {
        if tokens.len() > 1 {
            Some(CommandView::DisableDevice(tokens[1]))
        } else {
            None
        }
    } else if tokens[0] == "enable"@ {
        if tokens.len() > 1 {
            Some(CommandView::EnableDevice(tokens[1]))
        } else {
            None
        }
    } else if tokens[0] == "logs"@ {
        Some(CommandView::GetDeviceConnectionLogs)
    } else {
        None
    }
}

/// The view of a command or its refusal.
pub open spec fn result_command_view(r: Result<IoApiCommand, ()>) -> Option<CommandView> {
    match r {
        Ok(c) => Some(c@),
        Err(_) => None,
    }
}

/// The views of a list of words.
pub open spec fn tokens_view(tokens: Seq<&str>) -> Seq<Seq<char>> {
    Seq::new(tokens.len(), |i: int| tokens[i]@)
}

/// Whether two texts hold the same characters.
pub fn same_text(a: &str, b: &str) -> (r: bool)
    ensures
        r == (a@ == b@),
{
    let x = String::from_str(a);
    let y = String::from_str(b);
    x == y
}

impl IoApiCommand {
    /// The request that an opcode and its arguments make.
    pub fn try_from(code: u8, args: Vec<String>) -> (r: Result<IoApiCommand, ()>)
        ensures
            result_command_view(r) == command_of_args(code, args_view(args@)),
    {
        if code == OP_GET_DEVICE_LIST {
            Ok(IoApiCommand::GetDeviceList)
        } else if code == OP_GET_DEVICE_CONNECTION_LOGS {
            Ok(IoApiCommand::GetDeviceConnectionLogs)
        } else if (code == OP_DISABLE_DEVICE || code == OP_ENABLE_DEVICE) && args.len() > 0 {
            let id = DeviceId(args[0].clone());
            if code == OP_DISABLE_DEVICE {
                Ok(IoApiCommand::DisableDevice(id))
            } else {
                Ok(IoApiCommand::EnableDevice(id))
            }
        } else {
            Err(())
        }
    }

    /// The request that the words of a command line make.
    pub fn try_from_tokens(cmd_tokens: &[&str]) -> (r: Result<IoApiCommand, ()>)
        ensures
            result_command_view(r) == command_of_tokens(tokens_view(cmd_tokens@)),
    {
        if cmd_tokens.len() == 0 {
            return Err(());
        }
        let word = cmd_tokens[0];
        if same_text(word, "list") {
            Ok(IoApiCommand::GetDeviceList)
        } else if same_text(word, "disable") {
            if cmd_tokens.len() > 1 {
                Ok(IoApiCommand::DisableDevice(DeviceId::new(cmd_tokens[1])))
            } else {
                Err(())
            }
        } else if same_text(word, "enable") {
            if cmd_tokens.len() > 1 {
                Ok(IoApiCommand::EnableDevice(DeviceId::new(cmd_tokens[1])))
            } else {
                Err(())
            }
        } else if same_text(word, "logs") {
            Ok(IoApiCommand::GetDeviceConnectionLogs)
        } else {
            Err(())
        }
    }
}

/// What the event loop does with a request.
#[derive(Debug)]
pub enum IoApiAction {
    /// Answer with this text.
    Respond(String),
    /// Ask the system to change the state of a device, and answer with
    /// what [`state_change_reply`] makes of the outcome.
    ChangeState(StateChange),
}

/// What the event loop does with a request, as the contracts see it.
pub enum ActionView {
    Respond(Seq<char>),
    ChangeState(StateChange),
}

impl View for IoApiAction {
    type V = ActionView;

    open spec fn view(&self) -> ActionView {
        match self {
            IoApiAction::Respond(text) => ActionView::Respond(text@),
            IoApiAction::ChangeState(change) => ActionView::ChangeState(*change),
        }
    }
}

/// The log lines, each followed by a line end.
pub open spec fn logs_text(logs: Seq<String>) -> Seq<char>
    decreases logs.len(),
{
    if logs.len() == 0 {
        Seq::empty()
    } else {
        logs[0]@ + seq!['\n'] + logs_text(logs.drop_first())
    }
}

/// The answer to a request to change a device's state, once the outcome
/// is known.
pub open spec fn state_reply_text(state: DeviceState, outcome: Result<(), Win32Error>) -> Seq<
    char,
> {
    match (state, outcome) {
        (DeviceState::Enable, Ok(_)) => "Device enabled."@,
        (DeviceState::Enable, Err(e)) => "Enabling device failed: "@ + e.message_text(),
        (DeviceState::Disable, Ok(_)) => "Device disabled."@,
        (DeviceState::Disable, Err(e)) => "Disabling device failed: "@ + e.message_text(),
    }
}

/// The action that a request asks for: the text of the topology, the
/// log, or a change of state for a device of the topology; for a device
/// that the topology does not hold, the answer that says so.
pub open spec fn action_of(
    c: CommandView,
    topology: Seq<DeviceTree>,
    logs: Seq<String>,
) -> ActionView {
    match c {
        CommandView::GetDeviceList => ActionView::Respond(forest_text(topology)),
        CommandView::GetDeviceConnectionLogs => ActionView::Respond(logs_text(logs)),
        CommandView::EnableDevice(id) => state_action(DeviceState::Enable, id, topology),
        CommandView::DisableDevice(id) => state_action(DeviceState::Disable, id, topology),
    }
}

/// The action for a request to change the state of the device `id`.
pub open spec fn state_action(
    state: DeviceState,
    id: Seq<char>,
    topology: Seq<DeviceTree>,
) -> ActionView {
    match forest_find(topology, id) {
        Some(t) => ActionView::ChangeState(
            StateChange { devinst: DeviceInstance(t.devinst), state: state },
        ),
        None => ActionView::Respond(
            state_reply_text(state, Err(Win32Error::DeviceNotExist)),
        ),
    }
}

/// Words the answer to a request to change a device's state.
pub fn state_change_reply(state: DeviceState, outcome: Result<(), Win32Error>) -> (s: String)
    ensures
        s@ == state_reply_text(state, outcome),
{
    match (state, outcome) {
        (DeviceState::Enable, Ok(_)) => String::from_str("Device enabled."),
        (DeviceState::Enable, Err(e)) => {
            let mut s = String::from_str("Enabling device failed: ");
            s.append(e.message().as_str());
            s
        },
        (DeviceState::Disable, Ok(_)) => String::from_str("Device disabled."),
        (DeviceState::Disable, Err(e)) => {
            let mut s = String::from_str("Disabling device failed: ");
            s.append(e.message().as_str());
            s
        },
    }
}

/// Joins the log lines, each followed by a line end.
pub fn join_logs(logs: &Vec<String>) -> (s: String)
    ensures
        s@ == logs_text(logs@),
{
    let mut s = String::new();
    let n = logs.len();
    let mut i: usize = 0;
    proof {
        assert(logs@.skip(0) =~= logs@);
        assert(s@ + logs_text(logs@) =~= logs_text(logs@));
    }
    while i < n
        invariant
            i <= n,
            n == logs.len(),
            s@ + logs_text(logs@.skip(i as int)) == logs_text(logs@),
        decreases n - i,
    {
        let ghost before = s@;
        let ghost rest = logs@.skip(i as int);
        s.append(logs[i].as_str());
        s.push('\n');
        proof {
            assert(rest[0] == logs@[i as int]);
            assert(rest.drop_first() =~= logs@.skip(i as int + 1));
            assert(s@ + logs_text(logs@.skip(i as int + 1)) =~= before + (rest[0]@ + seq!['\n']
                + logs_text(rest.drop_first())));
        }
        i += 1;
    }
    proof {
        assert(logs@.skip(n as int) =~= Seq::<String>::empty());
        assert(s@ + logs_text(logs@.skip(n as int)) =~= s@);
    }
    s
}

/// Decides what a request asks of the event loop, given the topology and
/// the log of arrivals and removals.
pub fn handle_ioapi_message(cmd: &IoApiCommand, tracker: &DeviceTracker, logs: &Vec<String>) -> (a:
    IoApiAction)
    ensures
        a@ == action_of(cmd@, tracker@, logs@),
{
    match cmd {
        IoApiCommand::GetDeviceList => IoApiAction::Respond(tracker.render()),
        IoApiCommand::GetDeviceConnectionLogs => IoApiAction::Respond(join_logs(logs)),
        IoApiCommand::EnableDevice(device_id) => {
            match tracker.set_device_state(device_id, DeviceState::Enable) {
                Ok(change) => IoApiAction::ChangeState(change),
                Err(e) => IoApiAction::Respond(state_change_reply(DeviceState::Enable, Err(e))),
            }
        },
        IoApiCommand::DisableDevice(device_id) => {
            match tracker.set_device_state(device_id, DeviceState::Disable) {
                Ok(change) => IoApiAction::ChangeState(change),
                Err(e) => IoApiAction::Respond(state_change_reply(DeviceState::Disable, Err(e))),
            }
        },
    }
}

/// The line that the log gets for a hotplug event.
pub open spec fn log_line(connected: bool, id: Seq<char>) -> Seq<char> {
    if connected {
        "USB Device connected: "@ + id
    } else {
        "USB Device disconnected: "@ + id
    }
}

/// Words the log line of an arrival or a removal of the device `id`.
pub fn connection_log(connected: bool, id: &DeviceId) -> (s: String)
    ensures
        s@ == log_line(connected, id@),
{
    let mut s = if connected {
        String::from_str("USB Device connected: ")
    } else {
        String::from_str("USB Device disconnected: ")
    };
    s.append(id.as_str());
    s
}

} // verus!
