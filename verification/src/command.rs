//! Built-in commands: their names, their numeric wire codes, the payload
//! format they share, and the ordered table they are resolved against.

use vstd::prelude::*;
use vstd::utf8::{decode_utf8, valid_utf8};

use crate::communicator::{
    read_rest, read_taken, same_connection, wait_from, ChannelError, Communicator,
};
use crate::text::{
    bytes_eq, copy_range, digits_value, parse_index, parse_ok, trim_bytes, trim_spec,
};

verus! {

/// The four numeric-coded requests a device understands.
#[derive(Clone, Copy, PartialEq, Eq, Structural, Debug)]
pub enum CommandKind {
    WriteDigital,
    WriteAnalog,
    ReadDigital,
    ReadAnalog,
}

/// The fixed numeric code that leads each command's payload.
pub open spec fn code_of(kind: CommandKind) -> u8 {
    match kind {
        CommandKind::WriteDigital => 3,
        CommandKind::WriteAnalog => 2,
        CommandKind::ReadDigital => 1,
        CommandKind::ReadAnalog => 0,
    }
}

/// Whether the command expects a reply, and so waits for one after writing.
pub open spec fn awaits_reply_of(kind: CommandKind) -> bool {
    kind == CommandKind::ReadDigital || kind == CommandKind::ReadAnalog
}

impl CommandKind {
    pub fn code(&self) -> (c: u8)
        ensures
            c == code_of(*self),
    {
        match self {
            CommandKind::WriteDigital => 3,
            CommandKind::WriteAnalog => 2,
            CommandKind::ReadDigital => 1,
            CommandKind::ReadAnalog => 0,
        }
    }

    pub fn awaits_reply(&self) -> (b: bool)
        ensures
            b == awaits_reply_of(*self),
    {
        match self {
            CommandKind::ReadDigital => true,
            CommandKind::ReadAnalog => true,
            _ => false,
        }
    }
}

/// The arguments joined for the wire: each argument followed by one space.
pub open spec fn joined_args(args: Seq<Seq<u8>>) -> Seq<u8>
    decreases args.len(),
{
    if args.len() == 0 {
        Seq::<u8>::empty()
    } else {
        args.first() + seq![32u8] + joined_args(args.drop_first())
    }
}

proof fn lemma_joined_args_push(args: Seq<Seq<u8>>, x: Seq<u8>)
    ensures
        joined_args(args.push(x)) == joined_args(args) + x + seq![32u8],
    decreases args.len(),
{
    if args.len() == 0 {
        assert(args.push(x).drop_first() =~~= args);
        assert(args.push(x).first() == x);
        assert(joined_args(args.push(x)) =~= joined_args(args) + x + seq![32u8]);
    } else {
        lemma_joined_args_push(args.drop_first(), x);
        assert(args.push(x).drop_first() =~~= args.drop_first().push(x));
        assert(args.push(x).first() == args.first());
        assert(joined_args(args.push(x)) =~= joined_args(args) + x + seq![32u8]);
    }
}

/// The outbound wire format of a built-in command: the code as one decimal
/// digit, one space, then the space-joined arguments with the surrounding
/// whitespace trimmed.
pub open spec fn payload_spec(code: u8, args: Seq<Seq<u8>>) -> Seq<u8> {
    seq![(code + 48) as u8, 32u8] + trim_spec(joined_args(args))
}

/// Build the payload of a numeric-coded command.
pub fn format_payload(code: u8, args: &Vec<Vec<u8>>) -> (r: Vec<u8>)
    requires
        code <= 9,
    ensures
        r@ == payload_spec(code, args.deep_view()),
{
    let n = args.len();
    let mut joined: Vec<u8> = Vec::new();
    let mut k: usize = 0;
    proof {
        assert(args.deep_view().take(0) =~~= Seq::<Seq<u8>>::empty());
    }
    while k < n
        invariant
            0 <= k <= n,
            n == args@.len(),
            joined@ == joined_args(args.deep_view().take(k as int)),
        decreases n - k,
    {
        let piece = &args[k];
        let mut copied = copy_range(piece.as_slice(), 0, piece.len());
        proof {
            assert(copied@ =~= args.deep_view()[k as int]);
        }
        joined.append(&mut copied);
        joined.push(32);
        proof {
            lemma_joined_args_push(args.deep_view().take(k as int), args.deep_view()[k as int]);
            assert(args.deep_view().take(k + 1) =~~= args.deep_view().take(k as int).push(
                args.deep_view()[k as int],
            ));
            assert(joined@ =~= joined_args(args.deep_view().take(k + 1)));
        }
        k = k + 1;
    }
    proof {
        assert(args.deep_view().take(n as int) =~~= args.deep_view());
    }
    let mut r: Vec<u8> = Vec::new();
    r.push(code + 48);
    r.push(32);
    let mut trimmed = trim_bytes(joined.as_slice());
    r.append(&mut trimmed);
    proof {
        assert(r@ =~= payload_spec(code, args.deep_view()));
    }
    r
}

/// An immutable pairing of a command name with what the command does.
pub struct Command {
    pub name: Vec<u8>,
    pub kind: CommandKind,
}

/// Holds of the channel after a command that only writes: exactly one whole
/// payload appended, nothing else touched.
pub open spec fn write_only_post(pre: Communicator, post: Communicator, payload: Seq<u8>) -> bool {
    same_connection(pre, post) && post.probe_cursor == pre.probe_cursor && post.inbound
        == pre.inbound && post.outbound.deep_view() == pre.outbound.deep_view().push(payload)
}

/// Holds of the channel after a command that writes and then waits for and
/// drains the reply: one whole payload appended, the probe cursor at the
/// completion point, one read's worth of buffered bytes drained.
pub open spec fn write_await_post(pre: Communicator, post: Communicator, payload: Seq<u8>) -> bool {
    same_connection(pre, post) && post.outbound.deep_view() == pre.outbound.deep_view().push(
        payload,
    ) && post.probe_cursor as int == wait_from(pre.avail_script@, pre.probe_cursor as int).unwrap().0
        && post.inbound@ == read_rest(pre.inbound@)
}

/// What a reply-bearing command returns: the decoded reply when the drained
/// bytes are text, the decode failure when they are not.
pub open spec fn reply_result(pre: Communicator, r: Result<String, ChannelError>) -> bool {
    if valid_utf8(read_taken(pre.inbound@)) {
        r matches Ok(s) && s@ == decode_utf8(read_taken(pre.inbound@))
    } else {
        r == Err::<String, ChannelError>(ChannelError::DecodeFailure)
    }
}

/// As `reply_result`, for the optional reply of `Command::exec`.
pub open spec fn reply_opt_result(pre: Communicator, r: Result<Option<String>, ChannelError>) -> bool {
    if valid_utf8(read_taken(pre.inbound@)) {
        r matches Ok(opt) && opt matches Some(s) && s@ == decode_utf8(read_taken(pre.inbound@))
    } else {
        r == Err::<Option<String>, ChannelError>(ChannelError::DecodeFailure)
    }
}

/// `write-digital`: one message, code 3 then the space-joined arguments.
pub fn write_digital(argv: &Vec<Vec<u8>>, communicator: &mut Communicator)
    ensures
        write_only_post(
            *old(communicator),
            *final(communicator),
            payload_spec(3, argv.deep_view()),
        ),
{
    let payload = format_payload(3, argv);
    communicator.write(payload.as_slice());
}

/// `write-analog`: one message, code 2 then the space-joined arguments.
pub fn write_analog(argv: &Vec<Vec<u8>>, communicator: &mut Communicator)
    ensures
        write_only_post(
            *old(communicator),
            *final(communicator),
            payload_spec(2, argv.deep_view()),
        ),
{
    let payload = format_payload(2, argv);
    communicator.write(payload.as_slice());
}

/// `read-digital`: one message with code 1, then a blocking wait for the
/// reply and one decoded read.
pub fn read_digital(argv: &Vec<Vec<u8>>, communicator: &mut Communicator) -> (r: Result<
    String,
    ChannelError,
>)
    requires
        wait_from(old(communicator).avail_script@, old(communicator).probe_cursor as int).is_some(),
    ensures
        write_await_post(
            *old(communicator),
            *final(communicator),
            payload_spec(1, argv.deep_view()),
        ),
        reply_result(*old(communicator), r),
{
    let payload = format_payload(1, argv);
    communicator.write(payload.as_slice());
    communicator.wait_for_response();
    communicator.get_output()
}

/// `read-analog`: one message with code 0, then a blocking wait for the
/// reply and one decoded read.
pub fn read_analog(argv: &Vec<Vec<u8>>, communicator: &mut Communicator) -> (r: Result<
    String,
    ChannelError,
>)
    requires
        wait_from(old(communicator).avail_script@, old(communicator).probe_cursor as int).is_some(),
    ensures
        write_await_post(
            *old(communicator),
            *final(communicator),
            payload_spec(0, argv.deep_view()),
        ),
        reply_result(*old(communicator), r),
{
    let payload = format_payload(0, argv);
    communicator.write(payload.as_slice());
    communicator.wait_for_response();
    communicator.get_output()
}

impl Command {
    pub fn new(name: Vec<u8>, kind: CommandKind) -> (c: Command)
        ensures
            c.name == name,
            c.kind == kind,
    {
        Command { name, kind }
    }

    /// Run the command against the channel: write its payload and, for a
    /// reply-bearing command, wait for and return the decoded reply.
    pub fn exec(&self, argv: &Vec<Vec<u8>>, communicator: &mut Communicator) -> (r: Result<
        Option<String>,
        ChannelError,
    >)
        requires
            awaits_reply_of(self.kind) ==> wait_from(
                old(communicator).avail_script@,
                old(communicator).probe_cursor as int,
            ).is_some(),
        ensures
            !awaits_reply_of(self.kind) ==> write_only_post(
                *old(communicator),
                *final(communicator),
                payload_spec(code_of(self.kind), argv.deep_view()),
            ) && r == Ok::<Option<String>, ChannelError>(None),
            awaits_reply_of(self.kind) ==> write_await_post(
                *old(communicator),
                *final(communicator),
                payload_spec(code_of(self.kind), argv.deep_view()),
            ) && reply_opt_result(*old(communicator), r),
    {
        match self.kind {
            CommandKind::WriteDigital => {
                write_digital(argv, communicator);
                Ok(None)
            },
            CommandKind::WriteAnalog => {
                write_analog(argv, communicator);
                Ok(None)
            },
            CommandKind::ReadDigital => {
                match read_digital(argv, communicator) {
                    Ok(s) => Ok(Some(s)),
                    Err(e) => Err(e),
                }
            },
            CommandKind::ReadAnalog => {
                match read_analog(argv, communicator) {
                    Ok(s) => Ok(Some(s)),
                    Err(e) => Err(e),
                }
            },
        }
    }
}

/// The first registered entry whose name is `name`, if any: lookup is
/// first-match, so a later duplicate is shadowed.
pub open spec fn first_match(entries: Seq<Command>, name: Seq<u8>) -> Option<int>
    decreases entries.len(),
{
    if entries.len() == 0 {
        None
    } else if entries.first().name@ == name {
        Some(0int)
    } else {
        match first_match(entries.drop_first(), name) {
            Some(i) => Some(i + 1),
            None => None,
        }
    }
}

pub proof fn lemma_first_match_found(entries: Seq<Command>, name: Seq<u8>, i: int)
    requires
        0 <= i < entries.len(),
        entries[i].name@ == name,
        forall|k: int| 0 <= k < i ==> entries[k].name@ != name,
    ensures
        first_match(entries, name) == Some(i),
    decreases i,
{
    if i == 0 {
    } else {
        lemma_first_match_found(entries.drop_first(), name, i - 1);
    }
}

pub proof fn lemma_first_match_none(entries: Seq<Command>, name: Seq<u8>)
    requires
        forall|k: int| 0 <= k < entries.len() ==> entries[k].name@ != name,
    ensures
        first_match(entries, name) is None,
    decreases entries.len(),
{
    if entries.len() > 0 {
        lemma_first_match_none(entries.drop_first(), name);
    }
}

/// What a resolved index means: it names a matching entry, and nothing
/// before it matches.
pub proof fn lemma_first_match_props(entries: Seq<Command>, name: Seq<u8>)
    requires
        first_match(entries, name).is_some(),
    ensures
        0 <= first_match(entries, name).unwrap() < entries.len(),
        entries[first_match(entries, name).unwrap()].name@ == name,
        forall|k: int| 0 <= k < first_match(entries, name).unwrap() ==> entries[k].name@ != name,
    decreases entries.len(),
{
    if entries.len() > 0 && entries.first().name@ != name {
        lemma_first_match_props(entries.drop_first(), name);
        assert forall|k: int| 0 <= k < first_match(entries, name).unwrap() implies entries[k].name@
            != name by {
            if k > 0 {
                assert(entries[k] == entries.drop_first()[k - 1]);
            }
        }
    }
}

/// The ordered command table, resolved once at startup.
pub struct CommandTable {
    pub entries: Vec<Command>,
}

impl CommandTable {
    pub fn new() -> (t: CommandTable)
        ensures
            t.entries@ == Seq::<Command>::empty(),
    {
        CommandTable { entries: Vec::new() }
    }

    /// Insert one entry at the end. A duplicate name is not rejected: the
    /// earlier entry keeps winning lookups, and the new one is shadowed.
    pub fn register(&mut self, c: Command)
        ensures
            final(self).entries@ == old(self).entries@.push(c),
    {
        self.entries.push(c);
    }

    /// Exact, case-sensitive first-match lookup; `None` means "not a
    /// built-in".
    pub fn resolve(&self, name: &[u8]) -> (r: Option<usize>)
        ensures
            match r {
                Some(i) => first_match(self.entries@, name@) == Some(i as int),
                None => first_match(self.entries@, name@) is None,
            },
    {
        let n = self.entries.len();
        let mut i: usize = 0;
        while i < n
            invariant
                0 <= i <= n,
                n == self.entries@.len(),
                forall|k: int| 0 <= k < i ==> self.entries@[k].name@ != name@,
            decreases n - i,
        {
            if bytes_eq(self.entries[i].name.as_slice(), name) {
                proof {
                    lemma_first_match_found(self.entries@, name@, i as int);
                }
                return Some(i);
            }
            i = i + 1;
        }
        proof {
            lemma_first_match_none(self.entries@, name@);
        }
        None
    }
}

/// The decision inside the port-selection prompt: a line chooses the port
/// with one-based number `p` exactly when it parses as a decimal `p` with
/// `1 <= p <= n_ports`; the chosen zero-based index is `p - 1`.
pub fn select_port_choice(input: &[u8], n_ports: usize) -> (r: Option<usize>)
    ensures
        r == (if parse_ok(input@) && 1 <= digits_value(trim_spec(input@)) && digits_value(
            trim_spec(input@),
        ) <= n_ports {
            Some((digits_value(trim_spec(input@)) - 1) as usize)
        } else {
            None::<usize>
        }),
{
    match parse_index(input) {
        Some(p) => {
            if p != 0 && p - 1 < n_ports {
                Some(p - 1)
            } else {
                None
            }
        },
        None => None,
    }
}

} // verus!
