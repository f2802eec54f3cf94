//! The dispatch engine: parse an input line, resolve its first token against
//! the command table, run the matched command against the guarded channel, or
//! forward the whole trimmed line verbatim; and the background listener's
//! cycle that drains unsolicited device output into the shared sink.

use vstd::prelude::*;
use vstd::utf8::{decode_utf8, valid_utf8};

use crate::command::{
    awaits_reply_of, code_of, first_match, payload_spec, write_await_post, write_only_post,
    Command, CommandTable,
};
use crate::communicator::{
    next_probe_cursor, probe_at, read_rest, read_taken, same_connection, wait_from, ChannelError,
    Communicator,
};
use crate::text::{copy_range, split_bytes, split_spec, trim_bytes, trim_spec};

verus! {

/// The candidate command name of a line: its first token, trimmed.
pub open spec fn line_name(line: Seq<u8>) -> Seq<u8> {
    trim_spec(split_spec(line).first())
}

/// The arguments of a line: every token after the first, untrimmed, in order.
pub open spec fn line_args(line: Seq<u8>) -> Seq<Seq<u8>> {
    split_spec(line).drop_first()
}

/// The one whole message a dispatched line puts on the wire: the resolved
/// command's framed payload, or the whole trimmed line when nothing resolves.
pub open spec fn dispatched_payload(entries: Seq<Command>, line: Seq<u8>) -> Seq<u8> {
    match first_match(entries, line_name(line)) {
        Some(i) => payload_spec(code_of(entries[i].kind), line_args(line)),
        None => trim_spec(line),
    }
}

/// The guarded channel's write log after one dispatch.
pub open spec fn dispatch_log(entries: Seq<Command>, line: Seq<u8>, log: Seq<Seq<u8>>) -> Seq<
    Seq<u8>,
> {
    log.push(dispatched_payload(entries, line))
}

/// What the dispatcher decided to do with a line.
pub enum DispatchAction {
    Builtin { kind: crate::command::CommandKind, payload: Vec<u8> },
    Passthrough { payload: Vec<u8> },
}

/// Split a line on the single-space delimiter and resolve its first token:
/// a registered name yields the command's framed payload, anything else the
/// whole trimmed line as a raw passthrough.
pub fn dispatch_decide(table: &CommandTable, line: &[u8]) -> (a: DispatchAction)
    ensures
        match first_match(table.entries@, line_name(line@)) {
            Some(i) => a matches DispatchAction::Builtin { kind, payload } && kind
                == table.entries@[i].kind && payload@ == payload_spec(
                code_of(kind),
                line_args(line@),
            ),
            None => a matches DispatchAction::Passthrough { payload } && payload@ == trim_spec(
                line@,
            ),
        },
{
    let toks = split_bytes(line);
    let name = trim_bytes(toks[0].as_slice());
    proof {
        assert(toks.deep_view()[0] =~= toks@[0]@);
        assert(name@ == line_name(line@));
    }
    match table.resolve(name.as_slice()) {
        Some(i) => {
            proof {
                crate::command::lemma_first_match_props(table.entries@, name@);
            }
            let kind = table.entries[i].kind;
            let n = toks.len();
            let mut args: Vec<Vec<u8>> = Vec::new();
            let mut k: usize = 1;
            proof {
                assert(args.deep_view() =~~= toks.deep_view().subrange(1, 1));
            }
            while k < n
                invariant
                    1 <= k <= n,
                    n == toks@.len(),
                    toks.deep_view() == split_spec(line@),
                    args.deep_view() == toks.deep_view().subrange(1, k as int),
                decreases n - k,
            {
                let piece = &toks[k];
                let copied = copy_range(piece.as_slice(), 0, piece.len());
                proof {
                    assert(copied@ =~= toks.deep_view()[k as int]);
                }
                let ghost pre_args = args.deep_view();
                args.push(copied);
                proof {
                    assert(args.deep_view() =~~= pre_args.push(toks.deep_view()[k as int]));
                    assert(pre_args.push(toks.deep_view()[k as int]) =~~= toks.deep_view().subrange(
                        1,
                        k + 1,
                    ));
                }
                k = k + 1;
            }
            proof {
                assert(toks.deep_view().subrange(1, n as int) =~~= line_args(line@));
                assert(code_of(kind) <= 9);
            }
            let payload = format_payload_for(kind, &args);
            DispatchAction::Builtin { kind, payload }
        },
        None => {
            let payload = trim_bytes(line);
            DispatchAction::Passthrough { payload }
        },
    }
}

/// The payload of one built-in command with the given arguments.
fn format_payload_for(kind: crate::command::CommandKind, args: &Vec<Vec<u8>>) -> (r: Vec<u8>)
    ensures
        r@ == payload_spec(code_of(kind), args.deep_view()),
{
    proof {
        assert(code_of(kind) <= 9);
    }
    crate::command::format_payload(kind.code(), args)
}

/// The sink gained exactly one event: the decoded reply drained from the
/// channel; everything already published stays, in order.
pub open spec fn published_reply(
    pre_out: Seq<String>,
    post_out: Seq<String>,
    pre_comm: Communicator,
) -> bool {
    post_out.len() == pre_out.len() + 1 && post_out.subrange(0, pre_out.len() as int) == pre_out
        && post_out.last()@ == decode_utf8(read_taken(pre_comm.inbound@))
}

/// The interactive shell: the command table, the guarded device channel, and
/// the shared output sink the presentation layer consumes.
pub struct Shell {
    pub table: CommandTable,
    pub communicator: Communicator,
    /// Append-only; insertion order is arrival order.
    pub output_vec: Vec<String>,
}

impl Shell {
    pub fn new(com_vec: Vec<Command>, communicator: Communicator) -> (s: Shell)
        ensures
            s.table.entries == com_vec,
            s.communicator == communicator,
            s.output_vec@ == Seq::<String>::empty(),
    {
        Shell { table: CommandTable { entries: com_vec }, communicator, output_vec: Vec::new() }
    }

    /// Dispatch one input line. A resolved command writes its framed payload
    /// — never the raw line — and a reply-bearing command then blocks for the
    /// reply and publishes it; an unresolved line is written verbatim as the
    /// whole trimmed line. Either way exactly one whole message reaches the
    /// channel, and control always returns to the caller.
    pub fn parse_external(&mut self, line: &[u8]) -> (r: Result<(), ChannelError>)
        requires
            match first_match(old(self).table.entries@, line_name(line@)) {
                Some(i) => awaits_reply_of(old(self).table.entries@[i].kind) ==> wait_from(
                    old(self).communicator.avail_script@,
                    old(self).communicator.probe_cursor as int,
                ).is_some(),
                None => true,
            },
        ensures
            final(self).table == old(self).table,
            final(self).communicator.outbound.deep_view() == dispatch_log(
                old(self).table.entries@,
                line@,
                old(self).communicator.outbound.deep_view(),
            ),
            match first_match(old(self).table.entries@, line_name(line@)) {
                Some(i) => {
                    let kind = old(self).table.entries@[i].kind;
                    if awaits_reply_of(kind) {
                        write_await_post(
                            old(self).communicator,
                            final(self).communicator,
                            payload_spec(code_of(kind), line_args(line@)),
                        ) && (if valid_utf8(read_taken(old(self).communicator.inbound@)) {
                            r == Ok::<(), ChannelError>(()) && published_reply(
                                old(self).output_vec@,
                                final(self).output_vec@,
                                old(self).communicator,
                            )
                        } else {
                            r == Err::<(), ChannelError>(ChannelError::DecodeFailure) && final(self).output_vec@ == old(self).output_vec@
                        })
                    } else {
                        write_only_post(
                            old(self).communicator,
                            final(self).communicator,
                            payload_spec(code_of(kind), line_args(line@)),
                        ) && r == Ok::<(), ChannelError>(()) && final(self).output_vec@ == old(self).output_vec@
                    }
                },
                None => write_only_post(
                    old(self).communicator,
                    final(self).communicator,
                    trim_spec(line@),
                ) && r == Ok::<(), ChannelError>(()) && final(self).output_vec@ == old(self).output_vec@,
            },
    {
        let action = dispatch_decide(&self.table, line);
        match action {
            DispatchAction::Passthrough { payload } => {
                self.communicator.write(payload.as_slice());
                Ok(())
            },
            DispatchAction::Builtin { kind, payload } => {
                self.communicator.write(payload.as_slice());
                if kind.awaits_reply() {
                    self.communicator.wait_for_response();
                    match self.communicator.get_output() {
                        Ok(s) => {
                            self.output_vec.push(s);
                            proof {
                                assert(self.output_vec@.subrange(
                                    0,
                                    old(self).output_vec@.len() as int,
                                ) =~= old(self).output_vec@);
                            }
                            Ok(())
                        },
                        Err(e) => Err(e),
                    }
                } else {
                    Ok(())
                }
            },
        }
    }

    /// One cycle of the background listener: probe once; when something is
    /// buffered, wait for the transmission to finish arriving, drain one
    /// reply, and publish it to the sink. Returns whether it published.
    /// Nothing is ever written to the device, and a decode failure is
    /// reported, publishing nothing.
    pub fn listener_step(&mut self) -> (r: Result<bool, ChannelError>)
        requires
            probe_at(
                old(self).communicator.avail_script@,
                old(self).communicator.probe_cursor as int,
            ) != 0 ==> wait_from(
                old(self).communicator.avail_script@,
                next_probe_cursor(
                    old(self).communicator.avail_script@,
                    old(self).communicator.probe_cursor as int,
                ),
            ).is_some(),
        ensures
            final(self).table == old(self).table,
            same_connection(old(self).communicator, final(self).communicator),
            final(self).communicator.outbound == old(self).communicator.outbound,
            probe_at(
                old(self).communicator.avail_script@,
                old(self).communicator.probe_cursor as int,
            ) == 0 ==> r == Ok::<bool, ChannelError>(false) && final(self).communicator.probe_cursor as int == next_probe_cursor(
                old(self).communicator.avail_script@,
                old(self).communicator.probe_cursor as int,
            ) && final(self).communicator.inbound == old(self).communicator.inbound && final(self).output_vec@ == old(self).output_vec@,
            probe_at(
                old(self).communicator.avail_script@,
                old(self).communicator.probe_cursor as int,
            ) != 0 ==> final(self).communicator.probe_cursor as int == wait_from(
                old(self).communicator.avail_script@,
                next_probe_cursor(
                    old(self).communicator.avail_script@,
                    old(self).communicator.probe_cursor as int,
                ),
            ).unwrap().0 && final(self).communicator.inbound@ == read_rest(
                old(self).communicator.inbound@,
            ) && (if valid_utf8(read_taken(old(self).communicator.inbound@)) {
                r == Ok::<bool, ChannelError>(true) && published_reply(
                    old(self).output_vec@,
                    final(self).output_vec@,
                    old(self).communicator,
                )
            } else {
                r == Err::<bool, ChannelError>(ChannelError::DecodeFailure) && final(self).output_vec@ == old(self).output_vec@
            }),
    {
        if self.communicator.msg_available() {
            self.communicator.wait_for_response();
            match self.communicator.get_output() {
                Ok(s) => {
                    self.output_vec.push(s);
                    proof {
                        assert(self.output_vec@.subrange(
                            0,
                            old(self).output_vec@.len() as int,
                        ) =~= old(self).output_vec@);
                    }
                    Ok(true)
                },
                Err(e) => Err(e),
            }
        } else {
            Ok(false)
        }
    }
}

/// Law: a line whose first token resolves to a registered command is never
/// forwarded as a raw passthrough: the one message its dispatch appends to
/// the channel's log is the resolved command's framed payload.
pub proof fn lemma_matched_line_never_passthrough(
    entries: Seq<Command>,
    line: Seq<u8>,
    log: Seq<Seq<u8>>,
)
    requires
        first_match(entries, line_name(line)).is_some(),
    ensures
        dispatch_log(entries, line, log) == log.push(
            payload_spec(
                code_of(entries[first_match(entries, line_name(line)).unwrap()].kind),
                line_args(line),
            ),
        ),
{
}

/// Law: a line whose first token matches no registered command is written
/// verbatim: the one message its dispatch appends to the channel's log is
/// the whole trimmed line, and only that line.
pub proof fn lemma_unmatched_line_verbatim(entries: Seq<Command>, line: Seq<u8>, log: Seq<Seq<u8>>)
    requires
        first_match(entries, line_name(line)) is None,
    ensures
        dispatch_log(entries, line, log) == log.push(trim_spec(line)),
{
}

/// Law: writes never interleave. Each dispatch appends its message to the
/// guarded channel's log as one whole element, so two dispatches serialized
/// by the guard — in whichever order it admits them — leave the log extended
/// by exactly the two whole payloads, never a mixture of their bytes.
pub proof fn lemma_serialized_dispatches_stay_whole(
    entries: Seq<Command>,
    line_a: Seq<u8>,
    line_b: Seq<u8>,
    log: Seq<Seq<u8>>,
)
    ensures
        dispatch_log(entries, line_b, dispatch_log(entries, line_a, log)) == log + seq![
            dispatched_payload(entries, line_a),
            dispatched_payload(entries, line_b),
        ],
        dispatch_log(entries, line_a, dispatch_log(entries, line_b, log)) == log + seq![
            dispatched_payload(entries, line_b),
            dispatched_payload(entries, line_a),
        ],
{
    let pa = dispatched_payload(entries, line_a);
    let pb = dispatched_payload(entries, line_b);
    assert(log.push(pa).push(pb) =~~= log + seq![pa, pb]);
    assert(log.push(pb).push(pa) =~~= log + seq![pb, pa]);
}

} // verus!
