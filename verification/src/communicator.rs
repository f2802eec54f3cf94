//! The device channel: a single exclusively-owned connection with a write
//! log, a read buffer, and a scripted byte-count probe, together with the
//! completion heuristic that waits until the probed count stops growing.
//!
//! The probe script stands for what the non-blocking byte-count probe would
//! report on successive calls; once the script is exhausted the count holds
//! at its final value, as a buffer does once the device has gone quiet.

use vstd::prelude::*;
use vstd::slice::slice_to_vec;
use vstd::utf8::{decode_utf8, valid_utf8};

use crate::text::copy_range;

verus! {

/// How a channel operation fails: a transport failure, or bytes that were
/// expected to be text but do not decode.
#[derive(Clone, Copy, PartialEq, Eq, Structural, Debug)]
pub enum ChannelError {
    IoFailure,
    DecodeFailure,
}

/// The device channel. All access goes through `&mut self`, so every
/// operation holds exclusive access for its whole duration, as the
/// mutual-exclusion guard of a live session provides.
pub struct Communicator {
    /// Identity (path) of the connection, for diagnostics.
    pub name: String,
    pub baudrate: u32,
    /// What the byte-count probe reports on successive calls.
    pub avail_script: Vec<u32>,
    /// How many scripted probes have been consumed.
    pub probe_cursor: usize,
    /// Bytes buffered for reading.
    pub inbound: Vec<u8>,
    /// Whole messages written so far, in order; each write appends exactly
    /// one element, so the bytes of two writes can never interleave.
    pub outbound: Vec<Vec<u8>>,
}

/// The count at which the probe settles once the script is exhausted.
pub open spec fn tail_value(script: Seq<u32>) -> u32 {
    if script.len() > 0 {
        script.last()
    } else {
        0
    }
}

/// What the probe reports with `i` probes already consumed.
pub open spec fn probe_at(script: Seq<u32>, i: int) -> u32 {
    if 0 <= i < script.len() {
        script[i]
    } else {
        tail_value(script)
    }
}

/// The probe cursor after one more probe.
pub open spec fn next_probe_cursor(script: Seq<u32>, i: int) -> int {
    if 0 <= i < script.len() {
        i + 1
    } else {
        i
    }
}

/// Outcome of the completion-wait loop from baseline `baseline`, with the
/// next probe taken at cursor `i`: each cycle one probe gates on a non-zero
/// count, then a second probe is compared against the baseline; a larger
/// count advances the baseline, a count that did not grow declares
/// completion. `None` when the loop never completes (the count settles at
/// zero); otherwise the cursor after completion and the completing count.
pub open spec fn run_wait(script: Seq<u32>, i: int, baseline: u32) -> Option<(int, u32)>
    decreases script.len() - i,
{
    if i < 0 || i >= script.len() {
        if tail_value(script) == 0 {
            None
        } else {
            Some((i, tail_value(script)))
        }
    } else {
        let gate = script[i];
        if gate == 0 {
            run_wait(script, i + 1, baseline)
        } else if i + 1 >= script.len() {
            Some((i + 1, script[script.len() - 1]))
        } else {
            let count = script[i + 1];
            if count > baseline {
                run_wait(script, i + 2, count)
            } else {
                Some((i + 2, count))
            }
        }
    }
}

/// Outcome of `wait_for_response` called with the cursor at `cursor`: the
/// first probe taken there is the baseline.
pub open spec fn wait_from(script: Seq<u32>, cursor: int) -> Option<(int, u32)> {
    run_wait(script, next_probe_cursor(script, cursor), probe_at(script, cursor))
}

pub proof fn lemma_run_wait_end(script: Seq<u32>, i: int, baseline: u32)
    requires
        run_wait(script, i, baseline).is_some(),
    ensures
        run_wait(script, i, baseline).unwrap().0 >= i,
    decreases script.len() - i,
{
    if 0 <= i < script.len() {
        let gate = script[i];
        if gate == 0 {
            lemma_run_wait_end(script, i + 1, baseline);
        } else if i + 1 < script.len() {
            let count = script[i + 1];
            if count > baseline {
                lemma_run_wait_end(script, i + 2, count);
            }
        }
    }
}

/// Connection identity and script are untouched.
pub open spec fn same_connection(pre: Communicator, post: Communicator) -> bool {
    post.name == pre.name && post.baudrate == pre.baudrate && post.avail_script
        == pre.avail_script
}

/// How many buffered bytes one read drains: everything, up to the fixed
/// read-buffer size.
pub open spec fn read_take_len(inbound: Seq<u8>) -> int {
    if inbound.len() <= 1000 {
        inbound.len() as int
    } else {
        1000
    }
}

/// The bytes one read drains.
pub open spec fn read_taken(inbound: Seq<u8>) -> Seq<u8> {
    inbound.take(read_take_len(inbound))
}

/// The bytes left buffered after one read.
pub open spec fn read_rest(inbound: Seq<u8>) -> Seq<u8> {
    inbound.skip(read_take_len(inbound))
}

/// The state `change_port` leaves behind: wholly that of a fresh connection.
pub open spec fn is_replaced(post: Communicator, addr: String, baudrate: u32) -> bool {
    post.name == addr && post.baudrate == baudrate && post.avail_script@ == Seq::<u32>::empty()
        && post.probe_cursor == 0 && post.inbound@ == Seq::<u8>::empty() && post.outbound@
        == Seq::<Vec<u8>>::empty()
}

/// Relies on `core::str::from_utf8`: it succeeds exactly on the byte strings
/// that are valid UTF-8, and yields the characters they encode.
#[verifier::external_body]
fn utf8_to_string(bytes: &[u8]) -> (r: Option<String>)
    ensures
        r.is_some() == valid_utf8(bytes@),
        r matches Some(s) ==> s@ == decode_utf8(bytes@),
{
    match core::str::from_utf8(bytes) {
        Ok(s) => Some(s.to_owned()),
        Err(_) => None,
    }
}

impl Communicator {
    /// A channel on a fresh connection: nothing buffered, nothing written.
    pub fn new(addr: String, baudrate: u32) -> (c: Communicator)
        ensures
            c.name == addr,
            c.baudrate == baudrate,
            c.avail_script@ == Seq::<u32>::empty(),
            c.probe_cursor == 0,
            c.inbound@ == Seq::<u8>::empty(),
            c.outbound@ == Seq::<Vec<u8>>::empty(),
    {
        Communicator {
            name: addr,
            baudrate,
            avail_script: Vec::new(),
            probe_cursor: 0,
            inbound: Vec::new(),
            outbound: Vec::new(),
        }
    }

    /// Swap the connection wholesale: one assignment installs the new handle,
    /// and nothing of the old connection's state survives it.
    pub fn change_port(&mut self, addr: String, baudrate: u32)
        ensures
            is_replaced(*final(self), addr, baudrate),
    {
        *self = Communicator::new(addr, baudrate);
    }

    /// One probe: the scripted count at the cursor, or the settled tail value
    /// once the script is exhausted.
    fn bytes_avail(&mut self) -> (r: u32)
        ensures
            r == probe_at(old(self).avail_script@, old(self).probe_cursor as int),
            final(self).probe_cursor as int == next_probe_cursor(
                old(self).avail_script@,
                old(self).probe_cursor as int,
            ),
            same_connection(*old(self), *final(self)),
            final(self).inbound == old(self).inbound,
            final(self).outbound == old(self).outbound,
    {
        let n = self.avail_script.len();
        let i = self.probe_cursor;
        if i < n {
            let v = self.avail_script[i];
            self.probe_cursor = i + 1;
            v
        } else if n > 0 {
            self.avail_script[n - 1]
        } else {
            0
        }
    }

    /// Whether the probe reports anything buffered; consumes one probe.
    pub fn msg_available(&mut self) -> (r: bool)
        ensures
            r == (probe_at(old(self).avail_script@, old(self).probe_cursor as int) != 0),
            final(self).probe_cursor as int == next_probe_cursor(
                old(self).avail_script@,
                old(self).probe_cursor as int,
            ),
            same_connection(*old(self), *final(self)),
            final(self).inbound == old(self).inbound,
            final(self).outbound == old(self).outbound,
    {
        let v = self.bytes_avail();
        v != 0
    }

    /// Block until the probed count stops growing: take a baseline, skip
    /// probes that report nothing, advance the baseline while the count still
    /// grows, and complete at the first count that did not.
    pub fn wait_for_response(&mut self)
        requires
            wait_from(old(self).avail_script@, old(self).probe_cursor as int).is_some(),
        ensures
            final(self).probe_cursor as int == wait_from(
                old(self).avail_script@,
                old(self).probe_cursor as int,
            ).unwrap().0,
            same_connection(*old(self), *final(self)),
            final(self).inbound == old(self).inbound,
            final(self).outbound == old(self).outbound,
    {
        let ghost pre = *self;
        let ghost script = self.avail_script@;
        let ghost target = wait_from(script, self.probe_cursor as int).unwrap();
        let mut ba = self.bytes_avail();
        proof {
            lemma_run_wait_end(script, self.probe_cursor as int, ba);
        }
        loop
            invariant_except_break
                run_wait(script, self.probe_cursor as int, ba) == Some(target),
                self.probe_cursor as int <= target.0,
            invariant
                same_connection(pre, *self),
                self.inbound == pre.inbound,
                self.outbound == pre.outbound,
                self.avail_script@ == script,
            ensures
                self.probe_cursor as int == target.0,
                same_connection(pre, *self),
                self.inbound == pre.inbound,
                self.outbound == pre.outbound,
            decreases
                    target.0 - self.probe_cursor as int,
                    (if ba >= tail_value(script) {
                        0int
                    } else {
                        1int
                    }),
        {
            if self.msg_available() {
                let cba = self.bytes_avail();
                if ba < cba {
                    ba = cba;
                    proof {
                        lemma_run_wait_end(script, self.probe_cursor as int, ba);
                    }
                } else {
                    break;
                }
            } else {
                proof {
                    lemma_run_wait_end(script, self.probe_cursor as int, ba);
                }
            }
        }
    }

    /// Send one whole message: it is appended to the write log as one
    /// element, and the whole buffer is accepted.
    pub fn write(&mut self, buffer: &[u8]) -> (n: usize)
        ensures
            n == buffer@.len(),
            final(self).outbound.deep_view() == old(self).outbound.deep_view().push(buffer@),
            same_connection(*old(self), *final(self)),
            final(self).probe_cursor == old(self).probe_cursor,
            final(self).inbound == old(self).inbound,
    {
        let msg = slice_to_vec(buffer);
        self.outbound.push(msg);
        proof {
            assert(self.outbound.deep_view() =~~= old(self).outbound.deep_view().push(buffer@));
        }
        buffer.len()
    }

    /// Drain one read's worth of buffered bytes and decode them as text; a
    /// decode failure is reported, not swallowed. Nothing buffered yields an
    /// empty result, as a read that timed out does.
    pub fn get_output(&mut self) -> (r: Result<String, ChannelError>)
        ensures
            final(self).inbound@ == read_rest(old(self).inbound@),
            same_connection(*old(self), *final(self)),
            final(self).probe_cursor == old(self).probe_cursor,
            final(self).outbound == old(self).outbound,
            valid_utf8(read_taken(old(self).inbound@)) ==> (r matches Ok(s) && s@ == decode_utf8(
                read_taken(old(self).inbound@),
            )),
            !valid_utf8(read_taken(old(self).inbound@)) ==> r == Err::<String, ChannelError>(
                ChannelError::DecodeFailure,
            ),
    {
        let len = self.inbound.len();
        let take = if len <= 1000 {
            len
        } else {
            1000
        };
        let taken = copy_range(self.inbound.as_slice(), 0, take);
        let rest = copy_range(self.inbound.as_slice(), take, len);
        proof {
            assert(taken@ =~= read_taken(old(self).inbound@));
            assert(rest@ =~= read_rest(old(self).inbound@));
        }
        self.inbound = rest;
        match utf8_to_string(taken.as_slice()) {
            Some(s) => Ok(s),
            None => Err(ChannelError::DecodeFailure),
        }
    }

    /// The connection's identity, for diagnostics.
    pub fn get_name(&self) -> (r: String)
        ensures
            r@ == self.name@,
    {
        self.name.as_str().to_owned()
    }
}

/// Law: the wait completes once the probed count settles at a non-zero
/// value. Whatever the baseline and wherever the cursor stands, a script
/// whose counts stop changing on a non-zero value — two consecutive probes
/// reporting the same non-zero count, and every probe after them — leads the
/// loop to declare completion.
pub proof fn lemma_stable_count_completes(script: Seq<u32>, i: int, baseline: u32)
    requires
        tail_value(script) != 0,
    ensures
        run_wait(script, i, baseline).is_some(),
    decreases script.len() - i,
{
    if 0 <= i < script.len() {
        let gate = script[i];
        if gate == 0 {
            lemma_stable_count_completes(script, i + 1, baseline);
        } else if i + 1 < script.len() {
            let count = script[i + 1];
            if count > baseline {
                lemma_stable_count_completes(script, i + 2, count);
            }
        }
    }
}

/// Law: completion is never declared while the counts are still strictly
/// growing. If every scripted probe from the cursor on reports a strictly
/// larger count than the one before, and the first already exceeds the
/// baseline, then any completion lies beyond the script: the loop is still
/// waiting when the growth has consumed every scripted probe.
pub proof fn lemma_growth_defers_completion(script: Seq<u32>, i: int, baseline: u32)
    requires
        0 <= i,
        forall|k: int| i <= k < script.len() - 1 ==> #[trigger] script[k] < script[k + 1],
        i < script.len() ==> baseline < script[i],
    ensures
        run_wait(script, i, baseline) matches Some((end, count)) ==> end >= script.len(),
    decreases script.len() - i,
{
    if i < script.len() {
        let gate = script[i];
        assert(gate != 0);
        if i + 1 < script.len() {
            let count = script[i + 1];
            assert(baseline < gate < count);
            lemma_growth_defers_completion(script, i + 2, count);
        }
    }
}

/// Law: replacing the connection swaps the whole handle. The state after
/// `change_port` is determined by the new connection alone: two replacements
/// with the same new connection agree in every observable field, whatever
/// went before, so an operation after a replacement sees one handle cleanly
/// and never a mixture of old and new.
pub proof fn lemma_replace_no_mixture(
    after_a: Communicator,
    after_b: Communicator,
    addr: String,
    baudrate: u32,
)
    requires
        is_replaced(after_a, addr, baudrate),
        is_replaced(after_b, addr, baudrate),
    ensures
        after_a.name == after_b.name,
        after_a.baudrate == after_b.baudrate,
        after_a.avail_script@ == after_b.avail_script@,
        after_a.probe_cursor == after_b.probe_cursor,
        after_a.inbound@ == after_b.inbound@,
        after_a.outbound@ == after_b.outbound@,
{
}

} // verus!
