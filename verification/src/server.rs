use vstd::prelude::*;
use crate::protocol::resp::{parse, spec_parse};
use crate::protocol::writer::{error_frame, encode_error};
use crate::commands::handlers::{
    parse_command,
    spec_parse_command,
    execute,
    effect,
    bytes_views,
    logged,
    channel_outcome,
};
use crate::pubsub::{PubSub, Client};
use std::sync::mpsc::Sender;
use crate::store::sharded::ShardedStore;
use crate::store::hashmap::HashMap;

verus! {

/// The largest buffer that may hold an unfinished request.
pub const MAX_PENDING: usize = 1048576;

/// `ERR unknown command`
pub open spec fn unknown_command() -> Seq<u8> {
    seq![69u8, 82, 82, 32, 117, 110, 107, 110, 111, 119, 110, 32, 99, 111, 109, 109, 97, 110, 100]
}

/// `ERROR payload is too large`
pub open spec fn payload_too_large() -> Seq<u8> {
    seq![69u8, 82, 82, 79, 82, 32, 112, 97, 121, 108, 111, 97, 100, 32, 105, 115, 32, 116, 111, 111, 32, 108, 97, 114, 103, 101]
}

/// What to do after looking at the start of a connection's buffer.
pub enum Step {
    /// Send `bytes` and drop the first `consumed` bytes of the buffer.
    Reply { bytes: Vec<u8>, consumed: usize },
    /// Wait for more bytes.
    Incomplete,
    /// Drop the whole buffer, send `bytes` and wait for more bytes.
    Overflow { bytes: Vec<u8> },
}

/// Serves the request at the start of `buffer`: when it holds a whole
/// request, the command it names is carried out and its reply returned (an
/// error reply for an unknown command); otherwise the buffer waits for more
/// bytes, unless it is larger than `MAX_PENDING`. `client` holds the
/// connection's channels and `subscriber` is the sender of its pushes.
pub fn process_request(
    buffer: &[u8],
    store: &mut ShardedStore,
    expiry: &mut HashMap<String, u64>,
    now: u64,
    log: &mut Vec<Vec<u8>>,
    pubsub: &mut PubSub,
    client: &mut Client,
    subscriber: Sender<String>,
) -> (r: Step)
    requires
        old(store).wf(),
        old(expiry).wf(),
        old(store).size() < usize::MAX / 4,
        old(expiry)@.len() < usize::MAX / 4,
        old(pubsub).wf(),
        old(pubsub).channel_count() < usize::MAX / 4,
        old(client).channels().len() < usize::MAX,
    ensures
        final(store).wf(),
        final(expiry).wf(),
        final(pubsub).wf(),
        final(pubsub).channel_count() <= old(pubsub).channel_count() + 1,
        final(store).size() <= old(store).size() + 1,
        final(expiry)@.len() <= old(expiry)@.len() + 1,
        match spec_parse(buffer@) {
            Ok((v, c)) => match r {
                Step::Reply { bytes, consumed } => {
                    &&& consumed == c
                    &&& match spec_parse_command(v) {
                        Some(cmd) => {
                            let e = effect(
                                cmd,
                                old(store)@,
                                old(store).key_order(),
                                old(expiry)@,
                                now,
                            );
                            &&& final(store)@ == e.store
                            &&& final(expiry)@ == e.expiry
                            &&& bytes_views(final(log)@) == logged(bytes_views(old(log)@), e.log)
                            &&& channel_outcome(
                                cmd,
                                bytes@,
                                e.reply,
                                old(pubsub)@,
                                final(pubsub)@,
                                old(client).channels(),
                                final(client).channels(),
                                subscriber,
                            )
                        },
                        None => {
                            &&& bytes@ == error_frame(unknown_command())
                            &&& final(store)@ == old(store)@
                            &&& final(expiry)@ == old(expiry)@
                            &&& final(log)@ == old(log)@
                            &&& final(pubsub)@ == old(pubsub)@
                            &&& final(client).channels() == old(client).channels()
                        },
                    }
                },
                _ => false,
            },
            Err(_) => {
                &&& final(store)@ == old(store)@
                &&& final(expiry)@ == old(expiry)@
                &&& final(log)@ == old(log)@
                &&& final(pubsub)@ == old(pubsub)@
                &&& final(client).channels() == old(client).channels()
                &&& if buffer@.len() > MAX_PENDING {
                    r matches Step::Overflow { bytes } && bytes@ == error_frame(payload_too_large())
                } else {
                    r is Incomplete
                }
            },
        },
{
    match parse(buffer) {
        Ok((val, consumed)) => {
            match parse_command(&val) {
                Some(cmd) => {
                    let bytes = execute(cmd, store, expiry, now, log, pubsub, client, subscriber);
                    Step::Reply { bytes, consumed }
                },
                None => {
                    let bytes = encode_error([69u8, 82, 82, 32, 117, 110, 107, 110, 111, 119, 110, 32, 99, 111, 109, 109, 97, 110, 100].as_slice());
                    assert(bytes@ =~= error_frame(unknown_command()));
                    Step::Reply { bytes, consumed }
                },
            }
        },
        Err(_) => {
            if buffer.len() > MAX_PENDING {
                let bytes = encode_error([69u8, 82, 82, 79, 82, 32, 112, 97, 121, 108, 111, 97, 100, 32, 105, 115, 32, 116, 111, 111, 32, 108, 97, 114, 103, 101].as_slice());
                assert(bytes@ =~= error_frame(payload_too_large()));
                Step::Overflow { bytes }
            } else {
                Step::Incomplete
            }
        },
    }
}

/// Carries a connection's buffer past a step: a reply drops the request it
/// served, an overflow drops everything, and an incomplete request keeps the
/// buffer as it is. Returns whether the buffer may hold another request to
/// serve now (after a reply).
pub fn after_step(buffer: &mut Vec<u8>, step: &Step) -> (more: bool)
    ensures
        more == (step is Reply),
        match step {
            Step::Reply { consumed, .. } => final(buffer)@ == if *consumed <= old(buffer)@.len() {
                old(buffer)@.skip(*consumed as int)
            } else {
                Seq::empty()
            },
            Step::Incomplete => final(buffer)@ == old(buffer)@,
            Step::Overflow { .. } => final(buffer)@ == Seq::<u8>::empty(),
        },
{
    match step {
        Step::Reply { consumed, .. } => {
            let n = buffer.len();
            let start = if *consumed <= n {
                *consumed
            } else {
                n
            };
            let mut rest: Vec<u8> = Vec::new();
            let mut i = start;
            while i < n
                invariant
                    start <= i <= n,
                    n == buffer@.len(),
                    rest@ == buffer@.subrange(start as int, i as int),
                decreases n - i,
            {
                rest.push(buffer[i]);
                i = i + 1;
                assert(rest@ =~= buffer@.subrange(start as int, i as int));
            }
            assert(rest@ =~= if *consumed <= n {
                buffer@.skip(*consumed as int)
            } else {
                Seq::<u8>::empty()
            });
            *buffer = rest;
            true
        },
        Step::Incomplete => false,
        Step::Overflow { .. } => {
            buffer.clear();
            false
        },
    }
}

} // verus!
