//! The tailing consumer: a long-running loop, independent of the
//! repository, that polls the log from the last committed position,
//! decodes and observes each event in delivery order, and commits the new
//! position only after the whole batch has been processed.
//!
//! Because the commit comes after the batch, a crash between "processed"
//! and "committed" redelivers the same batch on restart: delivery is at
//! least once, never exactly once, and observers must tolerate
//! re-application.

use vstd::prelude::*;

use crate::book::BookEvent;
use crate::codec::{decode_event, parse_event, SerializationError};
use crate::repo::{EventLog, LogModel};

verus! {

/// The states of the consumer's iteration loop. `Faulted` is terminal:
/// recovery is an external restart, never automatic.
#[derive(Clone, Copy, PartialEq, Eq, Structural, Debug)]
pub enum ConsumerPhase {
    Idle,
    Polling,
    Processing,
    Committing,
    Faulted,
}

/// What the loop observed while running one step.
#[derive(Clone, Copy, PartialEq, Eq, Structural, Debug)]
pub enum ConsumerSignal {
    /// The idle timer elapsed; time to poll.
    TimerElapsed,
    /// The poll returned no messages.
    BatchEmpty,
    /// The poll returned at least one message.
    BatchReceived,
    /// Every message of the batch was decoded and observed.
    BatchProcessed,
    /// The new position was durably committed.
    CommitConfirmed,
    /// A payload was not a known event; fatal by policy, never skipped.
    DecodeFailed,
    /// The durable position update failed; treating the batch as
    /// processed anyway would skip it on restart, so the consumer halts.
    CommitFailed,
    /// Polling the log failed.
    TransportFailed,
}

/// The consumer's state machine: the one lawful path is
/// `Idle -> Polling -> (Idle | Processing -> Committing -> Idle)`, and any
/// failure, or any signal out of place, is terminal.
pub open spec fn phase_after(p: ConsumerPhase, s: ConsumerSignal) -> ConsumerPhase {
    if p is Faulted {
        ConsumerPhase::Faulted
    } else {
        match s {
            ConsumerSignal::TimerElapsed => if p is Idle {
                ConsumerPhase::Polling
            } else {
                ConsumerPhase::Faulted
            },
            ConsumerSignal::BatchEmpty => if p is Polling {
                ConsumerPhase::Idle
            } else {
                ConsumerPhase::Faulted
            },
            ConsumerSignal::BatchReceived => if p is Polling {
                ConsumerPhase::Processing
            } else {
                ConsumerPhase::Faulted
            },
            ConsumerSignal::BatchProcessed => if p is Processing {
                ConsumerPhase::Committing
            } else {
                ConsumerPhase::Faulted
            },
            ConsumerSignal::CommitConfirmed => if p is Committing {
                ConsumerPhase::Idle
            } else {
                ConsumerPhase::Faulted
            },
            ConsumerSignal::DecodeFailed => ConsumerPhase::Faulted,
            ConsumerSignal::CommitFailed => ConsumerPhase::Faulted,
            ConsumerSignal::TransportFailed => ConsumerPhase::Faulted,
        }
    }
}

/// One transition of the consumer's state machine.
pub fn next_phase(p: ConsumerPhase, s: ConsumerSignal) -> (r: ConsumerPhase)
    ensures
        r == phase_after(p, s),
{
    if matches!(p, ConsumerPhase::Faulted) {
        return ConsumerPhase::Faulted;
    }
    match s {
        ConsumerSignal::TimerElapsed => if matches!(p, ConsumerPhase::Idle) {
            ConsumerPhase::Polling
        } else {
            ConsumerPhase::Faulted
        },
        ConsumerSignal::BatchEmpty => if matches!(p, ConsumerPhase::Polling) {
            ConsumerPhase::Idle
        } else {
            ConsumerPhase::Faulted
        },
        ConsumerSignal::BatchReceived => if matches!(p, ConsumerPhase::Polling) {
            ConsumerPhase::Processing
        } else {
            ConsumerPhase::Faulted
        },
        ConsumerSignal::BatchProcessed => if matches!(p, ConsumerPhase::Processing) {
            ConsumerPhase::Committing
        } else {
            ConsumerPhase::Faulted
        },
        ConsumerSignal::CommitConfirmed => if matches!(p, ConsumerPhase::Committing) {
            ConsumerPhase::Idle
        } else {
            ConsumerPhase::Faulted
        },
        ConsumerSignal::DecodeFailed => ConsumerPhase::Faulted,
        ConsumerSignal::CommitFailed => ConsumerPhase::Faulted,
        ConsumerSignal::TransportFailed => ConsumerPhase::Faulted,
    }
}

/// Is every message of the batch the canonical encoding of some event?
pub open spec fn all_decodable(msgs: Seq<Seq<char>>) -> bool {
    forall|i: int| 0 <= i < msgs.len() ==> (#[trigger] parse_event(msgs[i])) is Some
}

/// The events a fully decodable batch decodes to, in delivery order.
pub open spec fn decoded_seq(msgs: Seq<Seq<char>>) -> Seq<crate::book::EventModel> {
    msgs.map_values(|m: Seq<char>| parse_event(m)->Some_0)
}

/// What a poll from the committed position returns.
pub open spec fn pending_batch(l: LogModel) -> Seq<Seq<char>> {
    l.messages.skip(l.committed)
}

/// The tailing consumer. In this minimal design processing is observation:
/// every decoded event is kept, in delivery order, in `observed`.
pub struct TailingConsumer {
    /// Every event this consumer has applied, oldest first. Re-applied
    /// batches appear again: delivery is at least once.
    pub observed: Vec<BookEvent>,
    /// Whether the consumer has halted on an unrecoverable error.
    pub faulted: bool,
}

impl TailingConsumer {
    /// A fresh consumer that has observed nothing.
    pub fn new() -> (c: TailingConsumer)
        ensures
            c.observed.deep_view() == Seq::<crate::book::EventModel>::empty(),
            !c.faulted,
    {
        let c = TailingConsumer { observed: Vec::new(), faulted: false };
        proof {
            assert(c.observed.deep_view() =~= Seq::<crate::book::EventModel>::empty());
        }
        c
    }

    /// Decodes and observes every message of one polled batch, in delivery
    /// order. A decode failure is fatal by policy — the batch is never
    /// silently skipped: the consumer faults, and what was already
    /// observed before the bad payload stays observed.
    pub fn handle_batch(&mut self, batch: &Vec<String>) -> (r: Result<(), SerializationError>)
        requires
            !old(self).faulted,
        ensures
            match r {
                Ok(_) => all_decodable(batch.deep_view()) && !final(self).faulted
                    && final(self).observed.deep_view() == old(self).observed.deep_view()
                    + decoded_seq(batch.deep_view()),
                Err(_) => final(self).faulted && !all_decodable(batch.deep_view()) && exists|
                    j: int,
                |
                    0 <= j < batch.deep_view().len() && parse_event(batch.deep_view()[j]) is None
                        && (forall|i: int|
                        0 <= i < j ==> (#[trigger] parse_event(batch.deep_view()[i])) is Some)
                        && final(self).observed.deep_view() == old(self).observed.deep_view()
                        + decoded_seq(batch.deep_view().take(j)),
            },
    {
        let n = batch.len();
        let mut k: usize = 0;
        proof {
            assert(self.observed.deep_view() =~= old(self).observed.deep_view() + decoded_seq(
                batch.deep_view().take(0),
            ));
        }
        while k < n
            invariant
                k <= n,
                n == batch@.len(),
                !self.faulted,
                forall|i: int|
                    0 <= i < k ==> (#[trigger] parse_event(batch.deep_view()[i])) is Some,
                self.observed.deep_view() == old(self).observed.deep_view() + decoded_seq(
                    batch.deep_view().take(k as int),
                ),
            decreases n - k,
        {
            let msg = &batch[k];
            match decode_event(msg.as_str()) {
                Ok(ev) => {
                    let ghost oprev = self.observed.deep_view();
                    let ghost evm = ev@;
                    self.observed.push(ev);
                    proof {
                        assert(batch.deep_view()[k as int] == batch@[k as int]@);
                        assert(self.observed.deep_view() =~= oprev.push(evm));
                        assert(batch.deep_view().take(k + 1) =~= batch.deep_view().take(
                            k as int,
                        ).push(batch.deep_view()[k as int]));
                        assert(decoded_seq(batch.deep_view().take(k + 1)) =~= decoded_seq(
                            batch.deep_view().take(k as int),
                        ).push(evm));
                        assert(self.observed.deep_view() =~= old(self).observed.deep_view()
                            + decoded_seq(batch.deep_view().take(k + 1)));
                    }
                },
                Err(e) => {
                    self.faulted = true;
                    proof {
                        assert(batch.deep_view()[k as int] == batch@[k as int]@);
                        assert(parse_event(batch.deep_view()[k as int]) is None);
                    }
                    return Err(e);
                },
            }
            k = k + 1;
        }
        proof {
            assert(batch.deep_view().take(n as int) =~= batch.deep_view());
        }
        Ok(())
    }

    /// One full iteration against the log: poll everything past the last
    /// committed position, decode and observe the whole batch in delivery
    /// order, and only after the entire batch commit the new position.
    /// On a decode failure nothing is committed — the consumer faults and
    /// the batch stays uncommitted, so a restart re-receives it whole:
    /// at-least-once delivery, never exactly-once. Returns the batch size.
    pub fn poll_cycle(&mut self, log: &mut EventLog) -> (r: Result<usize, SerializationError>)
        requires
            !old(self).faulted,
            old(log).wf(),
        ensures
            final(log).wf(),
            final(log)@.messages == old(log)@.messages,
            match r {
                Ok(n) => !final(self).faulted && n == pending_batch(old(log)@).len()
                    && all_decodable(pending_batch(old(log)@)) && final(self).observed.deep_view()
                    == old(self).observed.deep_view() + decoded_seq(pending_batch(old(log)@))
                    && final(log)@.committed == old(log)@.messages.len(),
                Err(_) => final(self).faulted && final(log)@.committed == old(log)@.committed
                    && !all_decodable(pending_batch(old(log)@)),
            },
    {
        let batch = log.poll();
        let n = batch.len();
        proof {
            assert(batch.deep_view().len() == batch@.len());
        }
        match self.handle_batch(&batch) {
            Ok(_) => {
                let pos = log.len();
                log.commit(pos);
                Ok(n)
            },
            Err(e) => Err(e),
        }
    }
}

} // verus!
