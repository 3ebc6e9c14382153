//! The connection fan-out: one audience's set of outbound channels, with
//! liveness tracking and lazy pruning.
//!
//! Each channel is a bounded queue drained by one delivery loop outside the
//! engine.  The engine enqueues without blocking: a send that fails marks
//! the channel dead, and dead channels leave the set on the next send pass.
//! The ghost `hist` field records every message handed to [`Connections::send`],
//! so contracts can state exactly what an audience was sent.

use vstd::prelude::*;

use crate::bytes::copy_bytes;

verus! {

use vstd::assert_seqs_equal;

#[verifier::external_type_specification]
#[verifier::external_body]
#[verifier::reject_recursive_types(T)]
pub struct ExSender<T>(tokio::sync::mpsc::Sender<T>);

#[verifier::external_type_specification]
#[verifier::external_body]
#[verifier::reject_recursive_types(T)]
pub struct ExReceiver<T>(tokio::sync::mpsc::Receiver<T>);

/// Relies on tokio::sync::mpsc::channel: returns the two ends of a fresh
/// bounded channel.  It panics when the capacity is zero, and its
/// semaphore panics when the capacity exceeds an eighth of the address
/// space (the permit bound is the all-ones word shifted right by three,
/// which equals that word divided by eight); the requires rules both out.
#[verifier::external_body]
pub(crate) fn channel_pair(cap: usize) -> (tokio::sync::mpsc::Sender<Vec<u8>>, tokio::sync::mpsc::Receiver<
    Vec<u8>,
>)
    requires
        1 <= cap <= usize::MAX / 8,
{
    tokio::sync::mpsc::channel(cap)
}

/// Relies on tokio's Sender::try_send: enqueues without blocking and
/// without panicking, succeeding exactly when the channel is neither full
/// nor closed.  Whether it succeeds depends on the receiver, so nothing
/// more is promised.
#[verifier::external_body]
pub(crate) fn try_send_bytes(s: &tokio::sync::mpsc::Sender<Vec<u8>>, m: Vec<u8>) -> bool {
    s.try_send(m).is_ok()
}

struct Entry {
    sender: tokio::sync::mpsc::Sender<Vec<u8>>,
    live: bool,
}

/// The channel handles of a row of entries, in order.
spec fn chans_of(s: Seq<Entry>) -> Seq<tokio::sync::mpsc::Sender<Vec<u8>>> {
    s.map_values(|e: Entry| e.sender)
}

/// The channel handles of the entries still flagged live, in order.
spec fn live_chans_of(s: Seq<Entry>) -> Seq<tokio::sync::mpsc::Sender<Vec<u8>>>
    decreases s.len(),
{
    if s.len() == 0 {
        Seq::empty()
    } else if s.last().live {
        live_chans_of(s.drop_last()).push(s.last().sender)
    } else {
        live_chans_of(s.drop_last())
    }
}

proof fn lemma_live_chans_len(s: Seq<Entry>)
    ensures
        live_chans_of(s).len() <= s.len(),
    decreases s.len(),
{
    if s.len() > 0 {
        lemma_live_chans_len(s.drop_last());
    }
}

/// The outbound channels of one audience: the moderator's, or one member's.
pub struct Connections {
    senders: Vec<Entry>,
    hist: Ghost<Seq<Seq<u8>>>,
}

impl Connections {
    /// Every message this audience was ever sent, oldest first.
    pub closed spec fn history(&self) -> Seq<Seq<u8>> {
        self.hist@
    }

    /// How many channels the set currently holds, live or marked dead.
    pub closed spec fn count(&self) -> nat {
        self.senders@.len()
    }

    /// The channel handles the set currently holds, in registration order.
    pub closed spec fn channels(&self) -> Seq<tokio::sync::mpsc::Sender<Vec<u8>>> {
        chans_of(self.senders@)
    }

    /// Each held channel's liveness flag, in the same order.
    pub closed spec fn flags(&self) -> Seq<bool> {
        self.senders@.map_values(|e: Entry| e.live)
    }

    /// The channels currently flagged live, in order.
    pub closed spec fn live_channels(&self) -> Seq<tokio::sync::mpsc::Sender<Vec<u8>>> {
        live_chans_of(self.senders@)
    }

    /// An empty fan-out: no channels, nothing sent yet.
    pub fn new() -> (r: Self)
        ensures
            r.history() == Seq::<Seq<u8>>::empty(),
            r.count() == 0,
            r.channels() == Seq::<tokio::sync::mpsc::Sender<Vec<u8>>>::empty(),
            r.flags() == Seq::<bool>::empty(),
    {
        let r = Connections { senders: Vec::new(), hist: Ghost(Seq::empty()) };
        proof {
            assert(r.channels() =~= Seq::<tokio::sync::mpsc::Sender<Vec<u8>>>::empty());
            assert(r.flags() =~= Seq::<bool>::empty());
        }
        r
    }

    /// Registers a new outbound channel, initially live.
    pub fn push(&mut self, sender: tokio::sync::mpsc::Sender<Vec<u8>>)
        ensures
            final(self).history() == old(self).history(),
            final(self).count() == old(self).count() + 1,
            final(self).channels() == old(self).channels().push(sender),
            final(self).flags() == old(self).flags().push(true),
    {
        self.senders.push(Entry { sender, live: true });
        proof {
            assert(self.channels() =~= old(self).channels().push(sender));
            assert(self.flags() =~= old(self).flags().push(true));
        }
    }

    /// Hands one message to every channel of the set: a channel flagged
    /// live gets a non-blocking enqueue and is flagged dead when that
    /// fails; a channel already flagged dead is dropped on this pass and
    /// receives nothing.  Afterwards the set holds exactly the channels
    /// that were flagged live at entry, in order.
    pub fn send(&mut self, message: &Vec<u8>)
        ensures
            final(self).history() == old(self).history().push(message@),
            final(self).channels() == old(self).live_channels(),
            final(self).count() <= old(self).count(),
    {
        let ghost pre = self.senders@;
        let ghost k: int = 0;
        let mut index: usize = 0;
        while index < self.senders.len()
            invariant
                0 <= k <= pre.len(),
                index <= self.senders@.len(),
                self.senders@.len() == index + pre.len() - k,
                chans_of(self.senders@.subrange(0, index as int)) =~= live_chans_of(
                    pre.subrange(0, k),
                ),
                self.senders@.subrange(index as int, self.senders@.len() as int) =~= pre.subrange(
                    k,
                    pre.len() as int,
                ),
                self.hist == old(self).hist,
                pre == old(self).senders@,
            decreases pre.len() - k,
        {
            let ghost svp = self.senders@;
            proof {
                assert(pre.subrange(k, pre.len() as int)[0] == pre[k]);
                assert(svp[index as int] == pre[k]);
                assert(pre.subrange(0, k + 1).drop_last() =~= pre.subrange(0, k));
                assert(pre.subrange(0, k + 1).last() == pre[k]);
            }
            if self.senders[index].live {
                let ok = try_send_bytes(&self.senders[index].sender, copy_bytes(message));
                if !ok {
                    self.senders[index].live = false;
                }
                index += 1;
                proof {
                    k = k + 1;
                    assert(pre[k - 1].live);
                    assert(live_chans_of(pre.subrange(0, k)) == live_chans_of(
                        pre.subrange(0, k - 1),
                    ).push(pre[k - 1].sender));
                    assert(self.senders@[(index - 1) as int].sender == pre[k - 1].sender);
                    assert(self.senders@.subrange(0, (index - 1) as int) =~= svp.subrange(
                        0,
                        (index - 1) as int,
                    ));
                    assert(self.senders@.subrange(0, index as int) =~= self.senders@.subrange(
                        0,
                        (index - 1) as int,
                    ).push(self.senders@[(index - 1) as int]));
                    assert(chans_of(self.senders@.subrange(0, index as int)) =~= chans_of(
                        svp.subrange(0, (index - 1) as int),
                    ).push(pre[k - 1].sender));
                    assert(chans_of(self.senders@.subrange(0, index as int)) =~= live_chans_of(
                        pre.subrange(0, k),
                    ));
                    assert_seqs_equal!(
                        self.senders@.subrange(index as int, self.senders@.len() as int)
                            == pre.subrange(k, pre.len() as int),
                        m => {
                            assert(self.senders@[index + m] == svp[index + m]);
                            assert(svp[index + m] == svp.subrange(
                                (index - 1) as int,
                                svp.len() as int,
                            )[m + 1]);
                            assert(pre.subrange(k - 1, pre.len() as int)[m + 1] == pre[k + m]);
                        }
                    );
                }
            } else {
                self.senders.remove(index);
                proof {
                    k = k + 1;
                    assert(!pre[k - 1].live);
                    assert(live_chans_of(pre.subrange(0, k)) == live_chans_of(
                        pre.subrange(0, k - 1),
                    ));
                    assert(self.senders@.subrange(0, index as int) =~= svp.subrange(
                        0,
                        index as int,
                    ));
                    assert(chans_of(self.senders@.subrange(0, index as int)) =~= live_chans_of(
                        pre.subrange(0, k),
                    ));
                    assert_seqs_equal!(
                        self.senders@.subrange(index as int, self.senders@.len() as int)
                            == pre.subrange(k, pre.len() as int),
                        m => {
                            assert(self.senders@[index + m] == svp[index + m + 1]);
                            assert(svp[index + m + 1] == svp.subrange(
                                index as int,
                                svp.len() as int,
                            )[m + 1]);
                            assert(pre.subrange(k - 1, pre.len() as int)[m + 1] == pre[k + m]);
                        }
                    );
                }
            }
        }
        proof {
            assert(pre.subrange(0, pre.len() as int) =~= pre);
            assert(self.senders@.subrange(0, index as int) =~= self.senders@);
            assert(self.channels() =~= live_chans_of(pre));
            lemma_live_chans_len(pre);
            self.hist@ = self.hist@.push(message@);
        }
    }

    /// Drops every channel unconditionally; used when a slot is kicked.
    pub fn close(&mut self)
        ensures
            final(self).history() == old(self).history(),
            final(self).count() == 0,
            final(self).channels() == Seq::<tokio::sync::mpsc::Sender<Vec<u8>>>::empty(),
    {
        self.senders.clear();
        proof {
            assert(self.channels() =~= Seq::<tokio::sync::mpsc::Sender<Vec<u8>>>::empty());
        }
    }
}

} // verus!
