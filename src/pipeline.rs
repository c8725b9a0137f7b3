use vstd::prelude::*;
use std::collections::VecDeque;
use crate::command::Command;
use crate::message::Commands;

verus! {

/// The ids of a sequence of pending entries.
pub open spec fn ids_of(p: Seq<(u64, usize)>) -> Seq<u64> {
    p.map_values(|e: (u64, usize)| e.0)
}

/// The replies awaited on one connection, in the order in which the
/// messages were written. Each entry holds a message id and how many
/// replies that message waits for; the replies gathered so far for the
/// oldest entry are held until it is complete.
pub struct ReplyQueue<R> {
    pending: VecDeque<(u64, usize)>,
    current: Vec<R>,
    /// Ids of the messages that were accepted and wait for a reply, in
    /// submission order.
    submitted: Ghost<Seq<u64>>,
    /// Ids of the messages whose reply channel was filled, with a value or
    /// with a failure, in the order in which that happened.
    resolved: Ghost<Seq<u64>>,
}

/// What one reply frame did to the queue.
pub enum ReplyOutcome<R> {
    /// The frame completed a message: all of its replies, in command order.
    Delivered { id: u64, replies: Vec<R> },
    /// The frame was kept; the oldest message waits for more.
    Waiting,
    /// No message waited for a reply; the frame is handed back.
    Unexpected(R),
}

impl<R> ReplyQueue<R> {
    pub closed spec fn pending(&self) -> Seq<(u64, usize)> {
        self.pending@
    }

    pub closed spec fn current(&self) -> Seq<R> {
        self.current@
    }

    pub closed spec fn submitted(&self) -> Seq<u64> {
        self.submitted@
    }

    pub closed spec fn resolved(&self) -> Seq<u64> {
        self.resolved@
    }

    pub open spec fn wf(&self) -> bool {
        &&& forall|i: int| 0 <= i < self.pending().len() ==> self.pending()[i].1 > 0
        &&& self.pending().len() == 0 ==> self.current().len() == 0
        &&& self.pending().len() > 0 ==> self.current().len() < self.pending()[0].1
        &&& self.resolved() + ids_of(self.pending()) == self.submitted()
    }

    /// An empty queue.
    pub fn new() -> (r: Self)
        ensures
            r.wf(),
            r.pending().len() == 0,
            r.submitted().len() == 0,
            r.resolved().len() == 0,
    {
        let r = ReplyQueue {
            pending: VecDeque::new(),
            current: Vec::new(),
            submitted: Ghost(Seq::empty()),
            resolved: Ghost(Seq::empty()),
        };
        proof {
            assert(ids_of(r.pending@) =~= Seq::<u64>::empty());
            assert(r.resolved() + ids_of(r.pending()) =~= r.submitted());
        }
        r
    }

    /// Records a message that was written to the connection and waits for
    /// `expected` replies. A message without commands waits for none and is
    /// not queued.
    pub fn submit(&mut self, id: u64, expected: usize)
        requires
            old(self).wf(),
        ensures
            final(self).wf(),
            final(self).current() == old(self).current(),
            final(self).resolved() == old(self).resolved(),
            expected > 0 ==> final(self).pending() == old(self).pending().push((id, expected)),
            expected > 0 ==> final(self).submitted() == old(self).submitted().push(id),
            expected == 0 ==> final(self).pending() == old(self).pending(),
            expected == 0 ==> final(self).submitted() == old(self).submitted(),
    {
        if expected > 0 {
            self.pending.push_back((id, expected));
            self.submitted = Ghost(self.submitted@.push(id));
            proof {
                assert(ids_of(self.pending@) =~= ids_of(old(self).pending@).push(id));
                assert(self.resolved() + ids_of(self.pending()) =~= self.submitted());
            }
        }
    }

    /// Takes in one reply frame (push frames never come here) and hands it
    /// to the oldest waiting message.
    pub fn receive(&mut self, reply: R) -> (r: ReplyOutcome<R>)
        requires
            old(self).wf(),
        ensures
            final(self).wf(),
            final(self).submitted() == old(self).submitted(),
            old(self).pending().len() == 0 ==> r == ReplyOutcome::Unexpected(reply)
                && final(self).pending() == old(self).pending()
                && final(self).resolved() == old(self).resolved(),
            old(self).pending().len() > 0 && old(self).current().len() + 1
                == old(self).pending()[0].1 ==> {
                &&& r matches ReplyOutcome::Delivered { id, replies }
                &&& id == old(self).pending()[0].0
                &&& replies@ == old(self).current().push(reply)
                &&& replies@.len() == old(self).pending()[0].1
                &&& final(self).pending() == old(self).pending().drop_first()
                &&& final(self).current().len() == 0
                &&& final(self).resolved() == old(self).resolved().push(id)
            },
            old(self).pending().len() > 0 && old(self).current().len() + 1
                < old(self).pending()[0].1 ==> {
                &&& r is Waiting
                &&& final(self).pending() == old(self).pending()
                &&& final(self).current() == old(self).current().push(reply)
                &&& final(self).resolved() == old(self).resolved()
            },
    {
        if self.pending.len() == 0 {
            return ReplyOutcome::Unexpected(reply);
        }
        let expected = self.pending[0].1;
        self.current.push(reply);
        if self.current.len() == expected {
            let (id, _) = self.pending.pop_front().unwrap();
            let mut replies: Vec<R> = Vec::new();
            std::mem::swap(&mut replies, &mut self.current);
            self.resolved = Ghost(self.resolved@.push(id));
            proof {
                assert(ids_of(old(self).pending@) =~= seq![id] + ids_of(self.pending@));
                assert(self.resolved() + ids_of(self.pending()) =~= self.submitted());
            }
            ReplyOutcome::Delivered { id, replies }
        } else {
            ReplyOutcome::Waiting
        }
    }

    /// The connection was lost: every waiting message is resolved with a
    /// failure. Returns their ids in submission order, and how many replies
    /// the oldest had already received.
    pub fn fail_all(&mut self) -> (r: (Vec<u64>, usize))
        requires
            old(self).wf(),
        ensures
            final(self).wf(),
            r.0@ == ids_of(old(self).pending()),
            r.1 == old(self).current().len(),
            final(self).pending().len() == 0,
            final(self).submitted() == old(self).submitted(),
            final(self).resolved() == old(self).submitted(),
    {
        let received = self.current.len();
        let mut ids: Vec<u64> = Vec::new();
        while self.pending.len() > 0
            invariant
                ids@ + ids_of(self.pending@) == ids_of(old(self).pending@),
                self.submitted@ == old(self).submitted@,
            decreases self.pending@.len(),
        {
            let ghost before = self.pending@;
            let (id, _) = self.pending.pop_front().unwrap();
            ids.push(id);
            proof {
                assert(ids_of(before) =~= seq![id] + ids_of(self.pending@));
                assert(ids@ + ids_of(self.pending@) =~= ids_of(old(self).pending@));
            }
        }
        self.current = Vec::new();
        self.resolved = Ghost(self.submitted@);
        proof {
            assert(ids_of(self.pending@) =~= Seq::<u64>::empty());
            assert(ids@ =~= ids_of(old(self).pending@));
            assert(self.resolved() + ids_of(self.pending()) =~= self.submitted());
        }
        (ids, received)
    }
}

/// Messages are resolved in the order in which they were submitted: the
/// resolved ids are always a prefix of the submitted ones.
pub proof fn lemma_resolution_order<R>(q: &ReplyQueue<R>)
    requires
        q.wf(),
    ensures
        q.resolved().len() <= q.submitted().len(),
        q.resolved() == q.submitted().subrange(0, q.resolved().len() as int),
{
    assert(q.submitted().subrange(0, q.resolved().len() as int) =~= q.resolved());
}

/// No message is resolved twice: when the submitted ids are distinct, so
/// are the resolved ones, and each resolved id was submitted.
pub proof fn lemma_resolved_at_most_once<R>(q: &ReplyQueue<R>)
    requires
        q.wf(),
        q.submitted().no_duplicates(),
    ensures
        q.resolved().no_duplicates(),
        forall|i: int| 0 <= i < q.resolved().len() ==> q.submitted().contains(#[trigger] q.resolved()[i]),
{
    lemma_resolution_order(q);
    assert forall|i: int, j: int|
        0 <= i < q.resolved().len() && 0 <= j < q.resolved().len() && i != j
        implies q.resolved()[i] != q.resolved()[j] by {
        assert(q.resolved()[i] == q.submitted()[i]);
        assert(q.resolved()[j] == q.submitted()[j]);
    }
    assert forall|i: int| 0 <= i < q.resolved().len() implies q.submitted().contains(
        #[trigger] q.resolved()[i]) by {
        assert(q.resolved()[i] == q.submitted()[i]);
    }
}

/// Whether every command of a message may be sent again.
pub open spec fn all_retryable(cmds: Seq<Command>) -> bool {
    forall|i: int| 0 <= i < cmds.len() ==> cmds[i].retry_on_error
}

/// After a disconnection a waiting message is sent again only if each of its
/// commands opted in and none of its replies had arrived; otherwise it fails.
pub fn resend_after_disconnect(commands: &Commands, replies_received: usize) -> (r: bool)
    ensures
        r == (all_retryable(commands@) && replies_received == 0),
{
    if replies_received != 0 {
        return false;
    }
    let mut it = commands.iter();
    let ghost all = commands@;
    let ghost mut k: int = 0;
    loop
        invariant
            all == commands@,
            replies_received == 0,
            it.wf(),
            0 <= k <= all.len(),
            it@ == all.subrange(k, all.len() as int),
            forall|i: int| 0 <= i < k ==> all[i].retry_on_error,
        decreases it@.len(),
    {
        match it.next() {
            None => {
                proof {
                    assert(k == all.len());
                    assert(all_retryable(all));
                }
                return true;
            },
            Some(c) => {
                if !c.retry_on_error {
                    proof {
                        assert(all[k] == *c);
                        assert(!all[k].retry_on_error);
                    }
                    return false;
                }
                proof {
                    k = k + 1;
                    assert(it@ =~= all.subrange(k, all.len() as int));
                }
            },
        }
    }
}

} // verus!
