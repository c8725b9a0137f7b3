use vstd::prelude::*;
use smallvec::SmallVec;
use std::collections::VecDeque;
use crate::command::Command;

verus! {

/// The commands carried by one message: none, one, or a batch that must be
/// written to the connection without interleaving.
pub enum Commands {
    Empty,
    Single(Command),
    Batch(Vec<Command>),
}

impl Commands {
    /// The commands in the order in which they are sent.
    pub open spec fn view(&self) -> Seq<Command> {
        match self {
            Commands::Empty => Seq::empty(),
            Commands::Single(c) => seq![*c],
            Commands::Batch(v) => v@,
        }
    }

    /// The number of commands, and so the number of replies the message
    /// waits for.
    pub fn len(&self) -> (r: usize)
        ensures
            r == self@.len(),
    {
        match self {
            Commands::Empty => 0,
            Commands::Single(_) => 1,
            Commands::Batch(commands) => commands.len(),
        }
    }

    /// Consumes the commands, yielding them one by one in order.
    pub fn into_iter(self) -> (r: CommandsIterator)
        ensures
            r@ == self@,
    {
        match self {
            Commands::Empty => CommandsIterator::Single(None),
            Commands::Single(command) => CommandsIterator::Single(Some(command)),
            Commands::Batch(commands) => {
                let mut d: VecDeque<Command> = VecDeque::new();
                let mut rest = commands;
                let ghost all = rest@;
                while rest.len() > 0
                    invariant
                        rest@ + d@ == all,
                    decreases rest.len(),
                {
                    let c = rest.pop().unwrap();
                    d.push_front(c);
                    proof {
                        assert(rest@ + d@ =~= all);
                    }
                }
                proof {
                    assert(rest@ + d@ =~= d@);
                }
                CommandsIterator::Batch(d)
            },
        }
    }

    /// Walks the commands by reference, in order.
    pub fn iter(&self) -> (r: RefCommandsIterator<'_>)
        ensures
            r.wf(),
            r@ == self@,
    {
        match self {
            Commands::Empty => RefCommandsIterator::Single(None),
            Commands::Single(command) => RefCommandsIterator::Single(Some(command)),
            Commands::Batch(commands) => RefCommandsIterator::Batch(commands, 0),
        }
    }
}

/// Owned iteration over `Commands`.
pub enum CommandsIterator {
    Single(Option<Command>),
    Batch(VecDeque<Command>),
}

impl CommandsIterator {
    /// The commands not yet handed out.
    pub open spec fn view(&self) -> Seq<Command> {
        match self {
            CommandsIterator::Single(None) => Seq::empty(),
            CommandsIterator::Single(Some(c)) => seq![*c],
            CommandsIterator::Batch(d) => d@,
        }
    }

    /// Hands out the next command, if any is left.
    pub fn next(&mut self) -> (r: Option<Command>)
        ensures
            old(self)@.len() == 0 ==> r is None && final(self)@ == old(self)@,
            old(self)@.len() > 0 ==> r == Some(old(self)@[0]) && final(self)@ == old(self)@.drop_first(),
    {
        match self {
            CommandsIterator::Single(command) => command.take(),
            CommandsIterator::Batch(d) => d.pop_front(),
        }
    }
}

/// Iteration by reference over `Commands`.
pub enum RefCommandsIterator<'a> {
    Single(Option<&'a Command>),
    Batch(&'a Vec<Command>, usize),
}

impl<'a> RefCommandsIterator<'a> {
    pub open spec fn wf(&self) -> bool {
        match self {
            RefCommandsIterator::Single(_) => true,
            RefCommandsIterator::Batch(v, pos) => *pos <= v@.len(),
        }
    }

    /// The commands not yet handed out.
    pub open spec fn view(&self) -> Seq<Command> {
        match self {
            RefCommandsIterator::Single(None) => Seq::empty(),
            RefCommandsIterator::Single(Some(c)) => seq![**c],
            RefCommandsIterator::Batch(v, pos) => v@.subrange(*pos as int, v@.len() as int),
        }
    }

    /// Hands out the next command, if any is left.
    pub fn next(&mut self) -> (r: Option<&'a Command>)
        requires
            old(self).wf(),
        ensures
            final(self).wf(),
            old(self)@.len() == 0 ==> r is None && final(self)@ == old(self)@,
            old(self)@.len() > 0 ==> r is Some && *r->0 == old(self)@[0]
                && final(self)@ == old(self)@.drop_first(),
    {
        match self {
            RefCommandsIterator::Single(command) => command.take(),
            RefCommandsIterator::Batch(v, pos) => {
                if *pos < v.len() {
                    let c = &v[*pos];
                    *pos = *pos + 1;
                    proof {
                        assert(self@ =~= old(self)@.drop_first());
                    }
                    Some(c)
                } else {
                    None
                }
            },
        }
    }
}

/// Why a message had to be sent again.
#[derive(Debug)]
pub enum RetryReason {
    Disconnect,
    Moved { slot: u16, address: String },
    Ask { slot: u16, address: String },
    TryAgain,
    ClusterDown,
    ReadOnly,
    MasterDown,
}

/// The most reasons a message may gather; one more is a terminal failure.
pub const MAX_RETRY_REASONS: usize = 10;

/// The reasons gathered by one message across its attempts, kept inline
/// up to the bound.
#[verifier::external_body]
pub struct RetryReasons {
    inner: SmallVec<[RetryReason; 10]>,
}

/// The reasons held by a `RetryReasons`, oldest first.
pub uninterp spec fn reasons_of(r: RetryReasons) -> Seq<RetryReason>;

impl RetryReasons {
    pub open spec fn view(&self) -> Seq<RetryReason> {
        reasons_of(*self)
    }

    /// Relies on `SmallVec::new`: an empty vector.
    #[verifier::external_body]
    pub fn new() -> (r: RetryReasons)
        ensures
            reasons_of(r) == Seq::<RetryReason>::empty(),
    {
        RetryReasons { inner: SmallVec::new() }
    }

    /// Relies on `SmallVec::push`: the item is appended at the end.
    #[verifier::external_body]
    fn push(&mut self, reason: RetryReason)
        ensures
            reasons_of(*final(self)) == reasons_of(*old(self)).push(reason),
    {
        self.inner.push(reason)
    }

    /// Relies on `SmallVec::len`: the number of items held.
    #[verifier::external_body]
    pub fn len(&self) -> (r: usize)
        ensures
            r == reasons_of(*self).len(),
    {
        self.inner.len()
    }

    /// Relies on indexing a `SmallVec`: the item at that position.
    #[verifier::external_body]
    pub fn get(&self, i: usize) -> (r: &RetryReason)
        requires
            i < reasons_of(*self).len(),
        ensures
            *r == reasons_of(*self)[i as int],
    {
        &self.inner[i]
    }
}

/// A message that already holds the most reasons allowed was refused
/// another attempt.
#[derive(Debug, Clone, Copy, PartialEq, Eq)]
pub struct TooManyRetries;

/// One unit of work for a connection: the commands to send, where the reply
/// goes (`V`), the pub/sub sinks to install once the server acknowledges
/// (`P`, keyed by channel or pattern), the sink for out-of-band pushes
/// (`S`), and the reasons for which it was sent again.
pub struct Message<V, P, S> {
    pub commands: Commands,
    pub value_sender: Option<V>,
    pub pub_sub_senders: Option<Vec<(Vec<u8>, P)>>,
    pub push_sender: Option<S>,
    pub retry_reasons: Option<RetryReasons>,
}

impl<V, P, S> Message<V, P, S> {
    /// The reasons gathered so far; none before the first retry.
    pub open spec fn reasons(&self) -> Seq<RetryReason> {
        match self.retry_reasons {
            Some(r) => r@,
            None => Seq::empty(),
        }
    }

    pub open spec fn wf(&self) -> bool {
        self.reasons().len() <= MAX_RETRY_REASONS
    }

    /// One command whose reply goes to `value_sender`.
    pub fn single(command: Command, value_sender: V) -> (r: Self)
        ensures
            r.wf(),
            r.commands == Commands::Single(command),
            r.value_sender == Some(value_sender),
            r.pub_sub_senders is None,
            r.push_sender is None,
            r.retry_reasons is None,
    {
        Message {
            commands: Commands::Single(command),
            value_sender: Some(value_sender),
            pub_sub_senders: None,
            push_sender: None,
            retry_reasons: None,
        }
    }

    /// One command whose reply nobody waits for.
    pub fn single_forget(command: Command) -> (r: Self)
        ensures
            r.wf(),
            r.commands == Commands::Single(command),
            r.value_sender is None,
            r.pub_sub_senders is None,
            r.push_sender is None,
            r.retry_reasons is None,
    {
        Message {
            commands: Commands::Single(command),
            value_sender: None,
            pub_sub_senders: None,
            push_sender: None,
            retry_reasons: None,
        }
    }

    /// A batch whose replies go together, in command order, to
    /// `value_sender`.
    pub fn batch(commands: Vec<Command>, value_sender: V) -> (r: Self)
        ensures
            r.wf(),
            r.commands == Commands::Batch(commands),
            r.value_sender == Some(value_sender),
            r.pub_sub_senders is None,
            r.push_sender is None,
            r.retry_reasons is None,
    {
        Message {
            commands: Commands::Batch(commands),
            value_sender: Some(value_sender),
            pub_sub_senders: None,
            push_sender: None,
            retry_reasons: None,
        }
    }

    /// A subscribe command, with the sinks to install for each channel or
    /// pattern once the server acknowledges it.
    pub fn pub_sub(command: Command, value_sender: V, pub_sub_senders: Vec<(Vec<u8>, P)>) -> (r: Self)
        ensures
            r.wf(),
            r.commands == Commands::Single(command),
            r.value_sender == Some(value_sender),
            r.pub_sub_senders == Some(pub_sub_senders),
            r.push_sender is None,
            r.retry_reasons is None,
    {
        Message {
            commands: Commands::Single(command),
            value_sender: Some(value_sender),
            pub_sub_senders: Some(pub_sub_senders),
            push_sender: None,
            retry_reasons: None,
        }
    }

    /// A MONITOR command: its reply goes to `value_sender`, the events that
    /// follow to `push_sender`.
    pub fn monitor(command: Command, value_sender: V, push_sender: S) -> (r: Self)
        ensures
            r.wf(),
            r.commands == Commands::Single(command),
            r.value_sender == Some(value_sender),
            r.pub_sub_senders is None,
            r.push_sender == Some(push_sender),
            r.retry_reasons is None,
    {
        Message {
            commands: Commands::Single(command),
            value_sender: Some(value_sender),
            pub_sub_senders: None,
            push_sender: Some(push_sender),
            retry_reasons: None,
        }
    }

    /// Registers the sink for tracking invalidations; sends nothing.
    pub fn client_tracking_invalidation(push_sender: S) -> (r: Self)
        ensures
            r.wf(),
            r.commands == Commands::Empty,
            r.value_sender is None,
            r.pub_sub_senders is None,
            r.push_sender == Some(push_sender),
            r.retry_reasons is None,
    {
        Message {
            commands: Commands::Empty,
            value_sender: None,
            pub_sub_senders: None,
            push_sender: Some(push_sender),
            retry_reasons: None,
        }
    }

    /// Records why the message is sent again. A message that already holds
    /// the most reasons allowed is refused, and keeps what it had.
    pub fn add_retry_reason(&mut self, reason: RetryReason) -> (r: Result<(), TooManyRetries>)
        requires
            old(self).wf(),
        ensures
            final(self).wf(),
            final(self).commands == old(self).commands,
            final(self).value_sender == old(self).value_sender,
            final(self).pub_sub_senders == old(self).pub_sub_senders,
            final(self).push_sender == old(self).push_sender,
            old(self).reasons().len() < MAX_RETRY_REASONS <==> r is Ok,
            r is Ok ==> final(self).reasons() == old(self).reasons().push(reason),
            r is Err ==> final(self).reasons() == old(self).reasons(),
    {
        let mut reasons = match self.retry_reasons.take() {
            Some(r) => r,
            None => RetryReasons::new(),
        };
        let r = if reasons.len() < MAX_RETRY_REASONS {
            reasons.push(reason);
            Ok(())
        } else {
            Err(TooManyRetries)
        };
        self.retry_reasons = Some(reasons);
        r
    }
}

} // verus!
