use vstd::prelude::*;
use crate::command::Command;

verus! {

/// The three kinds of subscription a connection keeps across reconnects.
#[derive(PartialEq, Eq, Structural, Clone, Copy, Debug)]
pub enum SubscriptionKind {
    Channel,
    Pattern,
    ShardChannel,
}

/// The name of the command that subscribes to names of a kind:
/// SUBSCRIBE, PSUBSCRIBE or SSUBSCRIBE.
pub open spec fn subscribe_name(kind: SubscriptionKind) -> Seq<u8> {
    match kind {
        SubscriptionKind::Channel => seq![0x53u8, 0x55, 0x42, 0x53, 0x43, 0x52, 0x49, 0x42, 0x45],
        SubscriptionKind::Pattern => seq![0x50u8, 0x53, 0x55, 0x42, 0x53, 0x43, 0x52, 0x49, 0x42, 0x45],
        SubscriptionKind::ShardChannel => seq![0x53u8, 0x53, 0x55, 0x42, 0x53, 0x43, 0x52, 0x49, 0x42, 0x45],
    }
}

/// The byte strings held by a vector of byte strings.
pub open spec fn names_set(v: Seq<Vec<u8>>) -> Set<Seq<u8>> {
    Set::new(|a: Seq<u8>| exists|i: int| 0 <= i < v.len() && #[trigger] v[i]@ == a)
}

/// The names that a sequence of acknowledged commands subscribed to, for
/// one kind: the union of the arguments of those of its commands that
/// subscribe to that kind.
pub open spec fn acked(cmds: Seq<Command>, kind: SubscriptionKind) -> Set<Seq<u8>>
    decreases cmds.len(),
{
    if cmds.len() == 0 {
        Set::empty()
    } else {
        let prev = acked(cmds.drop_last(), kind);
        if cmds.last().name@ == subscribe_name(kind) {
            prev.union(names_set(cmds.last().args@))
        } else {
            prev
        }
    }
}

/// Whether two byte strings are equal.
pub fn bytes_eq(a: &[u8], b: &[u8]) -> (r: bool)
    ensures
        r == (a@ == b@),
{
    if a.len() != b.len() {
        return false;
    }
    let mut i: usize = 0;
    while i < a.len()
        invariant
            a@.len() == b@.len(),
            i <= a@.len(),
            forall|j: int| 0 <= j < i ==> a@[j] == b@[j],
        decreases a@.len() - i,
    {
        if a[i] != b[i] {
            return false;
        }
        i = i + 1;
    }
    proof {
        assert(a@ =~= b@);
    }
    true
}

fn copy_bytes(a: &[u8]) -> (r: Vec<u8>)
    ensures
        r@ == a@,
{
    let mut r: Vec<u8> = Vec::new();
    let mut i: usize = 0;
    while i < a.len()
        invariant
            i <= a@.len(),
            r@ == a@.subrange(0, i as int),
        decreases a@.len() - i,
    {
        r.push(a[i]);
        i = i + 1;
        proof {
            assert(r@ =~= a@.subrange(0, i as int));
        }
    }
    proof {
        assert(a@.subrange(0, a@.len() as int) =~= a@);
    }
    r
}

fn copy_names(v: &Vec<Vec<u8>>) -> (r: Vec<Vec<u8>>)
    ensures
        r@.len() == v@.len(),
        forall|i: int| 0 <= i < v@.len() ==> #[trigger] r@[i]@ == v@[i]@,
        names_set(r@) == names_set(v@),
{
    let mut r: Vec<Vec<u8>> = Vec::new();
    let mut i: usize = 0;
    while i < v.len()
        invariant
            i <= v@.len(),
            r@.len() == i,
            forall|j: int| 0 <= j < i ==> #[trigger] r@[j]@ == v@[j]@,
        decreases v@.len() - i,
    {
        r.push(copy_bytes(v[i].as_slice()));
        i = i + 1;
    }
    proof {
        assert(names_set(r@) =~= names_set(v@)) by {
            assert forall|a: Seq<u8>| names_set(v@).contains(a) implies names_set(r@).contains(a) by {
                let j = choose|j: int| 0 <= j < v@.len() && #[trigger] v@[j]@ == a;
                assert(r@[j]@ == a);
            }
        }
    }
    r
}

/// A set of byte-string names kept without repetition, in the order in
/// which they were first added.
pub struct NameSet {
    names: Vec<Vec<u8>>,
}

impl NameSet {
    pub closed spec fn view(&self) -> Set<Seq<u8>> {
        names_set(self.names@)
    }

    /// An empty set.
    pub fn new() -> (r: NameSet)
        ensures
            r@ == Set::<Seq<u8>>::empty(),
    {
        let r = NameSet { names: Vec::new() };
        proof {
            assert(r@ =~= Set::<Seq<u8>>::empty());
        }
        r
    }

    /// The number of names held.
    pub fn len(&self) -> (r: usize)
        ensures
            r == 0 <==> self@.is_empty(),
    {
        proof {
            if self.names@.len() > 0 {
                assert(self@.contains(self.names@[0]@));
            }
        }
        self.names.len()
    }

    /// Whether `name` is held.
    pub fn contains(&self, name: &[u8]) -> (r: bool)
        ensures
            r == self@.contains(name@),
    {
        let mut i: usize = 0;
        while i < self.names.len()
            invariant
                i <= self.names@.len(),
                forall|j: int| 0 <= j < i ==> #[trigger] self.names@[j]@ != name@,
            decreases self.names@.len() - i,
        {
            if bytes_eq(self.names[i].as_slice(), name) {
                return true;
            }
            i = i + 1;
        }
        false
    }

    /// Adds `name`.
    pub fn insert(&mut self, name: &[u8])
        ensures
            final(self)@ == old(self)@.insert(name@),
    {
        if !self.contains(name) {
            self.names.push(copy_bytes(name));
            proof {
                let n = self.names@.len() - 1;
                assert(self.names@[n]@ == name@);
                assert forall|a: Seq<u8>| old(self)@.contains(a) implies self@.contains(a) by {
                    let j = choose|j: int| 0 <= j < old(self).names@.len() && #[trigger] old(self).names@[j]@ == a;
                    assert(self.names@[j]@ == a);
                }
                assert forall|a: Seq<u8>| self@.contains(a) implies old(self)@.contains(a) || a == name@ by {
                    let j = choose|j: int| 0 <= j < self.names@.len() && #[trigger] self.names@[j]@ == a;
                    if j < n {
                        assert(old(self).names@[j]@ == a);
                    }
                }
                assert(self@ =~= old(self)@.insert(name@));
            }
        } else {
            proof {
                assert(self@ =~= old(self)@.insert(name@));
            }
        }
    }

    /// Takes out `name`.
    pub fn remove(&mut self, name: &[u8])
        ensures
            final(self)@ == old(self)@.remove(name@),
    {
        let mut kept: Vec<Vec<u8>> = Vec::new();
        let mut i: usize = 0;
        let ghost old_names = self.names@;
        while i < self.names.len()
            invariant
                self.names@ == old_names,
                i <= old_names.len(),
                names_set(kept@) == names_set(old_names.subrange(0, i as int)).remove(name@),
            decreases old_names.len() - i,
        {
            let ghost prev = kept@;
            let keep = !bytes_eq(self.names[i].as_slice(), name);
            if keep {
                kept.push(copy_bytes(self.names[i].as_slice()));
            }
            proof {
                let sub = old_names.subrange(0, i as int);
                let sub1 = old_names.subrange(0, i + 1);
                assert forall|a: Seq<u8>| names_set(sub1).contains(a) implies names_set(sub).contains(a)
                    || a == old_names[i as int]@ by {
                    let j = choose|j: int| 0 <= j < sub1.len() && #[trigger] sub1[j]@ == a;
                    if j < i {
                        assert(sub[j]@ == a);
                    }
                }
                assert forall|a: Seq<u8>| names_set(sub).contains(a) implies names_set(sub1).contains(a) by {
                    let j = choose|j: int| 0 <= j < sub.len() && #[trigger] sub[j]@ == a;
                    assert(sub1[j]@ == a);
                }
                assert(sub1[i as int]@ == old_names[i as int]@);
                assert(names_set(sub1).contains(old_names[i as int]@));
                if keep {
                    let n = kept@.len() - 1;
                    assert(kept@[n]@ == old_names[i as int]@);
                    assert forall|a: Seq<u8>| names_set(prev).contains(a) implies names_set(kept@).contains(a) by {
                        let j = choose|j: int| 0 <= j < prev.len() && #[trigger] prev[j]@ == a;
                        assert(kept@[j]@ == a);
                    }
                    assert forall|a: Seq<u8>| names_set(kept@).contains(a) implies names_set(prev).contains(a)
                        || a == old_names[i as int]@ by {
                        let j = choose|j: int| 0 <= j < kept@.len() && #[trigger] kept@[j]@ == a;
                        if j < n {
                            assert(prev[j]@ == a);
                        }
                    }
                }
                assert forall|a: Seq<u8>| #[trigger] names_set(kept@).contains(a) == names_set(sub1).remove(
                    name@).contains(a) by {
                    let x = old_names[i as int]@;
                    assert(names_set(prev) == names_set(sub).remove(name@));
                    if !keep {
                        assert(kept@ == prev);
                        assert(x == name@);
                    } else {
                        assert(x != name@);
                        let n = kept@.len() - 1;
                        assert(kept@[n]@ == x);
                        assert(names_set(kept@).contains(x));
                    }
                    if names_set(sub1).contains(a) {
                        assert(names_set(sub).contains(a) || a == x);
                    }
                    if names_set(sub).contains(a) {
                        assert(names_set(sub1).contains(a));
                    }
                    if names_set(kept@).contains(a) && keep {
                        assert(names_set(prev).contains(a) || a == x);
                    }
                    if names_set(prev).contains(a) && keep {
                        assert(names_set(kept@).contains(a));
                    }
                }
                assert(names_set(kept@) =~= names_set(sub1).remove(name@));
            }
            i = i + 1;
        }
        self.names = kept;
        proof {
            assert(old_names.subrange(0, old_names.len() as int) =~= old_names);
        }
    }

    /// Takes out every name.
    pub fn clear(&mut self)
        ensures
            final(self)@ == Set::<Seq<u8>>::empty(),
    {
        self.names = Vec::new();
        proof {
            assert(self@ =~= Set::<Seq<u8>>::empty());
        }
    }

    /// The command that subscribes again to every name held.
    fn subscribe_command(&self, name: Vec<u8>) -> (r: Command)
        ensures
            r.name@ == name@,
            names_set(r.args@) == self@,
    {
        let c = Command::new(name);
        Command { name: c.name, args: copy_names(&self.names), retry_on_error: true }
    }
}

/// The bytes of the command that subscribes to names of a kind.
pub fn subscribe_command_name(kind: SubscriptionKind) -> (r: Vec<u8>)
    ensures
        r@ == subscribe_name(kind),
{
    let r = match kind {
        SubscriptionKind::Channel => vec![0x53u8, 0x55, 0x42, 0x53, 0x43, 0x52, 0x49, 0x42, 0x45],
        SubscriptionKind::Pattern => vec![0x50u8, 0x53, 0x55, 0x42, 0x53, 0x43, 0x52, 0x49, 0x42, 0x45],
        SubscriptionKind::ShardChannel => vec![0x53u8, 0x53, 0x55, 0x42, 0x53, 0x43, 0x52, 0x49, 0x42, 0x45],
    };
    proof {
        assert(r@ =~= subscribe_name(kind));
    }
    r
}

proof fn lemma_acked_push(cmds: Seq<Command>, c: Command)
    ensures
        forall|k: SubscriptionKind| #[trigger] acked(cmds.push(c), k) == if c.name@ == subscribe_name(k) {
            acked(cmds, k).union(names_set(c.args@))
        } else {
            acked(cmds, k)
        },
{
    assert(cmds.push(c).drop_last() =~= cmds);
}

proof fn lemma_names_distinct()
    ensures
        subscribe_name(SubscriptionKind::Channel) != subscribe_name(SubscriptionKind::Pattern),
        subscribe_name(SubscriptionKind::Channel) != subscribe_name(SubscriptionKind::ShardChannel),
        subscribe_name(SubscriptionKind::Pattern) != subscribe_name(SubscriptionKind::ShardChannel),
{
    assert(subscribe_name(SubscriptionKind::Channel)[0] != subscribe_name(SubscriptionKind::Pattern)[0]);
    assert(subscribe_name(SubscriptionKind::Channel)[1] != subscribe_name(SubscriptionKind::ShardChannel)[1]);
    assert(subscribe_name(SubscriptionKind::Pattern)[0] != subscribe_name(SubscriptionKind::ShardChannel)[0]);
}

/// The subscriptions of one connection: the sum of the acknowledged
/// subscribe commands minus the acknowledged unsubscribe commands.
pub struct Subscriptions {
    channels: NameSet,
    patterns: NameSet,
    shard_channels: NameSet,
}

impl Subscriptions {
    /// The names subscribed to, of one kind.
    pub closed spec fn active(&self, kind: SubscriptionKind) -> Set<Seq<u8>> {
        match kind {
            SubscriptionKind::Channel => self.channels@,
            SubscriptionKind::Pattern => self.patterns@,
            SubscriptionKind::ShardChannel => self.shard_channels@,
        }
    }

    /// No subscription.
    pub fn new() -> (r: Subscriptions)
        ensures
            forall|k: SubscriptionKind| #[trigger] r.active(k) == Set::<Seq<u8>>::empty(),
    {
        Subscriptions { channels: NameSet::new(), patterns: NameSet::new(), shard_channels: NameSet::new() }
    }

    fn add(set: &mut NameSet, names: &Vec<Vec<u8>>)
        ensures
            final(set)@ == old(set)@.union(names_set(names@)),
    {
        let mut i: usize = 0;
        while i < names.len()
            invariant
                i <= names@.len(),
                set@ == old(set)@.union(names_set(names@.subrange(0, i as int))),
            decreases names@.len() - i,
        {
            set.insert(names[i].as_slice());
            proof {
                let sub = names@.subrange(0, i as int);
                let sub1 = names@.subrange(0, i + 1);
                assert forall|a: Seq<u8>| #[trigger] names_set(sub1).contains(a) == (names_set(sub).contains(a)
                    || a == names@[i as int]@) by {
                    if names_set(sub1).contains(a) {
                        let j = choose|j: int| 0 <= j < sub1.len() && #[trigger] sub1[j]@ == a;
                        if j < i {
                            assert(sub[j]@ == a);
                        }
                    }
                    if names_set(sub).contains(a) {
                        let j = choose|j: int| 0 <= j < sub.len() && #[trigger] sub[j]@ == a;
                        assert(sub1[j]@ == a);
                    }
                    assert(sub1[i as int]@ == names@[i as int]@);
                }
                assert(set@ =~= old(set)@.union(names_set(sub1)));
            }
            i = i + 1;
        }
        proof {
            assert(names@.subrange(0, names@.len() as int) =~= names@);
        }
    }

    fn drop_names(set: &mut NameSet, names: &Vec<Vec<u8>>)
        ensures
            final(set)@ == old(set)@.difference(names_set(names@)),
    {
        let mut i: usize = 0;
        while i < names.len()
            invariant
                i <= names@.len(),
                set@ == old(set)@.difference(names_set(names@.subrange(0, i as int))),
            decreases names@.len() - i,
        {
            set.remove(names[i].as_slice());
            proof {
                let sub = names@.subrange(0, i as int);
                let sub1 = names@.subrange(0, i + 1);
                assert forall|a: Seq<u8>| #[trigger] names_set(sub1).contains(a) == (names_set(sub).contains(a)
                    || a == names@[i as int]@) by {
                    if names_set(sub1).contains(a) {
                        let j = choose|j: int| 0 <= j < sub1.len() && #[trigger] sub1[j]@ == a;
                        if j < i {
                            assert(sub[j]@ == a);
                        }
                    }
                    if names_set(sub).contains(a) {
                        let j = choose|j: int| 0 <= j < sub.len() && #[trigger] sub[j]@ == a;
                        assert(sub1[j]@ == a);
                    }
                    assert(sub1[i as int]@ == names@[i as int]@);
                }
                assert(set@ =~= old(set)@.difference(names_set(sub1)));
            }
            i = i + 1;
        }
        proof {
            assert(names@.subrange(0, names@.len() as int) =~= names@);
        }
    }

    /// The server acknowledged a subscribe command of `kind` for `names`.
    pub fn subscribed(&mut self, kind: SubscriptionKind, names: &Vec<Vec<u8>>)
        ensures
            final(self).active(kind) == old(self).active(kind).union(names_set(names@)),
            forall|k: SubscriptionKind| k != kind ==> #[trigger] final(self).active(k) == old(self).active(k),
    {
        match kind {
            SubscriptionKind::Channel => Self::add(&mut self.channels, names),
            SubscriptionKind::Pattern => Self::add(&mut self.patterns, names),
            SubscriptionKind::ShardChannel => Self::add(&mut self.shard_channels, names),
        }
    }

    /// The server acknowledged an unsubscribe command of `kind` for `names`;
    /// without names it drops every name of that kind.
    pub fn unsubscribed(&mut self, kind: SubscriptionKind, names: &Vec<Vec<u8>>)
        ensures
            names@.len() == 0 ==> final(self).active(kind) == Set::<Seq<u8>>::empty(),
            names@.len() > 0 ==> final(self).active(kind) == old(self).active(kind).difference(names_set(names@)),
            forall|k: SubscriptionKind| k != kind ==> #[trigger] final(self).active(k) == old(self).active(k),
    {
        if names.len() == 0 {
            match kind {
                SubscriptionKind::Channel => self.channels.clear(),
                SubscriptionKind::Pattern => self.patterns.clear(),
                SubscriptionKind::ShardChannel => self.shard_channels.clear(),
            }
        } else {
            match kind {
                SubscriptionKind::Channel => Self::drop_names(&mut self.channels, names),
                SubscriptionKind::Pattern => Self::drop_names(&mut self.patterns, names),
                SubscriptionKind::ShardChannel => Self::drop_names(&mut self.shard_channels, names),
            }
        }
    }

    /// The commands to send, as one batch, on a new connection so that it
    /// holds the same subscriptions: once the server acknowledges them, the
    /// names subscribed to of each kind are exactly those active now. No
    /// command is sent for a kind with no name.
    pub fn replay_commands(&self) -> (r: Vec<Command>)
        ensures
            forall|k: SubscriptionKind| #[trigger] acked(r@, k) == self.active(k),
            r@.len() <= 3,
            forall|i: int| 0 <= i < r@.len() ==> #[trigger] r@[i].args@.len() > 0,
    {
        proof {
            lemma_names_distinct();
        }
        let mut r: Vec<Command> = Vec::new();
        proof {
            assert forall|k: SubscriptionKind| #[trigger] acked(r@, k) == Set::<Seq<u8>>::empty() by {}
        }
        let ghost r0 = r@;
        if self.channels.len() > 0 {
            let c = self.channels.subscribe_command(subscribe_command_name(SubscriptionKind::Channel));
            r.push(c);
            proof {
                lemma_acked_push(r0, c);
                assert(c.args@.len() > 0) by {
                    if c.args@.len() == 0 {
                        assert(names_set(c.args@) =~= Set::<Seq<u8>>::empty());
                    }
                }
            }
        }
        assert(acked(r@, SubscriptionKind::Channel) =~= self.channels@);
        assert(acked(r@, SubscriptionKind::Pattern) =~= Set::<Seq<u8>>::empty());
        assert(acked(r@, SubscriptionKind::ShardChannel) =~= Set::<Seq<u8>>::empty());
        let ghost r1 = r@;
        if self.patterns.len() > 0 {
            let c = self.patterns.subscribe_command(subscribe_command_name(SubscriptionKind::Pattern));
            r.push(c);
            proof {
                lemma_acked_push(r1, c);
                assert(c.args@.len() > 0) by {
                    if c.args@.len() == 0 {
                        assert(names_set(c.args@) =~= Set::<Seq<u8>>::empty());
                    }
                }
            }
        }
        assert(acked(r@, SubscriptionKind::Channel) =~= self.channels@);
        assert(acked(r@, SubscriptionKind::Pattern) =~= self.patterns@);
        assert(acked(r@, SubscriptionKind::ShardChannel) =~= Set::<Seq<u8>>::empty());
        let ghost r2 = r@;
        if self.shard_channels.len() > 0 {
            let c = self.shard_channels.subscribe_command(subscribe_command_name(SubscriptionKind::ShardChannel));
            r.push(c);
            proof {
                lemma_acked_push(r2, c);
                assert(c.args@.len() > 0) by {
                    if c.args@.len() == 0 {
                        assert(names_set(c.args@) =~= Set::<Seq<u8>>::empty());
                    }
                }
            }
        }
        assert(acked(r@, SubscriptionKind::Channel) =~= self.channels@);
        assert(acked(r@, SubscriptionKind::Pattern) =~= self.patterns@);
        assert(acked(r@, SubscriptionKind::ShardChannel) =~= self.shard_channels@);
        proof {
            assert forall|k: SubscriptionKind| #[trigger] acked(r@, k) == self.active(k) by {
                match k {
                    SubscriptionKind::Channel => {},
                    SubscriptionKind::Pattern => {},
                    SubscriptionKind::ShardChannel => {},
                }
            }
        }
        r
    }
}

} // verus!
