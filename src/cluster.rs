use vstd::prelude::*;
use crate::slot::{hash_slot, key_slot, SLOT_COUNT};
use crate::subscriptions::bytes_eq;

verus! {

/// Which shard owns each of the cluster's slots.
pub struct SlotMap {
    shards: Vec<usize>,
}

impl SlotMap {
    /// The owner of each slot, by slot number.
    pub closed spec fn view(&self) -> Seq<usize> {
        self.shards@
    }

    pub open spec fn wf(&self) -> bool {
        self@.len() == SLOT_COUNT as int
    }

    /// A map in which one shard owns every slot.
    pub fn new(shard: usize) -> (r: SlotMap)
        ensures
            r.wf(),
            forall|s: int| 0 <= s < SLOT_COUNT ==> #[trigger] r@[s] == shard,
    {
        let mut shards: Vec<usize> = Vec::new();
        let mut i: usize = 0;
        while i < SLOT_COUNT as usize
            invariant
                i <= SLOT_COUNT,
                shards@.len() == i,
                forall|s: int| 0 <= s < i ==> #[trigger] shards@[s] == shard,
            decreases SLOT_COUNT - i,
        {
            shards.push(shard);
            i = i + 1;
        }
        SlotMap { shards }
    }

    /// The shard that owns `slot`.
    pub fn shard_of_slot(&self, slot: u16) -> (r: usize)
        requires
            self.wf(),
            slot < SLOT_COUNT,
        ensures
            r == self@[slot as int],
    {
        self.shards[slot as usize]
    }

    /// Gives `slot` to `shard`, as a MOVED redirection asks; every other slot
    /// keeps its owner.
    pub fn assign(&mut self, slot: u16, shard: usize)
        requires
            old(self).wf(),
            slot < SLOT_COUNT,
        ensures
            final(self).wf(),
            final(self)@ == old(self)@.update(slot as int, shard),
    {
        self.shards.set(slot as usize, shard);
    }

    /// Gives every slot of `first..=last` to `shard`, as a topology reply
    /// lists them.
    pub fn assign_range(&mut self, first: u16, last: u16, shard: usize)
        requires
            old(self).wf(),
            first <= last < SLOT_COUNT,
        ensures
            final(self).wf(),
            forall|s: int| first <= s <= last ==> #[trigger] final(self)@[s] == shard,
            forall|s: int| 0 <= s < SLOT_COUNT && !(first <= s <= last) ==> #[trigger] final(self)@[s]
                == old(self)@[s],
    {
        let mut s: u16 = first;
        loop
            invariant
                self.wf(),
                first <= s <= last < SLOT_COUNT,
                forall|t: int| first <= t < s ==> #[trigger] self@[t] == shard,
                forall|t: int| 0 <= t < SLOT_COUNT && !(first <= t < s) ==> #[trigger] self@[t] == old(self)@[t],
            decreases last - s,
        {
            self.shards.set(s as usize, shard);
            if s == last {
                return;
            }
            s = s + 1;
        }
    }

    /// The shard that owns each key, in key order.
    pub fn key_shards(&self, keys: &Vec<Vec<u8>>) -> (r: Vec<usize>)
        requires
            self.wf(),
        ensures
            r@.len() == keys@.len(),
            forall|i: int| 0 <= i < keys@.len() ==> #[trigger] r@[i] == self@[key_slot(keys@[i]@)],
    {
        let mut r: Vec<usize> = Vec::new();
        let mut i: usize = 0;
        while i < keys.len()
            invariant
                self.wf(),
                i <= keys@.len(),
                r@.len() == i,
                forall|j: int| 0 <= j < i ==> #[trigger] r@[j] == self@[key_slot(keys@[j]@)],
            decreases keys@.len() - i,
        {
            let slot = hash_slot(keys[i].as_slice());
            r.push(self.shard_of_slot(slot));
            i = i + 1;
        }
        r
    }
}

/// `groups` lists each position of `0..n` exactly once.
pub open spec fn is_partition(groups: Seq<Seq<usize>>, n: int) -> bool {
    &&& forall|g: int, j: int| 0 <= g < groups.len() && 0 <= j < groups[g].len() ==> #[trigger] groups[g][j] < n
    &&& forall|g1: int, j1: int, g2: int, j2: int|
        0 <= g1 < groups.len() && 0 <= j1 < groups[g1].len() && 0 <= g2 < groups.len() && 0 <= j2
            < groups[g2].len() && #[trigger] groups[g1][j1] == #[trigger] groups[g2][j2] ==> g1 == g2 && j1 == j2
    &&& forall|i: int| 0 <= i < n ==> #[trigger] placed(groups, i)
}

/// Some group lists position `i`.
pub open spec fn placed(groups: Seq<Seq<usize>>, i: int) -> bool {
    exists|g: int, j: int| 0 <= g < groups.len() && 0 <= j < groups[g].len() && #[trigger] groups[g][j] == i
}

/// The positions of each group, as sequences.
pub open spec fn groups_view(groups: Seq<Vec<usize>>) -> Seq<Seq<usize>> {
    groups.map_values(|v: Vec<usize>| v@)
}

/// The groups are well formed for `key_shards`: together they list each
/// key position once, each group's keys belong to its shard, no two groups
/// share a shard, and each group keeps its keys in input order.
pub open spec fn is_grouping(key_shards: Seq<usize>, ids: Seq<usize>, groups: Seq<Seq<usize>>) -> bool {
    &&& ids.len() == groups.len()
    &&& is_partition(groups, key_shards.len() as int)
    &&& forall|g: int, j: int| 0 <= g < groups.len() && 0 <= j < groups[g].len()
        ==> key_shards[#[trigger] groups[g][j] as int] == ids[g]
    &&& ids.no_duplicates()
    &&& forall|g: int| 0 <= g < groups.len() ==> #[trigger] groups[g].len() > 0
    &&& forall|g: int, j1: int, j2: int| 0 <= g < groups.len() && 0 <= j1 < j2 < groups[g].len()
        ==> #[trigger] groups[g][j1] < #[trigger] groups[g][j2]
}

/// Splits the positions of a multi-key command's keys by the shard that
/// owns them. Returns the shards, in order of first appearance, and for
/// each the positions of its keys in input order.
pub fn group_by_shard(key_shards: &Vec<usize>) -> (r: (Vec<usize>, Vec<Vec<usize>>))
    ensures
        is_grouping(key_shards@, r.0@, groups_view(r.1@)),
{
    let mut ids: Vec<usize> = Vec::new();
    let mut groups: Vec<Vec<usize>> = Vec::new();
    let mut i: usize = 0;
    while i < key_shards.len()
        invariant
            i <= key_shards@.len(),
            is_grouping(key_shards@.subrange(0, i as int), ids@, groups_view(groups@)),
        decreases key_shards@.len() - i,
    {
        let shard = key_shards[i];
        let ghost gv = groups_view(groups@);
        let ghost pre = key_shards@.subrange(0, i as int);
        let ghost post = key_shards@.subrange(0, i + 1);
        let mut g: usize = 0;
        while g < ids.len() && ids[g] != shard
            invariant
                g <= ids@.len(),
                forall|h: int| 0 <= h < g ==> ids@[h] != shard,
            decreases ids@.len() - g,
        {
            g = g + 1;
        }
        if g < ids.len() {
            let mut v: Vec<usize> = Vec::new();
            groups.set_and_swap(g, &mut v);
            v.push(i);
            groups.set(g, v);
            proof {
                let ng = groups_view(groups@);
                assert(ng =~= gv.update(g as int, gv[g as int].push(i)));
                assert forall|h: int, j: int| 0 <= h < ng.len() && 0 <= j < ng[h].len()
                    implies #[trigger] ng[h][j] < i + 1 && post[ng[h][j] as int] == ids@[h] by {
                    if h != g || j < gv[g as int].len() {
                        assert(ng[h][j] == gv[h][j]);
                        assert(pre[gv[h][j] as int] == ids@[h]);
                    }
                }
                assert forall|h1: int, j1: int, h2: int, j2: int|
                    0 <= h1 < ng.len() && 0 <= j1 < ng[h1].len() && 0 <= h2 < ng.len() && 0 <= j2 < ng[h2].len()
                    && #[trigger] ng[h1][j1] == #[trigger] ng[h2][j2] implies h1 == h2 && j1 == j2 by {
                    if h1 != g || j1 < gv[g as int].len() {
                        assert(ng[h1][j1] == gv[h1][j1]);
                    }
                    if h2 != g || j2 < gv[g as int].len() {
                        assert(ng[h2][j2] == gv[h2][j2]);
                    }
                }
                assert forall|k: int| 0 <= k < i + 1 implies #[trigger] placed(ng, k) by {
                    if k < i {
                        assert(placed(gv, k));
                        let (h, j) = choose|h: int, j: int| 0 <= h < gv.len() && 0 <= j < gv[h].len() && #[trigger] gv[h][j] == k;
                        assert(ng[h][j] == k);
                    } else {
                        assert(ng[g as int][gv[g as int].len() as int] == k);
                    }
                }
                assert forall|h: int, j1: int, j2: int| 0 <= h < ng.len() && 0 <= j1 < j2 < ng[h].len()
                    implies #[trigger] ng[h][j1] < #[trigger] ng[h][j2] by {
                    assert(ng[h][j1] == gv[h][j1]);
                    if h != g || j2 < gv[g as int].len() {
                        assert(ng[h][j2] == gv[h][j2]);
                    }
                }
                assert forall|h: int| 0 <= h < ng.len() implies #[trigger] ng[h].len() > 0 by {
                    assert(gv[h].len() > 0);
                }
                assert forall|h: int, j: int| 0 <= h < ng.len() && 0 <= j < ng[h].len()
                    implies post[#[trigger] ng[h][j] as int] == ids@[h] by {}
            }
        } else {
            let ghost old_ids = ids@;
            ids.push(shard);
            let first = vec![i];
            proof {
                assert(first@ =~= seq![i]);
            }
            groups.push(first);
            proof {
                let ng = groups_view(groups@);
                let n = gv.len();
                assert(ng =~= gv.push(seq![i]));
                assert forall|h: int, j: int| 0 <= h < ng.len() && 0 <= j < ng[h].len()
                    implies #[trigger] ng[h][j] < i + 1 && post[ng[h][j] as int] == ids@[h] by {
                    if h < n {
                        assert(pre[gv[h][j] as int] == ids@[h]);
                    }
                }
                assert forall|h1: int, j1: int, h2: int, j2: int|
                    0 <= h1 < ng.len() && 0 <= j1 < ng[h1].len() && 0 <= h2 < ng.len() && 0 <= j2 < ng[h2].len()
                    && #[trigger] ng[h1][j1] == #[trigger] ng[h2][j2] implies h1 == h2 && j1 == j2 by {}
                assert forall|k: int| 0 <= k < i + 1 implies #[trigger] placed(ng, k) by {
                    if k < i {
                        assert(placed(gv, k));
                        let (h, j) = choose|h: int, j: int| 0 <= h < gv.len() && 0 <= j < gv[h].len() && #[trigger] gv[h][j] == k;
                        assert(ng[h][j] == k);
                    } else {
                        assert(ng[n as int][0] == k);
                    }
                }
                assert forall|h: int, j1: int, j2: int| 0 <= h < ng.len() && 0 <= j1 < j2 < ng[h].len()
                    implies #[trigger] ng[h][j1] < #[trigger] ng[h][j2] by {}
                assert forall|h: int| 0 <= h < ng.len() implies #[trigger] ng[h].len() > 0 by {
                    if h < n {
                        assert(gv[h].len() > 0);
                    }
                }
                assert forall|a: int, b: int| 0 <= a < ids@.len() && 0 <= b < ids@.len() && a != b
                    implies ids@[a] != ids@[b] by {
                    if a < n && b < n {
                        assert(old_ids[a] != old_ids[b]);
                    }
                }
                assert forall|h: int, j: int| 0 <= h < ng.len() && 0 <= j < ng[h].len()
                    implies post[#[trigger] ng[h][j] as int] == ids@[h] by {}
            }
        }
        i = i + 1;
    }
    proof {
        assert(key_shards@.subrange(0, key_shards@.len() as int) =~= key_shards@);
    }
    (ids, groups)
}

/// Each shard's reply holds one value for each key sent to that shard.
pub open spec fn replies_fit<V>(groups: Seq<Seq<usize>>, results: Seq<Vec<V>>) -> bool {
    &&& results.len() == groups.len()
    &&& forall|g: int| 0 <= g < groups.len() ==> #[trigger] results[g]@.len() == groups[g].len()
}

/// Puts the values of the per-shard replies of a split multi-key read back
/// at the positions of their keys. Fails when a reply does not hold one
/// value per key sent.
pub fn merge_in_order<V>(n: usize, groups: &Vec<Vec<usize>>, results: Vec<Vec<V>>) -> (r: Option<Vec<V>>)
    requires
        is_partition(groups_view(groups@), n as int),
    ensures
        r is Some <==> replies_fit(groups_view(groups@), results@),
        r matches Some(m) ==> {
            &&& m@.len() == n
            &&& forall|g: int, j: int| 0 <= g < groups@.len() && 0 <= j < groups@[g]@.len()
                ==> m@[#[trigger] groups@[g]@[j] as int] == results@[g]@[j]
        },
{
    let ghost gv = groups_view(groups@);
    let ghost rv = results@;
    if results.len() != groups.len() {
        return None;
    }
    let mut g: usize = 0;
    while g < groups.len()
        invariant
            gv == groups_view(groups@),
            results@.len() == groups@.len(),
            g <= groups@.len(),
            forall|h: int| 0 <= h < g ==> #[trigger] results@[h]@.len() == gv[h].len(),
        decreases groups@.len() - g,
    {
        if results[g].len() != groups[g].len() {
            return None;
        }
        g = g + 1;
    }
    let mut slots: Vec<Option<V>> = Vec::new();
    let mut i: usize = 0;
    while i < n
        invariant
            i <= n,
            slots@.len() == i,
        decreases n - i,
    {
        slots.push(None);
        i = i + 1;
    }
    let mut pending = results;
    while pending.len() > 0
        invariant
            gv == groups_view(groups@),
            is_partition(gv, n as int),
            replies_fit(gv, rv),
            slots@.len() == n,
            pending@.len() <= rv.len(),
            forall|h: int| 0 <= h < pending@.len() ==> #[trigger] pending@[h] == rv[h],
            forall|h: int, j: int| pending@.len() <= h < gv.len() && 0 <= j < gv[h].len()
                ==> slots@[#[trigger] gv[h][j] as int] == Some(rv[h]@[j]),
        decreases pending@.len(),
    {
        let mut vals = pending.pop().unwrap();
        let g = pending.len();
        proof {
            assert(vals == rv[g as int]);
        }
        while vals.len() > 0
            invariant
                gv == groups_view(groups@),
                is_partition(gv, n as int),
                replies_fit(gv, rv),
                slots@.len() == n,
                g < gv.len(),
                vals@.len() <= rv[g as int]@.len(),
                vals@ == rv[g as int]@.subrange(0, vals@.len() as int),
                forall|h: int, j: int| 0 <= h < gv.len() && 0 <= j < gv[h].len() && (h > g || (h == g
                    && j >= vals@.len())) ==> slots@[#[trigger] gv[h][j] as int] == Some(rv[h]@[j]),
            decreases vals@.len(),
        {
            let ghost before = slots@;
            let v = vals.pop().unwrap();
            let j = vals.len();
            proof {
                assert(groups@[g as int]@ == gv[g as int]);
                assert(gv[g as int][j as int] < n);
            }
            let pos = groups[g][j];
            slots.set(pos, Some(v));
            proof {
                assert forall|h: int, k: int| 0 <= h < gv.len() && 0 <= k < gv[h].len() && (h > g || (h
                    == g && k >= vals@.len())) implies slots@[#[trigger] gv[h][k] as int] == Some(rv[h]@[k]) by {
                    if h == g && k == j {
                    } else {
                        assert(gv[h][k] != gv[g as int][j as int]);
                    }
                }
            }
        }
    }
    proof {
        assert forall|k: int| 0 <= k < n implies (#[trigger] slots@[k]) is Some by {
            assert(placed(gv, k));
        }
    }
    let ghost filled = slots@;
    let mut rev: Vec<V> = Vec::new();
    while slots.len() > 0
        invariant
            slots@.len() + rev@.len() == n,
            forall|k: int| 0 <= k < slots@.len() ==> (#[trigger] slots@[k]) is Some,
            forall|k: int| 0 <= k < slots@.len() ==> slots@[k] == filled[k],
            forall|k: int| 0 <= k < rev@.len() ==> Some(#[trigger] rev@[k]) == filled[n - 1 - k],
        decreases slots@.len(),
    {
        let s = slots.pop().unwrap();
        rev.push(s.unwrap());
    }
    let mut out: Vec<V> = Vec::new();
    while rev.len() > 0
        invariant
            rev@.len() + out@.len() == n,
            forall|k: int| 0 <= k < rev@.len() ==> Some(#[trigger] rev@[k]) == filled[n - 1 - k],
            forall|k: int| 0 <= k < out@.len() ==> Some(#[trigger] out@[k]) == filled[k],
            gv == groups_view(groups@),
            forall|h: int, j: int| 0 <= h < gv.len() && 0 <= j < gv[h].len()
                ==> filled[#[trigger] gv[h][j] as int] == Some(rv[h]@[j]),
            forall|h: int, j: int| 0 <= h < gv.len() && 0 <= j < gv[h].len() ==> #[trigger] gv[h][j] < n,
        decreases rev@.len(),
    {
        let v = rev.pop().unwrap();
        out.push(v);
    }
    proof {
        assert forall|h: int, j: int| 0 <= h < groups@.len() && 0 <= j < groups@[h]@.len()
            implies out@[#[trigger] groups@[h]@[j] as int] == rv[h]@[j] by {
            assert(groups@[h]@ == gv[h]);
            assert(Some(out@[gv[h][j] as int]) == filled[gv[h][j] as int]);
        }
    }
    Some(out)
}

/// A multi-key read split by shard gives, once merged, what one server
/// holding every key would give: the value of each key, in input order.
/// `store` is what the servers hold; each shard answers its keys with it,
/// and `merged` is what `merge_in_order` returns from those replies.
pub proof fn lemma_split_read_matches_single<V>(
    keys: Seq<Seq<u8>>,
    key_shards: Seq<usize>,
    ids: Seq<usize>,
    groups: Seq<Seq<usize>>,
    results: Seq<Seq<V>>,
    merged: Seq<V>,
    store: spec_fn(Seq<u8>) -> V,
)
    requires
        key_shards.len() == keys.len(),
        is_grouping(key_shards, ids, groups),
        results.len() == groups.len(),
        forall|g: int, j: int| 0 <= g < groups.len() && 0 <= j < groups[g].len()
            ==> #[trigger] results[g][j] == store(keys[groups[g][j] as int]),
        merged.len() == keys.len(),
        forall|g: int, j: int| 0 <= g < groups.len() && 0 <= j < groups[g].len()
            ==> merged[#[trigger] groups[g][j] as int] == results[g][j],
    ensures
        merged == keys.map_values(store),
{
    assert forall|i: int| 0 <= i < keys.len() implies merged[i] == store(keys[i]) by {
        assert(placed(groups, i));
        let (g, j) = choose|g: int, j: int| 0 <= g < groups.len() && 0 <= j < groups[g].len() && #[trigger] groups[g][j] == i;
        assert(merged[groups[g][j] as int] == results[g][j]);
        assert(results[g][j] == store(keys[groups[g][j] as int]));
    }
    assert(merged =~= keys.map_values(store));
}

/// The sum of a sequence of counts.
pub open spec fn seq_sum(s: Seq<u64>) -> nat
    decreases s.len(),
{
    if s.len() == 0 {
        0
    } else {
        seq_sum(s.drop_last()) + s.last() as nat
    }
}

/// Adds up the counts that the shards returned for a split DEL, EXISTS,
/// UNLINK or TOUCH. None if the total does not fit in 64 bits.
pub fn sum_counts(counts: &Vec<u64>) -> (r: Option<u64>)
    ensures
        r is Some <==> seq_sum(counts@) <= u64::MAX,
        r matches Some(t) ==> t as nat == seq_sum(counts@),
{
    let mut total: u64 = 0;
    let mut i: usize = 0;
    while i < counts.len()
        invariant
            i <= counts@.len(),
            total as nat == seq_sum(counts@.subrange(0, i as int)),
        decreases counts@.len() - i,
    {
        proof {
            assert(counts@.subrange(0, i + 1).drop_last() =~= counts@.subrange(0, i as int));
        }
        if counts[i] > u64::MAX - total {
            proof {
                lemma_sum_prefix_grows(counts@, i + 1);
            }
            return None;
        }
        total = total + counts[i];
        i = i + 1;
    }
    proof {
        assert(counts@.subrange(0, counts@.len() as int) =~= counts@);
    }
    Some(total)
}

proof fn lemma_sum_prefix_grows(s: Seq<u64>, k: int)
    requires
        0 <= k <= s.len(),
    ensures
        seq_sum(s.subrange(0, k)) <= seq_sum(s),
    decreases s.len() - k,
{
    if k < s.len() {
        lemma_sum_prefix_grows(s, k + 1);
        assert(s.subrange(0, k + 1).drop_last() =~= s.subrange(0, k));
    } else {
        assert(s.subrange(0, k) =~= s);
    }
}

/// The number of listed positions whose flag is set.
pub open spec fn count_in(flags: Seq<bool>, pos: Seq<usize>) -> nat
    decreases pos.len(),
{
    if pos.len() == 0 {
        0
    } else {
        count_in(flags, pos.drop_last()) + if flags[pos.last() as int] { 1nat } else { 0nat }
    }
}

/// The number of set flags.
pub open spec fn count_true(flags: Seq<bool>) -> nat
    decreases flags.len(),
{
    if flags.len() == 0 {
        0
    } else {
        count_true(flags.drop_last()) + if flags.last() { 1nat } else { 0nat }
    }
}

/// The number of listed positions below `m` whose flag is set.
spec fn below(flags: Seq<bool>, pos: Seq<usize>, m: int) -> nat
    decreases pos.len(),
{
    if pos.len() == 0 {
        0
    } else {
        below(flags, pos.drop_last(), m) + if pos.last() < m && flags[pos.last() as int] { 1nat } else { 0nat }
    }
}

spec fn lists(pos: Seq<usize>, m: int) -> bool {
    exists|j: int| 0 <= j < pos.len() && pos[j] == m
}

spec fn groups_below(flags: Seq<bool>, groups: Seq<Seq<usize>>, m: int, k: int) -> nat
    decreases k,
{
    if k <= 0 {
        0
    } else {
        groups_below(flags, groups, m, k - 1) + below(flags, groups[k - 1], m)
    }
}

spec fn groups_listing(groups: Seq<Seq<usize>>, m: int, k: int) -> nat
    decreases k,
{
    if k <= 0 {
        0
    } else {
        groups_listing(groups, m, k - 1) + if lists(groups[k - 1], m) { 1nat } else { 0nat }
    }
}

proof fn lemma_below_all(flags: Seq<bool>, pos: Seq<usize>, n: int)
    requires
        forall|j: int| 0 <= j < pos.len() ==> #[trigger] pos[j] < n,
    ensures
        below(flags, pos, n) == count_in(flags, pos),
    decreases pos.len(),
{
    if pos.len() > 0 {
        let u = pos.drop_last();
        assert forall|j: int| 0 <= j < u.len() implies #[trigger] u[j] < n by {
            assert(u[j] == pos[j]);
        }
        lemma_below_all(flags, u, n);
    }
}

proof fn lemma_below_step(flags: Seq<bool>, pos: Seq<usize>, m: int)
    requires
        0 <= m < flags.len(),
        forall|j1: int, j2: int| 0 <= j1 < j2 < pos.len() ==> #[trigger] pos[j1] != #[trigger] pos[j2],
    ensures
        below(flags, pos, m + 1) == below(flags, pos, m) + if lists(pos, m) && flags[m] { 1nat } else { 0nat },
    decreases pos.len(),
{
    if pos.len() > 0 {
        let u = pos.drop_last();
        let p = pos.last();
        assert forall|j1: int, j2: int| 0 <= j1 < j2 < u.len() implies #[trigger] u[j1] != #[trigger] u[j2] by {
            assert(u[j1] == pos[j1] && u[j2] == pos[j2]);
        }
        lemma_below_step(flags, u, m);
        if p == m {
            assert(lists(pos, m));
            assert(!lists(u, m)) by {
                if lists(u, m) {
                    let j = choose|j: int| 0 <= j < u.len() && u[j] == m;
                    assert(pos[j] == pos[pos.len() - 1]);
                }
            }
        } else {
            assert(lists(pos, m) == lists(u, m)) by {
                if lists(pos, m) {
                    let j = choose|j: int| 0 <= j < pos.len() && pos[j] == m;
                    assert(u[j] == m);
                }
                if lists(u, m) {
                    let j = choose|j: int| 0 <= j < u.len() && u[j] == m;
                    assert(pos[j] == m);
                }
            }
        }
    } else {
        assert(!lists(pos, m));
    }
}

proof fn lemma_groups_step(flags: Seq<bool>, groups: Seq<Seq<usize>>, m: int, k: int)
    requires
        0 <= m < flags.len(),
        0 <= k <= groups.len(),
        forall|g: int, j1: int, j2: int| 0 <= g < groups.len() && 0 <= j1 < j2 < groups[g].len()
            ==> #[trigger] groups[g][j1] < #[trigger] groups[g][j2],
    ensures
        groups_below(flags, groups, m + 1, k) == groups_below(flags, groups, m, k)
            + if flags[m] { groups_listing(groups, m, k) } else { 0nat },
    decreases k,
{
    if k > 0 {
        lemma_groups_step(flags, groups, m, k - 1);
        let pos = groups[k - 1];
        assert forall|j1: int, j2: int| 0 <= j1 < j2 < pos.len() implies #[trigger] pos[j1] != #[trigger] pos[j2] by {
            assert(groups[k - 1][j1] < groups[k - 1][j2]);
        }
        lemma_below_step(flags, pos, m);
    }
}

proof fn lemma_listing_unique(groups: Seq<Seq<usize>>, m: int, k: int)
    requires
        0 <= k <= groups.len(),
        forall|g1: int, j1: int, g2: int, j2: int|
            0 <= g1 < groups.len() && 0 <= j1 < groups[g1].len() && 0 <= g2 < groups.len() && 0 <= j2
                < groups[g2].len() && #[trigger] groups[g1][j1] == #[trigger] groups[g2][j2] ==> g1 == g2 && j1 == j2,
    ensures
        groups_listing(groups, m, k) == if exists|g: int| 0 <= g < k && #[trigger] lists(groups[g], m) { 1nat } else { 0nat },
    decreases k,
{
    if k > 0 {
        lemma_listing_unique(groups, m, k - 1);
        if lists(groups[k - 1], m) {
            assert(!exists|g: int| 0 <= g < k - 1 && #[trigger] lists(groups[g], m)) by {
                if exists|g: int| 0 <= g < k - 1 && #[trigger] lists(groups[g], m) {
                    let g = choose|g: int| 0 <= g < k - 1 && #[trigger] lists(groups[g], m);
                    let j = choose|j: int| 0 <= j < groups[g].len() && #[trigger] groups[g][j] == m;
                    let j2 = choose|j2: int| 0 <= j2 < groups[k - 1].len() && #[trigger] groups[k - 1][j2] == m;
                    assert(groups[g][j] == groups[k - 1][j2]);
                }
            }
        } else {
            assert((exists|g: int| 0 <= g < k && #[trigger] lists(groups[g], m)) == (exists|g: int|
                0 <= g < k - 1 && #[trigger] lists(groups[g], m)));
        }
    }
}

proof fn lemma_groups_count(flags: Seq<bool>, groups: Seq<Seq<usize>>, m: int)
    requires
        0 <= m <= flags.len(),
        is_partition(groups, flags.len() as int),
        forall|g: int, j1: int, j2: int| 0 <= g < groups.len() && 0 <= j1 < j2 < groups[g].len()
            ==> #[trigger] groups[g][j1] < #[trigger] groups[g][j2],
    ensures
        groups_below(flags, groups, m, groups.len() as int) == count_true(flags.subrange(0, m)),
    decreases m,
{
    if m == 0 {
        lemma_groups_zero(flags, groups, groups.len() as int);
    } else {
        lemma_groups_count(flags, groups, m - 1);
        lemma_groups_step(flags, groups, m - 1, groups.len() as int);
        lemma_listing_unique(groups, m - 1, groups.len() as int);
        assert(placed(groups, m - 1));
        let (g, j) = choose|g: int, j: int| 0 <= g < groups.len() && 0 <= j < groups[g].len() && #[trigger] groups[g][j] == m - 1;
        assert(lists(groups[g], m - 1));
        assert(flags.subrange(0, m).drop_last() =~= flags.subrange(0, m - 1));
    }
}

proof fn lemma_groups_zero(flags: Seq<bool>, groups: Seq<Seq<usize>>, k: int)
    requires
        0 <= k <= groups.len(),
    ensures
        groups_below(flags, groups, 0, k) == 0,
    decreases k,
{
    if k > 0 {
        lemma_groups_zero(flags, groups, k - 1);
        lemma_below_zero(flags, groups[k - 1]);
    }
}

proof fn lemma_below_zero(flags: Seq<bool>, pos: Seq<usize>)
    ensures
        below(flags, pos, 0) == 0,
    decreases pos.len(),
{
    if pos.len() > 0 {
        lemma_below_zero(flags, pos.drop_last());
    }
}

proof fn lemma_groups_total(flags: Seq<bool>, groups: Seq<Seq<usize>>, counts: Seq<u64>, k: int)
    requires
        0 <= k <= groups.len(),
        counts.len() == groups.len(),
        is_partition(groups, flags.len() as int),
        forall|g: int| 0 <= g < groups.len() ==> #[trigger] counts[g] as nat == count_in(flags, groups[g]),
    ensures
        groups_below(flags, groups, flags.len() as int, k) == seq_sum(counts.subrange(0, k)),
    decreases k,
{
    if k > 0 {
        lemma_groups_total(flags, groups, counts, k - 1);
        let pos = groups[k - 1];
        assert forall|j: int| 0 <= j < pos.len() implies #[trigger] pos[j] < flags.len() by {
            assert(groups[k - 1][j] < flags.len());
        }
        lemma_below_all(flags, pos, flags.len() as int);
        assert(counts.subrange(0, k).drop_last() =~= counts.subrange(0, k - 1));
    }
}

/// A counting command (DEL, EXISTS, UNLINK, TOUCH) split by shard gives,
/// once the per-shard counts are added, the count that one server holding
/// every key would give. `flags` says for each key whether the server
/// counts it; each shard answers with the count of its own keys.
pub proof fn lemma_split_count_matches_single(
    flags: Seq<bool>,
    key_shards: Seq<usize>,
    ids: Seq<usize>,
    groups: Seq<Seq<usize>>,
    counts: Seq<u64>,
)
    requires
        key_shards.len() == flags.len(),
        is_grouping(key_shards, ids, groups),
        counts.len() == groups.len(),
        forall|g: int| 0 <= g < groups.len() ==> #[trigger] counts[g] as nat == count_in(flags, groups[g]),
    ensures
        seq_sum(counts) == count_true(flags),
{
    lemma_groups_count(flags, groups, flags.len() as int);
    lemma_groups_total(flags, groups, counts, groups.len() as int);
    assert(counts.subrange(0, counts.len() as int) =~= counts);
    assert(flags.subrange(0, flags.len() as int) =~= flags);
}

/// Where a command with keys goes.
pub enum Route {
    /// It has no key: any connected shard may serve it.
    AnyShard,
    /// Every key belongs to this shard: it is sent intact.
    Shard(usize),
    /// Its keys span shards and it is safe to split: one sub-command per
    /// shard, with the positions of that shard's keys.
    Split { ids: Vec<usize>, groups: Vec<Vec<usize>> },
}

/// The keys of a command that cannot be split belong to more than one shard.
#[derive(Debug, Clone, Copy, PartialEq, Eq)]
pub struct CrossSlot;

/// The commands whose keys may be split across shards and the results
/// merged: MGET, MSET, DEL, EXISTS, UNLINK, TOUCH.
pub open spec fn splittable(name: Seq<u8>) -> bool {
    name == seq![0x4du8, 0x47, 0x45, 0x54] || name == seq![0x4du8, 0x53, 0x45, 0x54] || name == seq![
        0x44u8,
        0x45,
        0x4c,
    ] || name == seq![0x45u8, 0x58, 0x49, 0x53, 0x54, 0x53] || name == seq![0x55u8, 0x4e, 0x4c, 0x49, 0x4e, 0x4b]
        || name == seq![0x54u8, 0x4f, 0x55, 0x43, 0x48]
}

/// Whether a command may be split across shards.
pub fn is_splittable(name: &[u8]) -> (r: bool)
    ensures
        r == splittable(name@),
{
    let mget: Vec<u8> = vec![0x4du8, 0x47, 0x45, 0x54];
    let mset: Vec<u8> = vec![0x4du8, 0x53, 0x45, 0x54];
    let del: Vec<u8> = vec![0x44u8, 0x45, 0x4c];
    let exists: Vec<u8> = vec![0x45u8, 0x58, 0x49, 0x53, 0x54, 0x53];
    let unlink: Vec<u8> = vec![0x55u8, 0x4e, 0x4c, 0x49, 0x4e, 0x4b];
    let touch: Vec<u8> = vec![0x54u8, 0x4f, 0x55, 0x43, 0x48];
    proof {
        assert(mget@ =~= seq![0x4du8, 0x47, 0x45, 0x54]);
        assert(mset@ =~= seq![0x4du8, 0x53, 0x45, 0x54]);
        assert(del@ =~= seq![0x44u8, 0x45, 0x4c]);
        assert(exists@ =~= seq![0x45u8, 0x58, 0x49, 0x53, 0x54, 0x53]);
        assert(unlink@ =~= seq![0x55u8, 0x4e, 0x4c, 0x49, 0x4e, 0x4b]);
        assert(touch@ =~= seq![0x54u8, 0x4f, 0x55, 0x43, 0x48]);
    }
    bytes_eq(name, mget.as_slice()) || bytes_eq(name, mset.as_slice()) || bytes_eq(name, del.as_slice())
        || bytes_eq(name, exists.as_slice()) || bytes_eq(name, unlink.as_slice()) || bytes_eq(
        name,
        touch.as_slice(),
    )
}

/// Every key belongs to shard `s`.
pub open spec fn all_on(key_shards: Seq<usize>, s: usize) -> bool {
    forall|i: int| 0 <= i < key_shards.len() ==> #[trigger] key_shards[i] == s
}

/// Decides where a command named `name` goes, from the shard of each of its
/// keys: anywhere without keys, intact to the one shard that owns them all,
/// split when they span shards and the command allows it, and refused with
/// `CrossSlot` otherwise.
pub fn route_keys(name: &[u8], key_shards: &Vec<usize>) -> (r: Result<Route, CrossSlot>)
    ensures
        key_shards@.len() == 0 ==> r matches Ok(Route::AnyShard),
        key_shards@.len() > 0 && all_on(key_shards@, key_shards@[0]) ==> r == Ok::<Route, CrossSlot>(
            Route::Shard(key_shards@[0]),
        ),
        key_shards@.len() > 0 && !all_on(key_shards@, key_shards@[0]) && splittable(name@) ==> (r matches Ok(
            Route::Split { ids, groups },
        ) && is_grouping(key_shards@, ids@, groups_view(groups@))),
        key_shards@.len() > 0 && !all_on(key_shards@, key_shards@[0]) && !splittable(name@) ==> r == Err::<
            Route,
            CrossSlot,
        >(CrossSlot),
{
    let (ids, groups) = group_by_shard(key_shards);
    let ghost gv = groups_view(groups@);
    if ids.len() == 0 {
        proof {
            if key_shards@.len() > 0 {
                assert(placed(gv, 0));
            }
        }
        return Ok(Route::AnyShard);
    }
    if ids.len() == 1 {
        proof {
            assert(gv[0].len() > 0);
            assert(gv[0][0] < key_shards@.len());
            assert(placed(gv, 0));
            assert forall|i: int| 0 <= i < key_shards@.len() implies #[trigger] key_shards@[i] == ids@[0] by {
                assert(placed(gv, i));
                let (g, j) = choose|g: int, j: int| 0 <= g < gv.len() && 0 <= j < gv[g].len() && #[trigger] gv[g][j] == i;
                assert(key_shards@[gv[g][j] as int] == ids@[g]);
            }
            let (g, j) = choose|g: int, j: int| 0 <= g < gv.len() && 0 <= j < gv[g].len() && #[trigger] gv[g][j] == 0;
            assert(key_shards@[gv[g][j] as int] == ids@[g]);
        }
        return Ok(Route::Shard(ids[0]));
    }
    proof {
        assert(gv[0].len() > 0 && gv[1].len() > 0);
        let a = gv[0][0];
        let b = gv[1][0];
        assert(key_shards@[a as int] == ids@[0]);
        assert(key_shards@[b as int] == ids@[1]);
        assert(ids@[0] != ids@[1]);
        assert(!all_on(key_shards@, key_shards@[0])) by {
            if all_on(key_shards@, key_shards@[0]) {
                assert(key_shards@[a as int] == key_shards@[0]);
                assert(key_shards@[b as int] == key_shards@[0]);
            }
        }
    }
    if is_splittable(name) {
        Ok(Route::Split { ids, groups })
    } else {
        Err(CrossSlot)
    }
}

} // verus!
