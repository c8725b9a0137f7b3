use vstd::prelude::*;
use crate::slot::{find_byte, find_from, SLOT_COUNT};
use crate::resp::{digits_value, is_digit, lemma_find_hit};

verus! {

pub const SPACE: u8 = 0x20;

/// Where a server sent a command for a slot it does not serve.
#[derive(PartialEq, Eq, Structural, Clone, Copy, Debug)]
pub enum RedirectKind {
    /// The slot now lives elsewhere for good: update the slot map.
    Moved,
    /// The slot is migrating: ask the other node this once.
    Ask,
}

/// A redirection error: its kind, the slot, and the address to use.
#[derive(Debug)]
pub struct Redirection {
    pub kind: RedirectKind,
    pub slot: u16,
    pub address: Vec<u8>,
}

pub open spec fn moved_word() -> Seq<u8> {
    seq![0x4du8, 0x4f, 0x56, 0x45, 0x44]
}

pub open spec fn ask_word() -> Seq<u8> {
    seq![0x41u8, 0x53, 0x4b]
}

/// The kind of a server error: its first space-delimited word.
pub open spec fn error_kind(msg: Seq<u8>) -> Seq<u8> {
    msg.subrange(0, find_from(msg, SPACE, 0))
}

/// What a redirection error says: `<MOVED|ASK> <slot> <address>`, with the
/// slot written in one to five digits and below the slot count, and a
/// non-empty address. Anything else is no redirection.
pub open spec fn parse_redirection(msg: Seq<u8>) -> Option<(RedirectKind, nat, Seq<u8>)> {
    let sp1 = find_from(msg, SPACE, 0);
    let sp2 = find_from(msg, SPACE, sp1 + 1);
    let word = msg.subrange(0, sp1);
    let num = msg.subrange(sp1 + 1, sp2);
    if sp2 + 1 < msg.len() && (word == moved_word() || word == ask_word()) && 1 <= num.len() <= 5
        && (forall|i: int| 0 <= i < num.len() ==> is_digit(#[trigger] num[i])) && digits_value(num)
        < SLOT_COUNT {
        Some(
            (
                if word == moved_word() {
                    RedirectKind::Moved
                } else {
                    RedirectKind::Ask
                },
                digits_value(num),
                msg.subrange(sp2 + 1, msg.len() as int),
            ),
        )
    } else {
        None
    }
}

fn equals_word(msg: &[u8], end: usize, word: &[u8]) -> (r: bool)
    requires
        end <= msg@.len(),
    ensures
        r == (msg@.subrange(0, end as int) == word@),
{
    if end != word.len() {
        proof {
            assert(msg@.subrange(0, end as int).len() != word@.len());
        }
        return false;
    }
    let mut i: usize = 0;
    while i < end
        invariant
            end == word@.len(),
            end <= msg@.len(),
            i <= end,
            forall|j: int| 0 <= j < i ==> msg@[j] == word@[j],
        decreases end - i,
    {
        if msg[i] != word[i] {
            proof {
                assert(msg@.subrange(0, end as int)[i as int] != word@[i as int]);
            }
            return false;
        }
        i = i + 1;
    }
    proof {
        assert(msg@.subrange(0, end as int) =~= word@);
    }
    true
}

/// The length of the kind word of a server error, such as MOVED, ASK,
/// TRYAGAIN or WRONGTYPE.
pub fn error_kind_len(msg: &[u8]) -> (r: usize)
    ensures
        r <= msg@.len(),
        msg@.subrange(0, r as int) == error_kind(msg@),
{
    proof {
        lemma_find_hit(msg@, SPACE, 0);
    }
    find_byte(msg, SPACE, 0)
}

/// Reads a MOVED or ASK error, as `parse_redirection` states.
pub fn read_redirection(msg: &[u8]) -> (r: Option<Redirection>)
    ensures
        r is None <==> parse_redirection(msg@) is None,
        r matches Some(d) ==> parse_redirection(msg@) == Some((d.kind, d.slot as nat, d.address@)),
{
    let moved: Vec<u8> = vec![0x4du8, 0x4f, 0x56, 0x45, 0x44];
    let ask: Vec<u8> = vec![0x41u8, 0x53, 0x4b];
    proof {
        assert(moved@ =~= moved_word());
        assert(ask@ =~= ask_word());
    }
    let sp1 = find_byte(msg, SPACE, 0);
    if sp1 >= msg.len() {
        return None;
    }
    let sp2 = find_byte(msg, SPACE, sp1 + 1);
    proof {
        lemma_find_hit(msg@, SPACE, sp1 + 1);
    }
    if sp2 >= msg.len() || msg.len() - sp2 < 2 {
        return None;
    }
    let is_moved = equals_word(msg, sp1, moved.as_slice());
    let is_ask = equals_word(msg, sp1, ask.as_slice());
    if !is_moved && !is_ask {
        return None;
    }
    if sp2 <= sp1 || sp2 - sp1 - 1 < 1 || sp2 - sp1 - 1 > 5 {
        return None;
    }
    let ghost num = msg@.subrange(sp1 + 1, sp2 as int);
    let mut acc: u32 = 0;
    let mut i: usize = sp1 + 1;
    while i < sp2
        invariant
            sp1 + 1 <= i <= sp2 < msg@.len(),
            sp2 - sp1 - 1 <= 5,
            num == msg@.subrange(sp1 + 1, sp2 as int),
            sp1 as int == find_from(msg@, SPACE, 0),
            sp2 as int == find_from(msg@, SPACE, sp1 + 1),
            acc as nat == digits_value(msg@.subrange(sp1 + 1, i as int)),
            acc < crate::resp::pow10((i - sp1 - 1) as nat),
            forall|j: int| sp1 + 1 <= j < i ==> is_digit(#[trigger] msg@[j]),
        decreases sp2 - i,
    {
        let b = msg[i];
        if b < 0x30 || b > 0x39 {
            proof {
                assert(!is_digit(num[i - sp1 - 1]));
            }
            return None;
        }
        proof {
            let sub1 = msg@.subrange(sp1 + 1, i + 1);
            assert(sub1.drop_last() =~= msg@.subrange(sp1 + 1, i as int));
            assert(crate::resp::pow10((i + 1 - sp1 - 1) as nat) == 10 * crate::resp::pow10((i - sp1 - 1) as nat));
            assert(crate::resp::pow10(4) == 10000) by {
                reveal_with_fuel(crate::resp::pow10, 5);
            }
            crate::resp::lemma_pow10_mono((i - sp1 - 1) as nat, 4);
            assert(acc * 10 + 9 < 10 * crate::resp::pow10((i - sp1 - 1) as nat)) by (nonlinear_arith)
                requires acc < crate::resp::pow10((i - sp1 - 1) as nat);
        }
        acc = acc * 10 + (b - 0x30) as u32;
        i = i + 1;
    }
    proof {
        assert forall|j: int| 0 <= j < num.len() implies is_digit(#[trigger] num[j]) by {
            assert(num[j] == msg@[sp1 + 1 + j]);
        }
    }
    if acc >= SLOT_COUNT as u32 {
        return None;
    }
    let address = copy_tail(msg, sp2 + 1);
    Some(Redirection { kind: if is_moved { RedirectKind::Moved } else { RedirectKind::Ask }, slot: acc as u16, address })
}

fn copy_tail(msg: &[u8], from: usize) -> (r: Vec<u8>)
    requires
        from <= msg@.len(),
    ensures
        r@ == msg@.subrange(from as int, msg@.len() as int),
{
    let mut r: Vec<u8> = Vec::new();
    let mut i: usize = from;
    while i < msg.len()
        invariant
            from <= i <= msg@.len(),
            r@ == msg@.subrange(from as int, i as int),
        decreases msg@.len() - i,
    {
        r.push(msg[i]);
        i = i + 1;
        proof {
            assert(r@ =~= msg@.subrange(from as int, i as int));
        }
    }
    r
}

} // verus!
