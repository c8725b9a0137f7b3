use vstd::prelude::*;

verus! {

/// The number of hash slots a cluster's keys are spread over.
pub const SLOT_COUNT: u16 = 16384;

pub const OPEN_BRACE: u8 = 0x7b;

pub const CLOSE_BRACE: u8 = 0x7d;

/// One shift of the CRC16 register (polynomial 0x1021).
pub open spec fn crc_shift(c: u16) -> u16 {
    if c & 0x8000u16 != 0 {
        ((c << 1u16) ^ 0x1021u16) as u16
    } else {
        (c << 1u16) as u16
    }
}

/// The register after taking in one byte, most significant bit first.
pub open spec fn crc_byte(c: u16, b: u8) -> u16 {
    let x = (c ^ ((b as u16) << 8u16)) as u16;
    crc_shift(crc_shift(crc_shift(crc_shift(crc_shift(crc_shift(crc_shift(crc_shift(x))))))))
}

/// CRC16 (XMODEM: polynomial 0x1021, initial value 0, no reflection).
pub open spec fn crc16(s: Seq<u8>) -> u16
    decreases s.len(),
{
    if s.len() == 0 {
        0
    } else {
        crc_byte(crc16(s.drop_last()), s.last())
    }
}

/// The first position at or after `from` that holds `b`, or the length of
/// `s` when there is none.
pub open spec fn find_from(s: Seq<u8>, b: u8, from: int) -> int
    decreases s.len() - from,
{
    if from < 0 || from >= s.len() {
        s.len() as int
    } else if s[from] == b {
        from
    } else {
        find_from(s, b, from + 1)
    }
}

/// The part of a key that decides its slot: what stands between the first
/// `{` and the first `}` after it, if that is not empty; else the whole key.
pub open spec fn hash_key(key: Seq<u8>) -> Seq<u8> {
    let open = find_from(key, OPEN_BRACE, 0);
    let close = find_from(key, CLOSE_BRACE, open + 1);
    if open < key.len() && close < key.len() && close > open + 1 {
        key.subrange(open + 1, close)
    } else {
        key
    }
}

/// The slot that owns a key.
pub open spec fn key_slot(key: Seq<u8>) -> int {
    crc16(hash_key(key)) as int % SLOT_COUNT as int
}

fn shift(c: u16) -> (r: u16)
    ensures
        r == crc_shift(c),
{
    if c & 0x8000u16 != 0 {
        (c << 1u16) ^ 0x1021u16
    } else {
        c << 1u16
    }
}

fn update(c: u16, b: u8) -> (r: u16)
    ensures
        r == crc_byte(c, b),
{
    let x = c ^ ((b as u16) << 8u16);
    shift(shift(shift(shift(shift(shift(shift(shift(x))))))))
}

/// CRC16 of `s[lo..hi]`.
pub fn crc16_of(s: &[u8], lo: usize, hi: usize) -> (r: u16)
    requires
        lo <= hi <= s@.len(),
    ensures
        r == crc16(s@.subrange(lo as int, hi as int)),
{
    let mut c: u16 = 0;
    let mut i: usize = lo;
    while i < hi
        invariant
            lo <= i <= hi <= s@.len(),
            c == crc16(s@.subrange(lo as int, i as int)),
        decreases hi - i,
    {
        proof {
            assert(s@.subrange(lo as int, i + 1).drop_last() =~= s@.subrange(lo as int, i as int));
        }
        c = update(c, s[i]);
        i = i + 1;
    }
    c
}

/// The first position at or after `from` that holds `b`, or the length.
pub fn find_byte(s: &[u8], b: u8, from: usize) -> (r: usize)
    ensures
        r as int == find_from(s@, b, from as int),
{
    if from >= s.len() {
        return s.len();
    }
    let mut i: usize = from;
    while i < s.len()
        invariant
            from <= i <= s@.len(),
            find_from(s@, b, from as int) == find_from(s@, b, i as int),
        decreases s@.len() - i,
    {
        if s[i] == b {
            return i;
        }
        i = i + 1;
    }
    i
}

/// The slot that owns `key`: CRC16 of its hash tag, or of the whole key when
/// it has none, modulo the slot count.
pub fn hash_slot(key: &[u8]) -> (r: u16)
    ensures
        r as int == key_slot(key@),
        r < SLOT_COUNT,
{
    let open = find_byte(key, OPEN_BRACE, 0);
    let c = if open < key.len() {
        let close = find_byte(key, CLOSE_BRACE, open + 1);
        if close < key.len() && close > open + 1 {
            crc16_of(key, open + 1, close)
        } else {
            crc16_of(key, 0, key.len())
        }
    } else {
        crc16_of(key, 0, key.len())
    };
    proof {
        assert(key@.subrange(0, key@.len() as int) =~= key@);
    }
    c % SLOT_COUNT
}

proof fn lemma_find_in_tagged(x: Seq<u8>, rest: Seq<u8>, j: int)
    requires
        0 < j <= x.len() + 1,
        forall|i: int| 0 <= i < x.len() ==> x[i] != CLOSE_BRACE,
    ensures
        find_from(seq![OPEN_BRACE] + x + seq![CLOSE_BRACE] + rest, CLOSE_BRACE, j) == x.len() + 1,
    decreases x.len() + 1 - j,
{
    let k = seq![OPEN_BRACE] + x + seq![CLOSE_BRACE] + rest;
    if j < x.len() + 1 {
        assert(k[j] == x[j - 1]);
        lemma_find_in_tagged(x, rest, j + 1);
    } else {
        assert(k[j] == CLOSE_BRACE);
    }
}

/// A key that starts with a non-empty `{tag}` hashes as the tag alone.
pub proof fn lemma_tag_decides(x: Seq<u8>, rest: Seq<u8>)
    requires
        x.len() > 0,
        forall|i: int| 0 <= i < x.len() ==> x[i] != CLOSE_BRACE,
    ensures
        hash_key(seq![OPEN_BRACE] + x + seq![CLOSE_BRACE] + rest) == x,
{
    let k = seq![OPEN_BRACE] + x + seq![CLOSE_BRACE] + rest;
    assert(k[0] == OPEN_BRACE);
    assert(find_from(k, OPEN_BRACE, 0) == 0);
    lemma_find_in_tagged(x, rest, 1);
    assert(k.subrange(1, x.len() as int + 1) =~= x);
}

/// Keys that share a non-empty leading `{tag}` share a slot, whatever
/// follows the tag.
pub proof fn lemma_same_tag_same_slot(x: Seq<u8>, a: Seq<u8>, b: Seq<u8>)
    requires
        x.len() > 0,
        forall|i: int| 0 <= i < x.len() ==> x[i] != CLOSE_BRACE,
    ensures
        key_slot(seq![OPEN_BRACE] + x + seq![CLOSE_BRACE] + a)
            == key_slot(seq![OPEN_BRACE] + x + seq![CLOSE_BRACE] + b),
{
    lemma_tag_decides(x, a);
    lemma_tag_decides(x, b);
}

} // verus!
