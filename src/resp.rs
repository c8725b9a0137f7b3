use vstd::prelude::*;
use crate::command::Command;
use crate::slot::{find_from, find_byte};

verus! {

pub const CR: u8 = 0x0d;

pub const LF: u8 = 0x0a;

pub const DOLLAR: u8 = 0x24;

pub const STAR: u8 = 0x2a;

/// The largest size prefix a frame may carry (512 MiB).
pub const MAX_FRAME_SIZE: u64 = 536870912;

/// The decimal text of a number, without leading zeros.
pub open spec fn decimal(n: nat) -> Seq<u8>
    decreases n,
{
    if n < 10 {
        seq![(0x30 + n) as u8]
    } else {
        decimal(n / 10).push((0x30 + n % 10) as u8)
    }
}

pub open spec fn crlf() -> Seq<u8> {
    seq![CR, LF]
}

/// One bulk string: `$<len>\r\n<bytes>\r\n`.
pub open spec fn bulk(b: Seq<u8>) -> Seq<u8> {
    seq![DOLLAR] + decimal(b.len()) + crlf() + b + crlf()
}

/// Bulk strings one after another.
pub open spec fn bulks(items: Seq<Seq<u8>>) -> Seq<u8>
    decreases items.len(),
{
    if items.len() == 0 {
        Seq::empty()
    } else {
        bulks(items.drop_last()) + bulk(items.last())
    }
}

/// An array of bulk strings: `*<n>\r\n` and then each item.
pub open spec fn array_frame(items: Seq<Seq<u8>>) -> Seq<u8> {
    seq![STAR] + decimal(items.len()) + crlf() + bulks(items)
}

/// What a command is on the wire: its name, then its arguments.
pub open spec fn command_items(c: Command) -> Seq<Seq<u8>> {
    seq![c.name@] + c.args_view()
}

pub fn write_decimal(out: &mut Vec<u8>, n: usize)
    ensures
        final(out)@ == old(out)@ + decimal(n as nat),
    decreases n,
{
    if n >= 10 {
        write_decimal(out, n / 10);
    }
    out.push(0x30u8 + (n % 10) as u8);
    proof {
        assert(final(out)@ =~= old(out)@ + decimal(n as nat));
    }
}

fn write_bulk(out: &mut Vec<u8>, b: &[u8])
    ensures
        final(out)@ == old(out)@ + bulk(b@),
{
    out.push(DOLLAR);
    write_decimal(out, b.len());
    out.push(CR);
    out.push(LF);
    let mut i: usize = 0;
    let ghost head = out@;
    while i < b.len()
        invariant
            i <= b@.len(),
            out@ == head + b@.subrange(0, i as int),
        decreases b@.len() - i,
    {
        out.push(b[i]);
        i = i + 1;
        proof {
            assert(out@ =~= head + b@.subrange(0, i as int));
        }
    }
    out.push(CR);
    out.push(LF);
    proof {
        assert(b@.subrange(0, b@.len() as int) =~= b@);
        assert(final(out)@ =~= old(out)@ + bulk(b@));
    }
}

/// Serializes a command as one frame: an array of bulk strings, the name
/// first and then each argument.
pub fn encode_command(c: &Command) -> (r: Vec<u8>)
    requires
        c.args@.len() < usize::MAX,
    ensures
        r@ == array_frame(command_items(*c)),
{
    let ghost items = command_items(*c);
    let mut out: Vec<u8> = Vec::new();
    out.push(STAR);
    write_decimal(&mut out, c.args.len() + 1);
    out.push(CR);
    out.push(LF);
    let ghost head = out@;
    write_bulk(&mut out, c.name.as_slice());
    proof {
        let one = items.subrange(0, 1);
        assert(one.drop_last() =~= Seq::<Seq<u8>>::empty());
        assert(bulks(one.drop_last()) =~= Seq::<u8>::empty());
        assert(one.last() == c.name@);
        assert(bulks(one) =~= bulk(c.name@));
        assert(out@ =~= head + bulks(one));
    }
    let mut i: usize = 0;
    while i < c.args.len()
        invariant
            items == command_items(*c),
            i <= c.args@.len(),
            out@ == head + bulks(items.subrange(0, i + 1)),
        decreases c.args@.len() - i,
    {
        write_bulk(&mut out, c.args[i].as_slice());
        proof {
            let s = items.subrange(0, i + 2);
            assert(s.drop_last() =~= items.subrange(0, i + 1));
            assert(s.last() == c.args@[i as int]@);
            assert(out@ =~= head + bulks(s));
        }
        i = i + 1;
    }
    proof {
        assert(items.subrange(0, items.len() as int) =~= items);
        assert(out@ =~= array_frame(items));
    }
    out
}

pub open spec fn is_digit(b: u8) -> bool {
    0x30 <= b <= 0x39
}

/// The number that a run of decimal digits stands for.
pub open spec fn digits_value(s: Seq<u8>) -> nat
    decreases s.len(),
{
    if s.len() == 0 {
        0
    } else {
        digits_value(s.drop_last()) * 10 + (s.last() - 0x30) as nat
    }
}

/// A size prefix as the protocol writes it: one to ten digits, with no
/// leading zero.
pub open spec fn canonical(t: Seq<u8>) -> bool {
    &&& 1 <= t.len() <= 10
    &&& forall|i: int| 0 <= i < t.len() ==> is_digit(#[trigger] t[i])
    &&& (t[0] != 0x30 || t.len() == 1)
}

/// A size line at `pos`: digits up to the first CR, then LF. Gives the size
/// and the position after the line; none if the line is malformed or
/// incomplete, or the size is over the bound.
pub open spec fn parse_size(s: Seq<u8>, pos: int) -> Option<(nat, int)> {
    let cr = find_from(s, CR, pos);
    if 0 <= pos <= cr && cr + 1 < s.len() && s[cr + 1] == LF && canonical(s.subrange(pos, cr))
        && digits_value(s.subrange(pos, cr)) <= MAX_FRAME_SIZE {
        Some((digits_value(s.subrange(pos, cr)), cr + 2))
    } else {
        None
    }
}

/// A bulk string at `pos`, and the position after it.
pub open spec fn parse_bulk(s: Seq<u8>, pos: int) -> Option<(Seq<u8>, int)> {
    if 0 <= pos < s.len() && s[pos] == DOLLAR {
        match parse_size(s, pos + 1) {
            Some((n, p)) => if p + n + 2 <= s.len() && s[p + n] == CR && s[p + n + 1] == LF {
                Some((s.subrange(p, p + n), p + n + 2))
            } else {
                None
            },
            None => None,
        }
    } else {
        None
    }
}

/// `count` bulk strings one after another from `pos`.
pub open spec fn parse_bulks(s: Seq<u8>, pos: int, count: nat) -> Option<(Seq<Seq<u8>>, int)>
    decreases count,
{
    if count == 0 {
        Some((Seq::empty(), pos))
    } else {
        match parse_bulks(s, pos, (count - 1) as nat) {
            Some((items, p)) => match parse_bulk(s, p) {
                Some((b, q)) => Some((items.push(b), q)),
                None => None,
            },
            None => None,
        }
    }
}

/// An array of bulk strings at the start of `s`: its items and the number
/// of bytes it takes.
pub open spec fn parse_array_frame(s: Seq<u8>) -> Option<(Seq<Seq<u8>>, int)> {
    if s.len() > 0 && s[0] == STAR {
        match parse_size(s, 1) {
            Some((n, p)) => parse_bulks(s, p, n),
            None => None,
        }
    } else {
        None
    }
}

/// Every item, and the number of items, fits the size bound.
pub open spec fn within_bound(items: Seq<Seq<u8>>) -> bool {
    &&& items.len() <= MAX_FRAME_SIZE
    &&& forall|i: int| 0 <= i < items.len() ==> #[trigger] items[i].len() <= MAX_FRAME_SIZE
}

proof fn lemma_decimal(n: nat)
    ensures
        1 <= decimal(n).len(),
        forall|i: int| 0 <= i < decimal(n).len() ==> is_digit(#[trigger] decimal(n)[i]),
        decimal(n)[0] != 0x30 || n == 0,
        decimal(n).len() == 1 <==> n < 10,
        digits_value(decimal(n)) == n,
    decreases n,
{
    if n >= 10 {
        lemma_decimal(n / 10);
        let d = decimal(n);
        assert(n % 10 < 10);
        assert(d.last() == (0x30 + n % 10) as u8);
        assert((d.last() - 0x30) as nat == n % 10);
        assert(d.drop_last() == decimal(n / 10));
        assert(n == (n / 10) * 10 + n % 10);
        assert forall|i: int| 0 <= i < d.len() implies is_digit(#[trigger] d[i]) by {
            if i < d.len() - 1 {
                assert(d[i] == decimal(n / 10)[i]);
            }
        }
        assert(d[0] == decimal(n / 10)[0]);
        assert(digits_value(d) == digits_value(decimal(n / 10)) * 10 + n % 10);
    } else {
        let d = decimal(n);
        assert(d.drop_last() =~= Seq::<u8>::empty());
        assert(d.last() == (0x30 + n) as u8);
        assert(digits_value(d) == digits_value(d.drop_last()) * 10 + (d.last() - 0x30) as nat);
    }
}

pub open spec fn pow10(k: nat) -> nat
    decreases k,
{
    if k == 0 {
        1
    } else {
        10 * pow10((k - 1) as nat)
    }
}

proof fn lemma_decimal_len(n: nat, k: nat)
    requires
        k >= 1,
        n < pow10(k),
    ensures
        decimal(n).len() <= k,
    decreases n,
{
    if n >= 10 {
        assert(k >= 2) by {
            if k == 1 {
                assert(pow10(0) == 1);
            }
        }
        assert(n / 10 < pow10((k - 1) as nat));
        lemma_decimal_len(n / 10, (k - 1) as nat);
    }
}

proof fn lemma_find_cr(s: Seq<u8>, pos: int, len: int, j: int)
    requires
        0 <= pos <= j <= pos + len < s.len(),
        forall|i: int| pos <= i < pos + len ==> is_digit(#[trigger] s[i]),
        s[pos + len] == CR,
    ensures
        find_from(s, CR, j) == pos + len,
    decreases pos + len - j,
{
    if j < pos + len {
        assert(is_digit(s[j]));
        lemma_find_cr(s, pos, len, j + 1);
    }
}

proof fn lemma_parse_size_at(s: Seq<u8>, pos: int, n: nat)
    requires
        0 <= pos,
        pos + decimal(n).len() + 2 <= s.len(),
        s.subrange(pos, pos + decimal(n).len() + 2) == decimal(n) + crlf(),
        n <= MAX_FRAME_SIZE,
    ensures
        parse_size(s, pos) == Some((n, pos + decimal(n).len() + 2)),
{
    let d = decimal(n);
    lemma_decimal(n);
    assert(pow10(10) == 10000000000) by {
        reveal_with_fuel(pow10, 11);
    }
    lemma_decimal_len(n, 10);
    assert forall|i: int| pos <= i < pos + d.len() implies is_digit(#[trigger] s[i]) by {
        assert(s[i] == s.subrange(pos, pos + d.len() + 2)[i - pos]);
        assert(s[i] == d[i - pos]);
    }
    assert(s[pos + d.len()] == s.subrange(pos, pos + d.len() + 2)[d.len() as int]);
    assert(s[pos + d.len() + 1] == s.subrange(pos, pos + d.len() + 2)[d.len() as int + 1]);
    lemma_find_cr(s, pos, d.len() as int, pos);
    assert(s.subrange(pos, pos + d.len()) =~= d) by {
        assert forall|i: int| 0 <= i < d.len() implies s.subrange(pos, pos + d.len())[i] == d[i] by {
            assert(s[pos + i] == s.subrange(pos, pos + d.len() + 2)[i]);
        }
    }
}

proof fn lemma_parse_bulk_at(s: Seq<u8>, pos: int, b: Seq<u8>)
    requires
        0 <= pos,
        pos + bulk(b).len() <= s.len(),
        s.subrange(pos, pos + bulk(b).len()) == bulk(b),
        b.len() <= MAX_FRAME_SIZE,
    ensures
        parse_bulk(s, pos) == Some((b, pos + bulk(b).len())),
{
    let d = decimal(b.len());
    let w = bulk(b);
    let q = pos + 1 + d.len() + 2;
    assert(s[pos] == w[0]);
    assert(s.subrange(pos + 1, pos + 1 + d.len() + 2) =~= d + crlf()) by {
        assert forall|i: int| 0 <= i < d.len() + 2 implies s.subrange(pos + 1, pos + 1 + d.len() + 2)[i]
            == (d + crlf())[i] by {
            assert(s[pos + 1 + i] == w[1 + i]);
        }
    }
    lemma_parse_size_at(s, pos + 1, b.len());
    assert(s[q + b.len()] == w[q + b.len() - pos]);
    assert(s[q + b.len() + 1] == w[q + b.len() + 1 - pos]);
    assert(s.subrange(q, q + b.len()) =~= b) by {
        assert forall|i: int| 0 <= i < b.len() implies s.subrange(q, q + b.len())[i] == b[i] by {
            assert(s[q + i] == w[q + i - pos]);
        }
    }
}

proof fn lemma_parse_bulks_at(s: Seq<u8>, pos: int, items: Seq<Seq<u8>>)
    requires
        0 <= pos,
        pos + bulks(items).len() <= s.len(),
        s.subrange(pos, pos + bulks(items).len()) == bulks(items),
        within_bound(items),
    ensures
        parse_bulks(s, pos, items.len()) == Some((items, pos + bulks(items).len())),
    decreases items.len(),
{
    if items.len() > 0 {
        let init = items.drop_last();
        let b = items.last();
        let l = bulks(init).len();
        assert(bulks(items) == bulks(init) + bulk(b));
        assert(s.subrange(pos, pos + l) =~= bulks(init)) by {
            assert forall|i: int| 0 <= i < l implies s.subrange(pos, pos + l)[i] == bulks(init)[i] by {
                assert(s[pos + i] == bulks(items)[i]);
            }
        }
        assert forall|i: int| 0 <= i < init.len() implies #[trigger] init[i].len() <= MAX_FRAME_SIZE by {
            assert(init[i] == items[i]);
        }
        lemma_parse_bulks_at(s, pos, init);
        assert(s.subrange(pos + l, pos + l + bulk(b).len()) =~= bulk(b)) by {
            assert forall|i: int| 0 <= i < bulk(b).len() implies s.subrange(pos + l, pos + l + bulk(b).len())[i]
                == bulk(b)[i] by {
                assert(s[pos + l + i] == bulks(items)[l + i]);
            }
        }
        assert(items[items.len() - 1].len() <= MAX_FRAME_SIZE);
        lemma_parse_bulk_at(s, pos + l, b);
        assert(init.push(b) =~= items);
    } else {
        assert(items =~= Seq::<Seq<u8>>::empty());
    }
}

/// Decoding what was encoded gives back the items, whatever follows the
/// frame in the buffer, and consumes the frame exactly.
pub proof fn lemma_decode_encoded(items: Seq<Seq<u8>>, rest: Seq<u8>)
    requires
        within_bound(items),
    ensures
        parse_array_frame(array_frame(items) + rest) == Some((items, array_frame(items).len() as int)),
{
    let f = array_frame(items);
    let s = f + rest;
    let d = decimal(items.len());
    let dl = d.len() as int;
    assert(s[0] == STAR);
    assert(s.subrange(1, 1 + dl + 2) =~= d + crlf()) by {
        assert forall|i: int| 0 <= i < dl + 2 implies s.subrange(1, 1 + dl + 2)[i] == (d + crlf())[i] by {
            assert(s[1 + i] == f[1 + i]);
        }
    }
    lemma_parse_size_at(s, 1, items.len());
    let p = 1 + dl + 2;
    let bl = bulks(items).len() as int;
    assert(s.subrange(p, p + bl) =~= bulks(items)) by {
        assert forall|i: int| 0 <= i < bl implies s.subrange(p, p + bl)[i]
            == bulks(items)[i] by {
            assert(s[p + i] == f[p + i]);
        }
    }
    lemma_parse_bulks_at(s, p, items);
}

/// Reads a size line at `pos`, as `parse_size` states.
pub fn read_size(buf: &[u8], pos: usize) -> (r: Option<(usize, usize)>)
    ensures
        r is None <==> parse_size(buf@, pos as int) is None,
        r matches Some((n, p)) ==> parse_size(buf@, pos as int) == Some((n as nat, p as int)),
{
    let cr = find_byte(buf, CR, pos);
    if cr < pos || cr >= buf.len() || buf.len() - cr < 2 || buf[cr + 1] != LF {
        return None;
    }
    let len = cr - pos;
    if len < 1 || len > 10 {
        return None;
    }
    if buf[pos] == 0x30 && len != 1 {
        return None;
    }
    let ghost text = buf@.subrange(pos as int, cr as int);
    let mut acc: u64 = 0;
    let mut i: usize = pos;
    while i < cr
        invariant
            pos <= i <= cr < buf@.len(),
            cr - pos <= 10,
            text == buf@.subrange(pos as int, cr as int),
            cr as int == find_from(buf@, CR, pos as int),
            acc as nat == digits_value(buf@.subrange(pos as int, i as int)),
            acc < pow10((i - pos) as nat),
            forall|j: int| pos <= j < i ==> is_digit(#[trigger] buf@[j]),
        decreases cr - i,
    {
        let b = buf[i];
        if b < 0x30 || b > 0x39 {
            proof {
                assert(!is_digit(text[i - pos]));
            }
            return None;
        }
        proof {
            let sub1 = buf@.subrange(pos as int, i + 1);
            assert(sub1.drop_last() =~= buf@.subrange(pos as int, i as int));
            assert(pow10((i + 1 - pos) as nat) == 10 * pow10((i - pos) as nat));
            assert(pow10(9) == 1000000000) by {
                reveal_with_fuel(pow10, 10);
            }
            lemma_pow10_mono((i - pos) as nat, 9);
            assert(acc * 10 + 9 < 10 * pow10((i - pos) as nat)) by (nonlinear_arith)
                requires acc < pow10((i - pos) as nat);
        }
        acc = acc * 10 + (b - 0x30) as u64;
        i = i + 1;
    }
    proof {
        assert forall|j: int| 0 <= j < text.len() implies is_digit(#[trigger] text[j]) by {
            assert(text[j] == buf@[pos + j]);
        }
        assert(text[0] == buf@[pos as int]);
    }
    if acc > MAX_FRAME_SIZE {
        return None;
    }
    Some((acc as usize, cr + 2))
}

pub proof fn lemma_pow10_mono(a: nat, b: nat)
    requires
        a <= b,
    ensures
        pow10(a) <= pow10(b),
    decreases b,
{
    if a < b {
        lemma_pow10_mono(a, (b - 1) as nat);
    }
}

fn copy_range(buf: &[u8], lo: usize, hi: usize) -> (r: Vec<u8>)
    requires
        lo <= hi <= buf@.len(),
    ensures
        r@ == buf@.subrange(lo as int, hi as int),
{
    let mut r: Vec<u8> = Vec::new();
    let mut i: usize = lo;
    while i < hi
        invariant
            lo <= i <= hi <= buf@.len(),
            r@ == buf@.subrange(lo as int, i as int),
        decreases hi - i,
    {
        r.push(buf[i]);
        i = i + 1;
        proof {
            assert(r@ =~= buf@.subrange(lo as int, i as int));
        }
    }
    r
}

/// Reads a bulk string at `pos`, as `parse_bulk` states.
pub fn read_bulk(buf: &[u8], pos: usize) -> (r: Option<(Vec<u8>, usize)>)
    ensures
        r is None <==> parse_bulk(buf@, pos as int) is None,
        r matches Some((b, p)) ==> parse_bulk(buf@, pos as int) == Some((b@, p as int)),
{
    if pos >= buf.len() || buf[pos] != DOLLAR {
        return None;
    }
    match read_size(buf, pos + 1) {
        None => None,
        Some((n, p)) => {
            if p > buf.len() || buf.len() - p < 2 || buf.len() - p - 2 < n {
                return None;
            }
            if buf[p + n] != CR || buf[p + n + 1] != LF {
                return None;
            }
            Some((copy_range(buf, p, p + n), p + n + 2))
        },
    }
}

proof fn lemma_bulks_fail_after(s: Seq<u8>, p: int, k: nat, m: nat)
    requires
        parse_bulks(s, p, k) is None,
        k <= m,
    ensures
        parse_bulks(s, p, m) is None,
    decreases m - k,
{
    if k < m {
        lemma_bulks_fail_after(s, p, k, (m - 1) as nat);
    }
}

/// The items of a sequence of byte vectors, as sequences.
pub open spec fn items_view(v: Seq<Vec<u8>>) -> Seq<Seq<u8>> {
    v.map_values(|b: Vec<u8>| b@)
}

/// Decodes an array of bulk strings at the start of `buf`: its items and
/// the number of bytes the frame takes. None when `buf` does not start
/// with a complete, well-formed frame within the size bound.
pub fn decode_array_frame(buf: &[u8]) -> (r: Option<(Vec<Vec<u8>>, usize)>)
    ensures
        r is None <==> parse_array_frame(buf@) is None,
        r matches Some((items, k)) ==> parse_array_frame(buf@) == Some((items_view(items@), k as int)),
{
    if buf.len() == 0 || buf[0] != STAR {
        return None;
    }
    let (count, start) = match read_size(buf, 1) {
        None => return None,
        Some(x) => x,
    };
    let mut items: Vec<Vec<u8>> = Vec::new();
    let mut pos: usize = start;
    let mut i: usize = 0;
    while i < count
        invariant
            i <= count,
            parse_size(buf@, 1) == Some((count as nat, start as int)),
            parse_bulks(buf@, start as int, i as nat) == Some((items_view(items@), pos as int)),
        decreases count - i,
    {
        match read_bulk(buf, pos) {
            None => {
                proof {
                    lemma_bulks_fail_after(buf@, start as int, (i + 1) as nat, count as nat);
                }
                return None;
            },
            Some((b, next)) => {
                let ghost prev = items@;
                let ghost bv = b@;
                items.push(b);
                pos = next;
                proof {
                    assert(items_view(items@) =~= items_view(prev).push(bv));
                }
            },
        }
        i = i + 1;
    }
    Some((items, pos))
}

proof fn lemma_value_positive(t: Seq<u8>)
    requires
        t.len() >= 1,
        forall|i: int| 0 <= i < t.len() ==> is_digit(#[trigger] t[i]),
        t[0] != 0x30,
    ensures
        digits_value(t) >= 1,
    decreases t.len(),
{
    if t.len() > 1 {
        let u = t.drop_last();
        assert(u[0] == t[0]);
        assert forall|i: int| 0 <= i < u.len() implies is_digit(#[trigger] u[i]) by {
            assert(u[i] == t[i]);
        }
        lemma_value_positive(u);
    } else {
        assert(t.drop_last() =~= Seq::<u8>::empty());
    }
}

proof fn lemma_canonical_decimal(t: Seq<u8>)
    requires
        t.len() >= 1,
        forall|i: int| 0 <= i < t.len() ==> is_digit(#[trigger] t[i]),
        t[0] != 0x30 || t.len() == 1,
    ensures
        decimal(digits_value(t)) == t,
    decreases t.len(),
{
    let v = digits_value(t);
    if t.len() == 1 {
        assert(t.drop_last() =~= Seq::<u8>::empty());
        assert(digits_value(t.drop_last()) == 0);
        assert(is_digit(t[0]));
        assert(t.last() == t[0]);
        assert(v < 10);
        assert(decimal(v) =~= t);
    } else {
        let u = t.drop_last();
        assert(u[0] == t[0]);
        assert forall|i: int| 0 <= i < u.len() implies is_digit(#[trigger] u[i]) by {
            assert(u[i] == t[i]);
        }
        lemma_canonical_decimal(u);
        lemma_value_positive(u);
        let a = digits_value(u);
        assert(is_digit(t[t.len() - 1]));
        let d = (t.last() - 0x30) as nat;
        assert(d < 10);
        assert(v == a * 10 + d);
        assert(v / 10 == a && v % 10 == d) by (nonlinear_arith)
            requires v == a * 10 + d, d < 10;
        assert(v >= 10);
        assert(decimal(v) =~= t);
    }
}

pub proof fn lemma_find_hit(s: Seq<u8>, b: u8, from: int)
    requires
        0 <= from,
    ensures
        find_from(s, b, from) <= s.len(),
        from <= s.len() ==> from <= find_from(s, b, from),
        find_from(s, b, from) < s.len() ==> s[find_from(s, b, from)] == b,
    decreases s.len() - from,
{
    if from < s.len() && s[from] != b {
        lemma_find_hit(s, b, from + 1);
    }
}

proof fn lemma_size_line(s: Seq<u8>, pos: int)
    requires
        parse_size(s, pos) is Some,
    ensures
        ({
            let (n, p) = parse_size(s, pos)->0;
            &&& n <= MAX_FRAME_SIZE
            &&& 0 <= pos
            &&& p == pos + decimal(n).len() + 2
            &&& p <= s.len()
            &&& s.subrange(pos, p) == decimal(n) + crlf()
        }),
{
    let cr = find_from(s, CR, pos);
    let t = s.subrange(pos, cr);
    lemma_find_hit(s, CR, pos);
    lemma_canonical_decimal(t);
    assert(s.subrange(pos, cr + 2) =~= t + crlf());
}

proof fn lemma_bulk_bytes(s: Seq<u8>, pos: int)
    requires
        parse_bulk(s, pos) is Some,
    ensures
        ({
            let (b, q) = parse_bulk(s, pos)->0;
            &&& b.len() <= MAX_FRAME_SIZE
            &&& 0 <= pos
            &&& q == pos + bulk(b).len()
            &&& q <= s.len()
            &&& s.subrange(pos, q) == bulk(b)
        }),
{
    lemma_size_line(s, pos + 1);
    let (n, p) = parse_size(s, pos + 1)->0;
    let (b, q) = parse_bulk(s, pos)->0;
    assert(s.subrange(pos, q) =~= seq![DOLLAR] + s.subrange(pos + 1, p) + s.subrange(p, p + n)
        + s.subrange(p + n, q));
    assert(s.subrange(p + n, q) =~= crlf());
}

proof fn lemma_bulks_bytes(s: Seq<u8>, pos: int, count: nat)
    requires
        0 <= pos <= s.len(),
        parse_bulks(s, pos, count) is Some,
    ensures
        ({
            let (items, q) = parse_bulks(s, pos, count)->0;
            &&& items.len() == count
            &&& forall|i: int| 0 <= i < items.len() ==> #[trigger] items[i].len() <= MAX_FRAME_SIZE
            &&& q == pos + bulks(items).len()
            &&& q <= s.len()
            &&& s.subrange(pos, q) == bulks(items)
        }),
    decreases count,
{
    if count == 0 {
        assert(s.subrange(pos, pos) =~= Seq::<u8>::empty());
    } else {
        lemma_bulks_bytes(s, pos, (count - 1) as nat);
        let (init, p) = parse_bulks(s, pos, (count - 1) as nat)->0;
        lemma_bulk_bytes(s, p);
        let (b, q) = parse_bulk(s, p)->0;
        let items = init.push(b);
        assert(items.drop_last() =~= init);
        assert(s.subrange(pos, q) =~= s.subrange(pos, p) + s.subrange(p, q));
        assert forall|i: int| 0 <= i < items.len() implies #[trigger] items[i].len() <= MAX_FRAME_SIZE by {
            if i < init.len() {
                assert(items[i] == init[i]);
            }
        }
    }
}

/// A decoded frame is the encoding of its items: what the decoder consumed
/// is exactly what the encoder writes for what it returned.
pub proof fn lemma_encode_decoded(s: Seq<u8>)
    requires
        parse_array_frame(s) is Some,
    ensures
        ({
            let (items, k) = parse_array_frame(s)->0;
            &&& within_bound(items)
            &&& 0 <= k <= s.len()
            &&& s.subrange(0, k) == array_frame(items)
        }),
{
    lemma_size_line(s, 1);
    let (n, p) = parse_size(s, 1)->0;
    lemma_bulks_bytes(s, p, n);
    let (items, k) = parse_array_frame(s)->0;
    assert(s.subrange(0, k) =~= seq![STAR] + s.subrange(1, p) + s.subrange(p, k));
}

} // verus!
