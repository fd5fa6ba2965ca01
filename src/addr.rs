use vstd::prelude::*;
use vstd::string::StrSliceExecFns;

use crate::modbus::sorted_unique;

verus! {

/// Why an address list was refused.
#[derive(Debug, Clone, Copy, PartialEq, Eq, Structural)]
pub enum AddrError {
    /// Nothing but whitespace.
    Empty,
    /// A comma with nothing between it and the next one or an end.
    EmptyPart,
    /// A range with a missing end or with more than one `-`.
    BadRange,
    /// Not a decimal number.
    BadNumber,
    /// A number above 65535.
    OutOfRange,
    /// A range whose start is above its end.
    Reversed,
}

/// Unicode white space, as `str::trim` strips it.
pub open spec fn is_ws(c: char) -> bool {
    let n = c as u32;
    n == 0x20 || (0x09 <= n <= 0x0d) || n == 0x85 || n == 0xa0 || n == 0x1680 || (0x2000 <= n
        <= 0x200a) || n == 0x2028 || n == 0x2029 || n == 0x202f || n == 0x205f || n == 0x3000
}

pub open spec fn trim_start(s: Seq<char>) -> Seq<char>
    decreases s.len(),
{
    if s.len() > 0 && is_ws(s[0]) {
        trim_start(s.drop_first())
    } else {
        s
    }
}

pub open spec fn trim_end(s: Seq<char>) -> Seq<char>
    decreases s.len(),
{
    if s.len() > 0 && is_ws(s.last()) {
        trim_end(s.drop_last())
    } else {
        s
    }
}

pub open spec fn trim(s: Seq<char>) -> Seq<char> {
    trim_end(trim_start(s))
}

/// Index of the first `c` in `s`, or `s.len()` where there is none.
pub open spec fn index_of(s: Seq<char>, c: char) -> int
    decreases s.len(),
{
    if s.len() == 0 {
        0
    } else if s[0] == c {
        0
    } else {
        1 + index_of(s.drop_first(), c)
    }
}

/// The pieces of `s` between the commas; one more piece than there are commas.
pub open spec fn split_commas(s: Seq<char>) -> Seq<Seq<char>>
    decreases s.len(),
{
    if s.len() == 0 {
        seq![Seq::empty()]
    } else if s.last() == ',' {
        split_commas(s.drop_last()).push(Seq::empty())
    } else {
        let p = split_commas(s.drop_last());
        p.update(p.len() - 1, p.last().push(s.last()))
    }
}

pub open spec fn is_digit(c: char) -> bool {
    '0' <= c <= '9'
}

pub open spec fn digits_value(s: Seq<char>) -> nat
    decreases s.len(),
{
    if s.len() == 0 {
        0
    } else {
        digits_value(s.drop_last()) * 10 + (s.last() as nat - '0' as nat) as nat
    }
}

pub open spec fn num_body(s: Seq<char>) -> Seq<char> {
    if s.len() > 0 && s[0] == '+' {
        s.drop_first()
    } else {
        s
    }
}

pub open spec fn all_digits(s: Seq<char>) -> bool {
    forall|i: int| 0 <= i < s.len() ==> is_digit(#[trigger] s[i])
}

/// A decimal number as `u32`'s parser reads it (an optional `+`, then digits),
/// kept only below 65536.
pub open spec fn parse_num(s: Seq<char>) -> Result<int, AddrError> {
    let body = num_body(s);
    if body.len() == 0 || !all_digits(body) {
        Err(AddrError::BadNumber)
    } else if digits_value(body) > u32::MAX {
        Err(AddrError::BadNumber)
    } else if digits_value(body) > u16::MAX {
        Err(AddrError::OutOfRange)
    } else {
        Ok(digits_value(body) as int)
    }
}

/// The addresses that one comma-separated piece names: `n` or `a-b`.
pub open spec fn parse_part(raw: Seq<char>) -> Result<Set<int>, AddrError> {
    let p = trim(raw);
    let k = index_of(p, '-');
    if p.len() == 0 {
        Err(AddrError::EmptyPart)
    } else if k < p.len() {
        let a = trim(p.subrange(0, k));
        let b = trim(p.subrange(k + 1, p.len() as int));
        if a.len() == 0 || b.len() == 0 || index_of(b, '-') < b.len() {
            Err(AddrError::BadRange)
        } else {
            match parse_num(a) {
                Err(e) => Err(e),
                Ok(x) => match parse_num(b) {
                    Err(e) => Err(e),
                    Ok(y) => if x > y {
                        Err(AddrError::Reversed)
                    } else {
                        Ok(Set::new(|v: int| x <= v <= y))
                    },
                },
            }
        }
    } else {
        match parse_num(p) {
            Err(e) => Err(e),
            Ok(x) => Ok(set![x]),
        }
    }
}

/// The union of what the pieces name, or the error of the first piece that fails.
pub open spec fn parse_parts(parts: Seq<Seq<char>>) -> Result<Set<int>, AddrError>
    decreases parts.len(),
{
    if parts.len() == 0 {
        Ok(Set::empty())
    } else {
        match parse_parts(parts.drop_last()) {
            Err(e) => Err(e),
            Ok(a) => match parse_part(parts.last()) {
                Err(e) => Err(e),
                Ok(b) => Ok(a.union(b)),
            },
        }
    }
}

/// The set of addresses that an address list names, or why it is refused.
pub open spec fn addr_list(s: Seq<char>) -> Result<Set<int>, AddrError> {
    if trim(s).len() == 0 {
        Err(AddrError::Empty)
    } else {
        parse_parts(split_commas(trim(s)))
    }
}

fn is_ws_char(ch: char) -> (r: bool)
    ensures
        r == is_ws(ch),
{
    let n = ch as u32;
    n == 0x20 || (0x09 <= n && n <= 0x0d) || n == 0x85 || n == 0xa0 || n == 0x1680 || (0x2000 <= n
        && n <= 0x200a) || n == 0x2028 || n == 0x2029 || n == 0x202f || n == 0x205f || n == 0x3000
}

pub(crate) fn chars_of(s: &str) -> (r: Vec<char>)
    ensures
        r@ == s@,
{
    let n = s.unicode_len();
    let mut out: Vec<char> = Vec::new();
    let mut i: usize = 0;
    while i < n
        invariant
            n == s@.len(),
            i <= n,
            out@ == s@.subrange(0, i as int),
        decreases n - i,
    {
        out.push(s.get_char(i));
        i = i + 1;
        assert(out@ =~= s@.subrange(0, i as int));
    }
    assert(out@ =~= s@);
    out
}

/// The bounds of `c[lo..hi]` with white space stripped from both ends.
pub(crate) fn trim_range(c: &Vec<char>, lo: usize, hi: usize) -> (r: (usize, usize))
    requires
        lo <= hi <= c.len(),
    ensures
        lo <= r.0 <= r.1 <= hi,
        c@.subrange(r.0 as int, r.1 as int) == trim(c@.subrange(lo as int, hi as int)),
{
    let mut a = lo;
    while a < hi && is_ws_char(c[a])
        invariant
            lo <= a <= hi <= c.len(),
            trim_start(c@.subrange(lo as int, hi as int)) == trim_start(c@.subrange(a as int, hi as int)),
        decreases hi - a,
    {
        assert(c@.subrange(a as int, hi as int).drop_first() =~= c@.subrange(a + 1, hi as int));
        a = a + 1;
    }
    let mut b = hi;
    while b > a && is_ws_char(c[b - 1])
        invariant
            lo <= a <= b <= hi <= c.len(),
            trim_end(c@.subrange(a as int, hi as int)) == trim_end(c@.subrange(a as int, b as int)),
        decreases b - a,
    {
        assert(c@.subrange(a as int, b as int).drop_last() =~= c@.subrange(a as int, b - 1));
        b = b - 1;
    }
    (a, b)
}

/// Position of the first `ch` in `c[lo..hi]`, or `hi`.
fn find(c: &Vec<char>, lo: usize, hi: usize, ch: char) -> (r: usize)
    requires
        lo <= hi <= c.len(),
    ensures
        lo <= r <= hi,
        r - lo == index_of(c@.subrange(lo as int, hi as int), ch),
{
    let mut i = lo;
    while i < hi && c[i] != ch
        invariant
            lo <= i <= hi <= c.len(),
            index_of(c@.subrange(lo as int, hi as int), ch) == (i - lo) + index_of(
                c@.subrange(i as int, hi as int),
                ch,
            ),
        decreases hi - i,
    {
        assert(c@.subrange(i as int, hi as int).drop_first() =~= c@.subrange(i + 1, hi as int));
        i = i + 1;
    }
    i
}

/// The number in `c[lo..hi]`.
fn parse_u16(c: &Vec<char>, lo: usize, hi: usize) -> (r: Result<u16, AddrError>)
    requires
        lo <= hi <= c.len(),
    ensures
        match parse_num(c@.subrange(lo as int, hi as int)) {
            Ok(x) => r == Ok::<u16, AddrError>(x as u16) && 0 <= x <= u16::MAX,
            Err(e) => r == Err::<u16, AddrError>(e),
        },
{
    let ghost s = c@.subrange(lo as int, hi as int);
    let mut i = lo;
    if i < hi && c[i] == '+' {
        i = i + 1;
    }
    let b = i;
    let ghost body = c@.subrange(b as int, hi as int);
    assert(body =~= num_body(s));
    if b == hi {
        return Err(AddrError::BadNumber);
    }
    let mut v: u64 = 0;
    let mut over = false;
    while i < hi
        invariant
            b <= i <= hi <= c.len(),
            lo <= b,
            body == c@.subrange(b as int, hi as int),
            s == c@.subrange(lo as int, hi as int),
            body == num_body(s),
            forall|j: int| b <= j < i ==> is_digit(#[trigger] c@[j]),
            !over ==> v == digits_value(c@.subrange(b as int, i as int)) && v <= u32::MAX,
            over ==> digits_value(c@.subrange(b as int, i as int)) > u32::MAX,
        decreases hi - i,
    {
        let ch = c[i];
        if !('0' <= ch && ch <= '9') {
            assert(body[i - b] == c@[i as int]);
            assert(!is_digit(body[i - b]));
            assert(!all_digits(body));
            assert(parse_num(s) == Err::<int, AddrError>(AddrError::BadNumber));
            return Err(AddrError::BadNumber);
        }
        let ghost prev = digits_value(c@.subrange(b as int, i as int));
        assert(c@.subrange(b as int, i + 1).drop_last() =~= c@.subrange(b as int, i as int));
        assert(digits_value(c@.subrange(b as int, i + 1)) == prev * 10 + (ch as nat - '0' as nat));
        if !over {
            v = v * 10 + (ch as u32 - '0' as u32) as u64;
            if v > 0xffff_ffff {
                over = true;
            }
        } else {
            assert(prev * 10 + (ch as nat - '0' as nat) >= prev) by (nonlinear_arith)
                requires
                    ch as nat >= '0' as nat,
            ;
        }
        i = i + 1;
    }
    assert(c@.subrange(b as int, i as int) =~= body);
    assert(all_digits(body)) by {
        assert forall|j: int| 0 <= j < body.len() implies is_digit(#[trigger] body[j]) by {
            assert(body[j] == c@[b + j]);
        }
    }
    if over || v > 0xffff_ffff {
        Err(AddrError::BadNumber)
    } else if v > 0xffff {
        Err(AddrError::OutOfRange)
    } else {
        Ok(v as u16)
    }
}

/// Every address that a piece names fits in 16 bits.
proof fn lemma_parts_bounded(parts: Seq<Seq<char>>)
    ensures
        parse_parts(parts) matches Ok(set) ==> forall|x: int| set.contains(x) ==> 0 <= x <= 0xffff,
    decreases parts.len(),
{
    if parts.len() > 0 {
        lemma_parts_bounded(parts.drop_last());
    }
}

/// Marks in `seen` the addresses that the piece `c[lo..hi]` names.
fn mark_part(c: &Vec<char>, lo: usize, hi: usize, seen: &mut Vec<bool>) -> (r: Result<(), AddrError>)
    requires
        lo <= hi <= c.len(),
        old(seen).len() == 0x10000,
    ensures
        final(seen).len() == 0x10000,
        match parse_part(c@.subrange(lo as int, hi as int)) {
            Ok(set) => r is Ok && forall|a: int|
                0 <= a < 0x10000 ==> #[trigger] final(seen)@[a] == (old(seen)@[a] || set.contains(a)),
            Err(e) => r == Err::<(), AddrError>(e),
        },
{
    let ghost raw = c@.subrange(lo as int, hi as int);
    let (a, b) = trim_range(c, lo, hi);
    let ghost p = c@.subrange(a as int, b as int);
    if a == b {
        return Err(AddrError::EmptyPart);
    }
    let k = find(c, a, b, '-');
    if k < b {
        assert(p.subrange(0, k - a) =~= c@.subrange(a as int, k as int));
        assert(p.subrange(k - a + 1, p.len() as int) =~= c@.subrange(k + 1, b as int));
        let (x0, x1) = trim_range(c, a, k);
        let (y0, y1) = trim_range(c, k + 1, b);
        if x0 == x1 || y0 == y1 || find(c, y0, y1, '-') < y1 {
            return Err(AddrError::BadRange);
        }
        let x = match parse_u16(c, x0, x1) {
            Ok(x) => x,
            Err(e) => {
                return Err(e);
            },
        };
        let y = match parse_u16(c, y0, y1) {
            Ok(y) => y,
            Err(e) => {
                return Err(e);
            },
        };
        if x > y {
            return Err(AddrError::Reversed);
        }
        let ghost set = Set::new(|v: int| x <= v <= y);
        let ghost s0 = seen@;
        let mut v: u32 = x as u32;
        while v <= y as u32
            invariant
                x <= v <= y as u32 + 1,
                seen.len() == 0x10000,
                forall|q: int|
                    0 <= q < 0x10000 ==> #[trigger] seen@[q] == (s0[q] || (x <= q < v)),
            decreases y as u32 + 1 - v,
        {
            seen.set(v as usize, true);
            v = v + 1;
        }
        assert(parse_part(raw) == Ok::<Set<int>, AddrError>(set));
    } else {
        let x = match parse_u16(c, a, b) {
            Ok(x) => x,
            Err(e) => {
                return Err(e);
            },
        };
        seen.set(x as usize, true);
        assert(parse_part(raw) == Ok::<Set<int>, AddrError>(set![x as int]));
    }
    Ok(())
}

/// Parses an address list such as `100-105,200, 300`: comma-separated pieces, each a
/// number or an inclusive range `a-b`, white space allowed around each. The result
/// holds each named address once, in ascending order.
pub fn parse_addrs(input: &str) -> (r: Result<Vec<u16>, AddrError>)
    ensures
        match addr_list(input@) {
            Ok(set) => {
                &&& r is Ok
                &&& sorted_unique(r->Ok_0@)
                &&& forall|a: u16| r->Ok_0@.contains(a) <==> set.contains(a as int)
                &&& forall|x: int| set.contains(x) ==> 0 <= x <= 0xffff
            },
            Err(e) => r == Err::<Vec<u16>, AddrError>(e),
        },
{
    let c = chars_of(input);
    let (lo, hi) = trim_range(&c, 0, c.len());
    assert(c@.subrange(0, c.len() as int) =~= input@);
    if lo == hi {
        return Err(AddrError::Empty);
    }
    let mut seen: Vec<bool> = Vec::new();
    let mut n: usize = 0;
    while n < 0x10000
        invariant
            n <= 0x10000,
            seen@ == Seq::new(n as nat, |q: int| false),
        decreases 0x10000 - n,
    {
        seen.push(false);
        n = n + 1;
        assert(seen@ =~= Seq::new(n as nat, |q: int| false));
    }
    let mut err: Option<AddrError> = None;
    let mut ps = lo;
    let mut i = lo;
    let ghost mut done: Seq<Seq<char>> = Seq::empty();
    assert(c@.subrange(lo as int, lo as int) =~= Seq::<char>::empty());
    assert(done.push(c@.subrange(lo as int, lo as int)) =~= seq![Seq::<char>::empty()]);
    while i < hi
        invariant
            lo <= ps <= i <= hi <= c.len(),
            seen.len() == 0x10000,
            split_commas(c@.subrange(lo as int, i as int)) == done.push(c@.subrange(ps as int, i as int)),
            match parse_parts(done) {
                Ok(set) => err is None && forall|q: int|
                    0 <= q < 0x10000 ==> #[trigger] seen@[q] == set.contains(q),
                Err(e) => err == Some(e),
            },
        decreases hi - i,
    {
        let ghost part = c@.subrange(ps as int, i as int);
        assert(c@.subrange(lo as int, i + 1).drop_last() =~= c@.subrange(lo as int, i as int));
        if c[i] == ',' {
            if err.is_none() {
                match mark_part(&c, ps, i, &mut seen) {
                    Ok(()) => {},
                    Err(e) => {
                        err = Some(e);
                    },
                }
            }
            proof {
                assert(done.push(part).drop_last() =~= done);
                done = done.push(part);
                assert(c@.subrange(i + 1, i + 1) =~= Seq::<char>::empty());
            }
            ps = i + 1;
        } else {
            proof {
                let sp = split_commas(c@.subrange(lo as int, i as int));
                assert(part.push(c@[i as int]) =~= c@.subrange(ps as int, i + 1));
                assert(sp.update(sp.len() - 1, sp.last().push(c@[i as int])) =~= done.push(
                    c@.subrange(ps as int, i + 1),
                ));
            }
        }
        i = i + 1;
    }
    let ghost last = c@.subrange(ps as int, hi as int);
    if err.is_none() {
        match mark_part(&c, ps, hi, &mut seen) {
            Ok(()) => {},
            Err(e) => {
                err = Some(e);
            },
        }
    }
    proof {
        assert(done.push(last).drop_last() =~= done);
        lemma_parts_bounded(done.push(last));
    }
    match err {
        Some(e) => Err(e),
        None => {
            let mut out: Vec<u16> = Vec::new();
            let mut a: u32 = 0;
            while a < 0x10000
                invariant
                    a <= 0x10000,
                    seen.len() == 0x10000,
                    sorted_unique(out@),
                    forall|j: int| 0 <= j < out.len() ==> out@[j] < a,
                    forall|q: u16| out@.contains(q) <==> (q < a && seen@[q as int]),
                decreases 0x10000 - a,
            {
                if seen[a as usize] {
                    let ghost o0 = out@;
                    out.push(a as u16);
                    assert forall|q: u16| out@.contains(q) <==> (q < a + 1 && seen@[q as int]) by {
                        if q < a && seen@[q as int] {
                            let j = choose|j: int| 0 <= j < o0.len() && o0[j] == q;
                            assert(out@[j] == q);
                        }
                        if out@.contains(q) && q != a {
                            let j = choose|j: int| 0 <= j < out.len() && out@[j] == q;
                            assert(j < o0.len());
                            assert(o0.contains(q));
                        }
                        if q == a {
                            assert(out@[out.len() - 1] == q);
                        }
                    }
                } else {
                    assert forall|q: u16| out@.contains(q) <==> (q < a + 1 && seen@[q as int]) by {
                        if out@.contains(q) {
                            let j = choose|j: int| 0 <= j < out.len() && out@[j] == q;
                        }
                    }
                }
                a = a + 1;
            }
            Ok(out)
        },
    }
}

} // verus!
