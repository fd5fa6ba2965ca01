use vstd::prelude::*;
use vstd::string::{StrSliceExecFns, StringExecFns};

use crate::modbus::{Cell, CellErr, RegType, Row};

verus! {

pub open spec fn digit_char(d: int) -> char {
    seq!['0', '1', '2', '3', '4', '5', '6', '7', '8', '9', 'A', 'B', 'C', 'D', 'E', 'F'][d]
}

/// The `k` lowest digits of `n` in base `b`, least significant first.
pub open spec fn low_digits(n: nat, b: nat, k: nat) -> Seq<int>
    decreases k,
{
    if k == 0 || b == 0 {
        Seq::empty()
    } else {
        seq![(n % b) as int] + low_digits(n / b, b, (k - 1) as nat)
    }
}

/// The decimal digits of `n`, least significant first, without leading zeros.
pub open spec fn low_dec(n: nat) -> Seq<int>
    decreases n,
{
    if n < 10 {
        seq![n as int]
    } else {
        seq![(n % 10) as int] + low_dec(n / 10)
    }
}

/// Digits, most significant first, as characters.
pub open spec fn show(low: Seq<int>) -> Seq<char> {
    Seq::new(low.len(), |i: int| digit_char(low[low.len() - 1 - i]))
}

/// `n` in decimal.
pub open spec fn dec(n: nat) -> Seq<char> {
    show(low_dec(n))
}

pub open spec fn spec_err_text(e: CellErr) -> Seq<char> {
    match e {
        CellErr::Timeout => seq!['T', 'I', 'M', 'E', 'O', 'U', 'T'],
        CellErr::Offline => seq!['O', 'F', 'F', 'L', 'I', 'N', 'E'],
        CellErr::NotAvailable => seq!['N', '/', 'A'],
        CellErr::ModbusException(c) => seq!['E', 'R', 'R', ':'] + dec(c as nat),
    }
}

fn push_digit(s: &mut String, d: u32)
    requires
        d < 16,
    ensures
        final(s)@ == old(s)@.push(digit_char(d as int)),
{
    let lit = "0123456789ABCDEF";
    proof {
        reveal_strlit("0123456789ABCDEF");
    }
    let one = lit.substring_char(d as usize, d as usize + 1);
    assert(one@ =~= seq![digit_char(d as int)]);
    s.append(one);
}

/// Appends the digits of `low` to `s`, most significant first.
fn push_shown(s: &mut String, low: &Vec<u32>)
    requires
        forall|i: int| 0 <= i < low.len() ==> low@[i] < 16,
    ensures
        final(s)@ == old(s)@ + show(low@.map_values(|d: u32| d as int)),
{
    let ghost l = low@.map_values(|d: u32| d as int);
    let ghost s0 = s@;
    let mut i: usize = low.len();
    while i > 0
        invariant
            i <= low.len(),
            l == low@.map_values(|d: u32| d as int),
            forall|j: int| 0 <= j < low.len() ==> low@[j] < 16,
            s@ == s0 + show(l).subrange(0, low.len() - i),
        decreases i,
    {
        push_digit(s, low[i - 1]);
        i = i - 1;
        assert(s@ =~= s0 + show(l).subrange(0, low.len() - i));
    }
    assert(show(l).subrange(0, low.len() as int) =~= show(l));
}

/// The `k` lowest digits of `n` in base `b`, least significant first.
fn fixed_digits(n: u16, b: u32, k: u32) -> (r: Vec<u32>)
    requires
        2 <= b <= 16,
    ensures
        r@.map_values(|d: u32| d as int) == low_digits(n as nat, b as nat, k as nat),
        forall|i: int| 0 <= i < r.len() ==> r@[i] < 16,
{
    let mut out: Vec<u32> = Vec::new();
    let mut m: u32 = n as u32;
    let mut j: u32 = 0;
    while j < k
        invariant
            2 <= b <= 16,
            j <= k,
            out@.map_values(|d: u32| d as int) + low_digits(m as nat, b as nat, (k - j) as nat)
                == low_digits(n as nat, b as nat, k as nat),
            forall|i: int| 0 <= i < out.len() ==> out@[i] < 16,
        decreases k - j,
    {
        let ghost before = out@.map_values(|d: u32| d as int);
        out.push(m % b);
        assert(out@.map_values(|d: u32| d as int) =~= before.push((m % b) as int));
        assert(before + (seq![(m % b) as int] + low_digits((m / b) as nat, b as nat, (k - j - 1) as nat))
            =~= before.push((m % b) as int) + low_digits((m / b) as nat, b as nat, (k - j - 1) as nat));
        m = m / b;
        j = j + 1;
    }
    assert(out@.map_values(|d: u32| d as int) + low_digits(m as nat, b as nat, 0) =~= out@.map_values(
        |d: u32| d as int,
    ));
    out
}

/// The decimal digits of `n`, least significant first.
fn dec_digits(n: u32) -> (r: Vec<u32>)
    ensures
        r@.map_values(|d: u32| d as int) == low_dec(n as nat),
        forall|i: int| 0 <= i < r.len() ==> r@[i] < 16,
{
    let mut out: Vec<u32> = Vec::new();
    let mut m: u32 = n;
    while m >= 10
        invariant
            out@.map_values(|d: u32| d as int) + low_dec(m as nat) == low_dec(n as nat),
            forall|i: int| 0 <= i < out.len() ==> out@[i] < 16,
        decreases m,
    {
        let ghost before = out@.map_values(|d: u32| d as int);
        out.push(m % 10);
        assert(out@.map_values(|d: u32| d as int) =~= before.push((m % 10) as int));
        assert(before + (seq![(m % 10) as int] + low_dec((m / 10) as nat)) =~= before.push(
            (m % 10) as int,
        ) + low_dec((m / 10) as nat));
        m = m / 10;
    }
    let ghost before = out@.map_values(|d: u32| d as int);
    out.push(m);
    assert(out@.map_values(|d: u32| d as int) =~= before + low_dec(m as nat));
    out
}

/// `n` in decimal.
pub fn dec_text(n: u32) -> (r: String)
    ensures
        r@ == dec(n as nat),
{
    let mut s = String::new();
    push_shown(&mut s, &dec_digits(n));
    assert(s@ =~= dec(n as nat));
    s
}

/// The text shown for a failed cell.
pub fn err_text(e: &CellErr) -> (r: String)
    ensures
        r@ == spec_err_text(*e),
{
    match e {
        CellErr::Timeout => {
            proof {
                reveal_strlit("TIMEOUT");
            }
            String::from_str("TIMEOUT")
        },
        CellErr::Offline => {
            proof {
                reveal_strlit("OFFLINE");
            }
            String::from_str("OFFLINE")
        },
        CellErr::NotAvailable => {
            proof {
                reveal_strlit("N/A");
            }
            String::from_str("N/A")
        },
        CellErr::ModbusException(code) => {
            proof {
                reveal_strlit("ERR:");
            }
            let mut s = String::from_str("ERR:");
            push_shown(&mut s, &dec_digits(*code as u32));
            s
        },
    }
}

/// The value of a 16-bit word read as two's complement, in decimal.
pub open spec fn signed_dec(raw: u16) -> Seq<char> {
    if raw >= 0x8000 {
        seq!['-'] + dec((0x10000 - raw) as nat)
    } else {
        dec(raw as nat)
    }
}

pub open spec fn spec_bool_text(b: Option<bool>) -> Seq<char> {
    match b {
        Some(true) => seq!['t', 'r', 'u', 'e'],
        Some(false) => seq!['f', 'a', 'l', 's', 'e'],
        None => seq!['-'],
    }
}

/// The columns shown for a row: address, kind, hex, unsigned, signed, binary, boolean.
/// A failed cell shows its error text in every value column, and in the boolean
/// column only for a bit kind.
pub open spec fn spec_row_texts(r: Row) -> Seq<Seq<char>> {
    let head = seq![dec(r.address as nat), r.reg_type.spec_short()];
    match r.cell {
        Cell::Value { raw, bool } => head + seq![
            seq!['0', 'x'] + show(low_digits(raw as nat, 16, 4)),
            dec(raw as nat),
            signed_dec(raw),
            show(low_digits(raw as nat, 2, 16)),
            spec_bool_text(bool),
        ],
        Cell::Failure(e) => {
            let t = spec_err_text(e);
            head + seq![t, t, t, t, if r.reg_type.is_bit() { t } else { seq!['-'] }]
        },
    }
}

fn bool_text(b: Option<bool>) -> (r: String)
    ensures
        r@ == spec_bool_text(b),
{
    proof {
        reveal_strlit("true");
        reveal_strlit("false");
        reveal_strlit("-");
    }
    match b {
        Some(true) => String::from_str("true"),
        Some(false) => String::from_str("false"),
        None => String::from_str("-"),
    }
}

/// The text of each column of a row, as `spec_row_texts` gives it.
pub fn row_texts(r: &Row) -> (out: Vec<String>)
    ensures
        out@.map_values(|s: String| s@) == spec_row_texts(*r),
{
    let mut out: Vec<String> = Vec::new();
    out.push(dec_text(r.address as u32));
    out.push(String::from_str(r.reg_type.short()));
    match r.cell {
        Cell::Value { raw, bool } => {
            proof {
                reveal_strlit("0x");
                reveal_strlit("-");
            }
            let mut hex = String::from_str("0x");
            push_shown(&mut hex, &fixed_digits(raw, 16, 4));
            out.push(hex);
            out.push(dec_text(raw as u32));
            if raw >= 0x8000 {
                let mut neg = String::from_str("-");
                push_shown(&mut neg, &dec_digits(0x10000 - raw as u32));
                out.push(neg);
            } else {
                out.push(dec_text(raw as u32));
            }
            let mut bin = String::new();
            push_shown(&mut bin, &fixed_digits(raw, 2, 16));
            out.push(bin);
            out.push(bool_text(bool));
        },
        Cell::Failure(e) => {
            let t = err_text(&e);
            out.push(t.clone());
            out.push(t.clone());
            out.push(t.clone());
            out.push(t.clone());
            if matches!(r.reg_type, RegType::Coils | RegType::Discrete) {
                out.push(t);
            } else {
                proof {
                    reveal_strlit("-");
                }
                out.push(String::from_str("-"));
            }
        },
    }
    assert(out@.map_values(|s: String| s@) =~~= spec_row_texts(*r));
    out
}

pub open spec fn spec_footer(host: Seq<char>, port: u16, unit: u8, updated: Seq<char>) -> Seq<char> {
    seq!['H', 'o', 's', 't', ':', ' '] + host + seq![':'] + dec(port as nat) + seq![
        ' ',
        '|',
        ' ',
        'U',
        'n',
        'i',
        't',
        ':',
        ' ',
    ] + dec(unit as nat) + seq![' ', '|', ' ', 'U', 'p', 'd', 'a', 't', 'e', 'd', ':', ' '] + updated
}

/// The line under the table: `Host: <host>:<port> | Unit: <unit> | Updated: <updated>`.
pub fn footer(host: &str, port: u16, unit: u8, updated: &str) -> (r: String)
    ensures
        r@ == spec_footer(host@, port, unit, updated@),
{
    proof {
        reveal_strlit("Host: ");
        reveal_strlit(":");
        reveal_strlit(" | Unit: ");
        reveal_strlit(" | Updated: ");
    }
    let mut s = String::from_str("Host: ");
    s.append(host);
    s.append(":");
    push_shown(&mut s, &dec_digits(port as u32));
    s.append(" | Unit: ");
    push_shown(&mut s, &dec_digits(unit as u32));
    s.append(" | Updated: ");
    s.append(updated);
    assert(s@ =~= spec_footer(host@, port, unit, updated@));
    s
}

} // verus!
