//! The durable history document: a JSON codec specialised to
//! `{"entries":[{"content":S,"timestamp":N,"item":{"Text":S}|{"Image":S},"hash":N|null},...],"limit":N}`.
//!
//! The renderer emits canonical compact JSON; the parser accepts exactly that
//! shape (tolerating a missing `hash` field and the common string escapes),
//! and anything else is rejected, which the loader turns into an empty
//! history. Parsing what the renderer emitted returns the original document:
//! see `lemma_parse_render_round_trip`.

use crate::history::{
    spec_promote, wf_history, ClipboardItem, Entry, EntryModel, History, HistoryModel, ItemModel,
};
use vstd::prelude::*;
use vstd::string::StringSliceAdditionalSpecFns;

verus! {

// Byte values used by the grammar.
pub open spec fn is_digit_byte(b: u8) -> bool {
    48 <= b <= 57
}

pub open spec fn is_hex_byte(b: u8) -> bool {
    48 <= b <= 57 || 97 <= b <= 102
}

/// Value of a hexadecimal digit byte (lower case letters).
pub open spec fn hex_val(b: u8) -> u8 {
    if b <= 57 {
        (b - 48) as u8
    } else {
        (b - 87) as u8
    }
}

/// The hexadecimal digit byte for a value below 16 (lower case letters).
pub open spec fn hex_digit(d: u8) -> u8 {
    if d < 10 {
        (48 + d) as u8
    } else {
        (87 + d) as u8
    }
}

/// Decimal rendering of `n`, most significant digit first, no leading zeros
/// (a single zero renders as `0`).
pub open spec fn dec_digits(n: u64) -> Seq<u8>
    decreases n,
{
    if n < 10 {
        seq![(48 + n) as u8]
    } else {
        dec_digits(n / 10).push((48 + n % 10) as u8)
    }
}

/// Numeric value of a digit sequence, most significant first.
pub open spec fn digits_val(s: Seq<u8>) -> int
    decreases s.len(),
{
    if s.len() == 0 {
        0
    } else {
        digits_val(s.drop_last()) * 10 + (s.last() - 48)
    }
}

pub open spec fn is_digit_seq(s: Seq<u8>) -> bool {
    forall|i: int| 0 <= i < s.len() ==> is_digit_byte(s[i])
}

/// Greedy decimal parse with accumulator; fails on u64 overflow.
pub open spec fn parse_u64_loop(s: Seq<u8>, acc: u64) -> Option<(u64, Seq<u8>)>
    decreases s.len(),
{
    if s.len() > 0 && is_digit_byte(s[0]) {
        let d = (s[0] - 48) as u64;
        if acc <= (0xffff_ffff_ffff_ffffu64 - d) / 10 {
            parse_u64_loop(s.skip(1), (acc * 10 + d) as u64)
        } else {
            None
        }
    } else {
        Some((acc, s))
    }
}

/// Parse a decimal number: at least one digit, then the rest of the input.
pub open spec fn parse_u64(s: Seq<u8>) -> Option<(u64, Seq<u8>)> {
    if s.len() > 0 && is_digit_byte(s[0]) {
        parse_u64_loop(s, 0)
    } else {
        None
    }
}

/// Consume an expected literal prefix.
pub open spec fn skip_lit(s: Seq<u8>, lit: Seq<u8>) -> Option<Seq<u8>> {
    if lit.len() <= s.len() && s.take(lit.len() as int) == lit {
        Some(s.skip(lit.len() as int))
    } else {
        None
    }
}

/// Appends the decimal rendering of `n`.
fn push_dec(out: &mut Vec<u8>, n: u64)
    ensures
        final(out)@ == old(out)@ + dec_digits(n),
    decreases n,
{
    if n < 10 {
        out.push(48 + (n as u8));
        proof {
            assert(out@ =~= old(out)@ + dec_digits(n));
        }
    } else {
        push_dec(out, n / 10);
        out.push(48 + ((n % 10) as u8));
        proof {
            assert(out@ =~= old(out)@ + dec_digits(n));
        }
    }
}

/// Parses a decimal number at position `i`.
fn parse_u64_exec(v: &Vec<u8>, i: usize) -> (r: Option<(u64, usize)>)
    requires
        i <= v@.len(),
    ensures
        match r {
            Some((n, j)) => {
                &&& i < j <= v@.len()
                &&& parse_u64(v@.skip(i as int)) == Some((n, v@.skip(j as int)))
            },
            None => parse_u64(v@.skip(i as int)) is None,
        },
{
    if i == v.len() || !(48 <= v[i] && v[i] <= 57) {
        proof {
            if i < v@.len() {
                assert(v@.skip(i as int)[0] == v@[i as int]);
            }
        }
        return None;
    }
    proof {
        assert(v@.skip(i as int)[0] == v@[i as int]);
    }
    let mut j: usize = i;
    let mut acc: u64 = 0;
    loop
        invariant
            i <= j <= v@.len(),
            parse_u64(v@.skip(i as int)) == parse_u64_loop(v@.skip(j as int), acc),
            j == i ==> acc == 0,
            j > i || (v@.len() > i && is_digit_byte(v@[i as int])),
        decreases v@.len() - j,
    {
        if j == v.len() || !(48 <= v[j] && v[j] <= 57) {
            proof {
                if j < v@.len() {
                    assert(v@.skip(j as int)[0] == v@[j as int]);
                }
                assert(parse_u64_loop(v@.skip(j as int), acc) == Some((acc, v@.skip(j as int))));
            }
            if j == i {
                return None;
            }
            return Some((acc, j));
        }
        let d = (v[j] - 48) as u64;
        proof {
            assert(v@.skip(j as int)[0] == v@[j as int]);
        }
        if acc > (0xffff_ffff_ffff_ffffu64 - d) / 10 {
            return None;
        }
        acc = acc * 10 + d;
        proof {
            assert(v@.skip(j as int).skip(1) =~= v@.skip(j + 1));
        }
        j = j + 1;
    }
}

/// Consumes `lit` at position `i` if present.
fn eat_lit(v: &Vec<u8>, i: usize, lit: &Vec<u8>) -> (r: Option<usize>)
    requires
        i <= v@.len(),
    ensures
        match r {
            Some(j) => {
                &&& i <= j <= v@.len()
                &&& j == i + lit@.len()
                &&& skip_lit(v@.skip(i as int), lit@) == Some(v@.skip(j as int))
            },
            None => skip_lit(v@.skip(i as int), lit@) is None,
        },
{
    if v.len() - i < lit.len() {
        return None;
    }
    let n = v.len();
    let mut k: usize = 0;
    while k < lit.len()
        invariant
            k <= lit@.len(),
            n == v@.len(),
            i + lit@.len() <= n,
            forall|m: int| 0 <= m < k ==> v@[i + m] == lit@[m],
        decreases lit@.len() - k,
    {
        if v[i + k] != lit[k] {
            proof {
                assert(v@.skip(i as int).take(lit@.len() as int)[k as int] == v@[i + k]);
            }
            return None;
        }
        k = k + 1;
    }
    proof {
        assert(v@.skip(i as int).take(lit@.len() as int) =~= lit@);
        assert(v@.skip(i as int).skip(lit@.len() as int) =~= v@.skip(i + lit@.len()));
    }
    Some(i + lit.len())
}

/// Powers of ten.
pub open spec fn pow10(k: nat) -> int
    decreases k,
{
    if k == 0 {
        1
    } else {
        10 * pow10((k - 1) as nat)
    }
}

proof fn lemma_dec_digits_facts(n: u64)
    ensures
        dec_digits(n).len() >= 1,
        is_digit_seq(dec_digits(n)),
        digits_val(dec_digits(n)) == n,
    decreases n,
{
    if n >= 10 {
        lemma_dec_digits_facts(n / 10);
        let ds = dec_digits(n);
        assert(ds.drop_last() =~= dec_digits(n / 10));
        assert(ds.last() == (48 + n % 10) as u8);
        assert(forall|i: int| 0 <= i < ds.len() - 1 ==> ds[i] == dec_digits(n / 10)[i]);
        assert(digits_val(ds) == digits_val(dec_digits(n / 10)) * 10 + (n % 10));
        assert(n / 10 * 10 + n % 10 == n) by (nonlinear_arith);
    } else {
        let ds = dec_digits(n);
        assert(ds.drop_last() =~= Seq::<u8>::empty());
        assert(ds.last() == (48 + n) as u8);
        assert(digits_val(Seq::<u8>::empty()) == 0);
    }
}

proof fn lemma_digits_val_front(s: Seq<u8>)
    requires
        s.len() >= 1,
        is_digit_seq(s),
    ensures
        digits_val(s) == (s[0] - 48) * pow10((s.len() - 1) as nat) + digits_val(s.skip(1)),
        digits_val(s) >= 0,
    decreases s.len(),
{
    if s.len() == 1 {
        assert(s.skip(1) =~= Seq::<u8>::empty());
        assert(s.drop_last() =~= Seq::<u8>::empty());
        assert(digits_val(Seq::<u8>::empty()) == 0);
        assert(s.last() == s[0]);
        assert(pow10(0) == 1);
    } else {
        assert(is_digit_seq(s.drop_last())) by {
            assert(forall|i: int| 0 <= i < s.len() - 1 ==> s.drop_last()[i] == s[i]);
        }
        lemma_digits_val_front(s.drop_last());
        assert(s.drop_last()[0] == s[0]);
        assert(s.skip(1).drop_last() =~= s.drop_last().skip(1));
        assert(s.skip(1).last() == s.last());
        assert(is_digit_byte(s.last()));
        let a = (s[0] - 48) as int;
        let k = (s.len() - 2) as nat;
        assert(digits_val(s) == digits_val(s.drop_last()) * 10 + (s.last() - 48));
        assert(digits_val(s.skip(1)) == digits_val(s.skip(1).drop_last()) * 10 + (s.skip(
            1,
        ).last() - 48));
        assert(digits_val(s.drop_last()) == a * pow10(k) + digits_val(s.drop_last().skip(1)));
        assert((a * pow10(k) + digits_val(s.skip(1).drop_last())) * 10 == a * (10 * pow10(k))
            + digits_val(s.skip(1).drop_last()) * 10) by (nonlinear_arith);
        assert(pow10((s.len() - 1) as nat) == 10 * pow10(k));
        assert(a * (10 * pow10(k)) == (s[0] - 48) * pow10((s.len() - 1) as nat));
    }
}

proof fn lemma_parse_u64_loop_round(ds: Seq<u8>, rest: Seq<u8>, acc: u64)
    requires
        is_digit_seq(ds),
        rest.len() == 0 || !is_digit_byte(rest[0]),
        acc * pow10(ds.len() as nat) + digits_val(ds) <= 0xffff_ffff_ffff_ffffu64,
    ensures
        parse_u64_loop(ds + rest, acc) == Some(
            ((acc * pow10(ds.len() as nat) + digits_val(ds)) as u64, rest),
        ),
    decreases ds.len(),
{
    if ds.len() == 0 {
        assert(ds + rest =~= rest);
    } else {
        let s = ds + rest;
        assert(s[0] == ds[0]);
        let d = (s[0] - 48) as u64;
        lemma_digits_val_front(ds);
        assert(pow10(ds.len() as nat) == 10 * pow10((ds.len() - 1) as nat));
        assert(digits_val(ds.skip(1)) >= 0) by {
            if ds.len() > 1 {
                lemma_digits_val_front(ds.skip(1));
            }
        }
        assert(pow10((ds.len() - 1) as nat) >= 1) by {
            lemma_pow10_pos((ds.len() - 1) as nat);
        }
        // The head digit fits: acc * 10 + d is bounded by the whole value.
        assert(acc * (10 * pow10((ds.len() - 1) as nat)) == (acc * 10) * pow10(
            (ds.len() - 1) as nat,
        )) by (nonlinear_arith);
        assert((d as int) * pow10((ds.len() - 1) as nat) >= d) by (nonlinear_arith)
            requires pow10((ds.len() - 1) as nat) >= 1, d >= 0;
        assert((acc * 10 + d) * pow10((ds.len() - 1) as nat) == (acc * 10) * pow10(
            (ds.len() - 1) as nat,
        ) + (d as int) * pow10((ds.len() - 1) as nat)) by (nonlinear_arith);
        assert(acc * 10 + d <= 0xffff_ffff_ffff_ffffu64) by (nonlinear_arith)
            requires
                (acc * 10 + d) * pow10((ds.len() - 1) as nat) + digits_val(ds.skip(1))
                    <= 0xffff_ffff_ffff_ffffu64,
                pow10((ds.len() - 1) as nat) >= 1,
                digits_val(ds.skip(1)) >= 0,
                acc >= 0,
                d >= 0;
        assert(acc <= (0xffff_ffff_ffff_ffffu64 - d) / 10);
        assert(s.skip(1) =~= ds.skip(1) + rest);
        lemma_parse_u64_loop_round(ds.skip(1), rest, (acc * 10 + d) as u64);
    }
}

proof fn lemma_pow10_pos(k: nat)
    ensures
        pow10(k) >= 1,
    decreases k,
{
    if k > 0 {
        lemma_pow10_pos((k - 1) as nat);
    }
}

/// Parsing the decimal rendering of `n` yields `n`, provided what follows
/// does not begin with a digit.
proof fn lemma_parse_u64_round(n: u64, rest: Seq<u8>)
    requires
        rest.len() == 0 || !is_digit_byte(rest[0]),
    ensures
        parse_u64(dec_digits(n) + rest) == Some((n, rest)),
{
    lemma_dec_digits_facts(n);
    assert((dec_digits(n) + rest)[0] == dec_digits(n)[0]);
    lemma_parse_u64_loop_round(dec_digits(n), rest, 0);
}

/// Consuming a literal that was just prepended succeeds.
proof fn lemma_skip_lit_round(lit: Seq<u8>, rest: Seq<u8>)
    ensures
        skip_lit(lit + rest, lit) == Some(rest),
{
    assert((lit + rest).take(lit.len() as int) =~= lit);
    assert((lit + rest).skip(lit.len() as int) =~= rest);
}

/// The escape of one string byte: quote and backslash get a backslash,
/// control bytes become `\u00XX`, everything else (including the bytes of
/// multi-byte UTF-8 characters) passes through.
pub open spec fn esc_byte(b: u8) -> Seq<u8> {
    if b == 34 {
        seq![92u8, 34u8]
    } else if b == 92 {
        seq![92u8, 92u8]
    } else if b < 32 {
        seq![92u8, 117u8, 48u8, 48u8, hex_digit(b / 16), hex_digit(b % 16)]
    } else {
        seq![b]
    }
}

/// Escape a whole string body.
pub open spec fn escape_bytes(s: Seq<u8>) -> Seq<u8>
    decreases s.len(),
{
    if s.len() == 0 {
        Seq::empty()
    } else {
        esc_byte(s[0]) + escape_bytes(s.skip(1))
    }
}

/// A quoted, escaped JSON string.
pub open spec fn render_string(b: Seq<u8>) -> Seq<u8> {
    seq![34u8] + escape_bytes(b) + seq![34u8]
}

/// Prepend an unescaped byte to a string-body parse result.
pub open spec fn cons_byte(b: u8, r: Option<(Seq<u8>, Seq<u8>)>) -> Option<(Seq<u8>, Seq<u8>)> {
    match r {
        Some((body, rest)) => Some((seq![b] + body, rest)),
        None => None,
    }
}

/// Parse a string body up to and including the closing quote, undoing the
/// escapes; returns the raw bytes and the remaining input.
pub open spec fn parse_string_body(s: Seq<u8>) -> Option<(Seq<u8>, Seq<u8>)>
    decreases s.len(),
{
    if s.len() == 0 {
        None
    } else if s[0] == 34 {
        Some((Seq::empty(), s.skip(1)))
    } else if s[0] == 92 {
        if s.len() < 2 {
            None
        } else {
            let e = s[1];
            if e == 34 || e == 92 || e == 47 {
                cons_byte(e, parse_string_body(s.skip(2)))
            } else if e == 110 {
                cons_byte(10, parse_string_body(s.skip(2)))
            } else if e == 116 {
                cons_byte(9, parse_string_body(s.skip(2)))
            } else if e == 114 {
                cons_byte(13, parse_string_body(s.skip(2)))
            } else if e == 98 {
                cons_byte(8, parse_string_body(s.skip(2)))
            } else if e == 102 {
                cons_byte(12, parse_string_body(s.skip(2)))
            } else if e == 117 {
                if s.len() >= 6 && s[2] == 48 && s[3] == 48 && is_hex_byte(s[4]) && is_hex_byte(
                    s[5],
                ) {
                    cons_byte(
                        (hex_val(s[4]) * 16 + hex_val(s[5])) as u8,
                        parse_string_body(s.skip(6)),
                    )
                } else {
                    None
                }
            } else {
                None
            }
        }
    } else {
        cons_byte(s[0], parse_string_body(s.skip(1)))
    }
}

/// Parse a quoted string.
pub open spec fn parse_string(s: Seq<u8>) -> Option<(Seq<u8>, Seq<u8>)> {
    if s.len() > 0 && s[0] == 34 {
        parse_string_body(s.skip(1))
    } else {
        None
    }
}

pub(crate) fn hex_digit_exec(d: u8) -> (r: u8)
    requires
        d < 16,
    ensures
        r == hex_digit(d),
{
    if d < 10 {
        48 + d
    } else {
        87 + d
    }
}

/// Escaping distributes over concatenation.
proof fn lemma_escape_concat(a: Seq<u8>, b: Seq<u8>)
    ensures
        escape_bytes(a + b) == escape_bytes(a) + escape_bytes(b),
    decreases a.len(),
{
    if a.len() == 0 {
        assert(a + b =~= b);
        assert(escape_bytes(a) + escape_bytes(b) =~= escape_bytes(b));
    } else {
        lemma_escape_concat(a.skip(1), b);
        assert((a + b).skip(1) =~= a.skip(1) + b);
        assert((a + b)[0] == a[0]);
        assert(esc_byte(a[0]) + (escape_bytes(a.skip(1)) + escape_bytes(b)) =~= (esc_byte(a[0])
            + escape_bytes(a.skip(1))) + escape_bytes(b));
    }
}

/// Appends `render_string` of the bytes of `s`.
fn render_string_exec(out: &mut Vec<u8>, s: &str)
    ensures
        final(out)@ == old(out)@ + render_string(s.spec_bytes()),
{
    out.push(34);
    let bytes = s.as_bytes();
    let n = bytes.len();
    let mut i: usize = 0;
    while i < n
        invariant
            i <= n,
            n == bytes@.len(),
            bytes@ == s.spec_bytes(),
            out@ == old(out)@ + seq![34u8] + escape_bytes(bytes@.take(i as int)),
        decreases n - i,
    {
        let b = bytes[i];
        if b == 34 {
            out.push(92);
            out.push(34);
        } else if b == 92 {
            out.push(92);
            out.push(92);
        } else if b < 32 {
            out.push(92);
            out.push(117);
            out.push(48);
            out.push(48);
            out.push(hex_digit_exec(b / 16));
            out.push(hex_digit_exec(b % 16));
        } else {
            out.push(b);
        }
        proof {
            assert(bytes@.take(i + 1) =~= bytes@.take(i as int) + seq![bytes@[i as int]]);
            lemma_escape_concat(bytes@.take(i as int), seq![bytes@[i as int]]);
            assert(escape_bytes(seq![bytes@[i as int]]) =~= esc_byte(bytes@[i as int])) by {
                assert(seq![bytes@[i as int]][0] == bytes@[i as int]);
                assert(seq![bytes@[i as int]].skip(1) =~= Seq::<u8>::empty());
                assert(escape_bytes(Seq::<u8>::empty()) =~= Seq::<u8>::empty());
                assert(esc_byte(bytes@[i as int]) + Seq::<u8>::empty() =~= esc_byte(
                    bytes@[i as int],
                ));
            }
            assert(out@ =~= old(out)@ + seq![34u8] + escape_bytes(bytes@.take(i + 1)));
        }
        i = i + 1;
    }
    out.push(34);
    proof {
        assert(bytes@.take(n as int) =~= bytes@);
        assert(out@ =~= old(out)@ + render_string(s.spec_bytes()));
    }
}

/// Parses a string body starting at `i` (the opening quote already consumed).
fn parse_string_body_exec(v: &Vec<u8>, i: usize) -> (r: Option<(Vec<u8>, usize)>)
    requires
        i <= v@.len(),
    ensures
        match r {
            Some((b, j)) => {
                &&& i <= j <= v@.len()
                &&& parse_string_body(v@.skip(i as int)) == Some((b@, v@.skip(j as int)))
            },
            None => parse_string_body(v@.skip(i as int)) is None,
        },
{
    let n = v.len();
    let mut j: usize = i;
    let mut out: Vec<u8> = Vec::new();
    loop
        invariant
            i <= j <= n,
            n == v@.len(),
            parse_string_body(v@.skip(i as int)) == cons_seq(out@, parse_string_body(v@.skip(j as int))),
        decreases n - j,
    {
        if j == n {
            return None;
        }
        let b = v[j];
        proof {
            assert(v@.skip(j as int)[0] == v@[j as int]);
            assert(v@.skip(j as int).len() == n - j);
        }
        if b == 34 {
            proof {
                assert(v@.skip(j as int).skip(1) =~= v@.skip(j + 1));
                assert(out@ + Seq::<u8>::empty() =~= out@);
            }
            return Some((out, j + 1));
        }
        if b == 92 {
            if n - j < 2 {
                return None;
            }
            let e = v[j + 1];
            proof {
                assert(v@.skip(j as int)[1] == v@[j + 1]);
                assert(v@.skip(j as int).skip(2) =~= v@.skip(j + 2));
            }
            if e == 34 || e == 92 || e == 47 {
                out.push(e);
                proof {
                    lemma_cons_seq_push(out@.drop_last(), e, v@.skip(j + 2));
                }
                j = j + 2;
            } else if e == 110 {
                out.push(10);
                proof {
                    lemma_cons_seq_push(out@.drop_last(), 10, v@.skip(j + 2));
                }
                j = j + 2;
            } else if e == 116 {
                out.push(9);
                proof {
                    lemma_cons_seq_push(out@.drop_last(), 9, v@.skip(j + 2));
                }
                j = j + 2;
            } else if e == 114 {
                out.push(13);
                proof {
                    lemma_cons_seq_push(out@.drop_last(), 13, v@.skip(j + 2));
                }
                j = j + 2;
            } else if e == 98 {
                out.push(8);
                proof {
                    lemma_cons_seq_push(out@.drop_last(), 8, v@.skip(j + 2));
                }
                j = j + 2;
            } else if e == 102 {
                out.push(12);
                proof {
                    lemma_cons_seq_push(out@.drop_last(), 12, v@.skip(j + 2));
                }
                j = j + 2;
            } else if e == 117 {
                if n - j < 6 {
                    return None;
                }
                let h1 = v[j + 4];
                let h2 = v[j + 5];
                proof {
                    assert(v@.skip(j as int)[2] == v@[j + 2]);
                    assert(v@.skip(j as int)[3] == v@[j + 3]);
                    assert(v@.skip(j as int)[4] == v@[j + 4]);
                    assert(v@.skip(j as int)[5] == v@[j + 5]);
                }
                if !(v[j + 2] == 48 && v[j + 3] == 48) {
                    return None;
                }
                let d1 = if 48 <= h1 && h1 <= 57 {
                    h1 - 48
                } else if 97 <= h1 && h1 <= 102 {
                    h1 - 87
                } else {
                    return None;
                };
                let d2 = if 48 <= h2 && h2 <= 57 {
                    h2 - 48
                } else if 97 <= h2 && h2 <= 102 {
                    h2 - 87
                } else {
                    return None;
                };
                out.push(d1 * 16 + d2);
                proof {
                    assert(v@.skip(j as int).skip(6) =~= v@.skip(j + 6));
                    lemma_cons_seq_push(out@.drop_last(), (d1 * 16 + d2) as u8, v@.skip(j + 6));
                }
                j = j + 6;
            } else {
                return None;
            }
        } else {
            out.push(b);
            proof {
                assert(v@.skip(j as int).skip(1) =~= v@.skip(j + 1));
                lemma_cons_seq_push(out@.drop_last(), b, v@.skip(j + 1));
            }
            j = j + 1;
        }
    }
}

/// Prefix accumulated so far, prepended to a string-body parse result.
pub open spec fn cons_seq(prefix: Seq<u8>, r: Option<(Seq<u8>, Seq<u8>)>) -> Option<
    (Seq<u8>, Seq<u8>),
> {
    match r {
        Some((body, rest)) => Some((prefix + body, rest)),
        None => None,
    }
}

proof fn lemma_cons_seq_push(prefix: Seq<u8>, b: u8, s: Seq<u8>)
    ensures
        cons_seq(prefix, cons_byte(b, parse_string_body(s))) == cons_seq(
            prefix.push(b),
            parse_string_body(s),
        ),
{
    match parse_string_body(s) {
        Some((body, rest)) => {
            assert(prefix + (seq![b] + body) =~= prefix.push(b) + body);
        },
        None => {},
    }
}

/// Round trip for one escaped byte followed by anything.
proof fn lemma_hex_digit_val(d: u8)
    requires
        d < 16,
    ensures
        is_hex_byte(hex_digit(d)),
        hex_val(hex_digit(d)) == d,
{
}

/// Parsing an escaped body plus closing quote returns the original bytes.
proof fn lemma_parse_string_body_round(b: Seq<u8>, rest: Seq<u8>)
    ensures
        parse_string_body(escape_bytes(b) + seq![34u8] + rest) == Some((b, rest)),
    decreases b.len(),
{
    if b.len() == 0 {
        let s = escape_bytes(b) + seq![34u8] + rest;
        assert(s =~= seq![34u8] + rest);
        assert(s[0] == 34);
        assert(s.skip(1) =~= rest);
        assert(Some((Seq::<u8>::empty(), rest)) == parse_string_body(s));
        assert(b =~= Seq::<u8>::empty());
    } else {
        lemma_parse_string_body_round(b.skip(1), rest);
        let b0 = b[0];
        let tail = escape_bytes(b.skip(1)) + seq![34u8] + rest;
        let s = escape_bytes(b) + seq![34u8] + rest;
        assert(s =~= esc_byte(b0) + tail);
        if b0 == 34 || b0 == 92 {
            assert(s[0] == 92);
            assert(s[1] == b0);
            assert(s.len() >= 2);
            assert(s.skip(2) =~= tail);
            assert(seq![b0] + b.skip(1) =~= b);
        } else if b0 < 32 {
            assert(s[0] == 92);
            assert(s[1] == 117);
            assert(s[2] == 48);
            assert(s[3] == 48);
            assert(s[4] == hex_digit(b0 / 16));
            assert(s[5] == hex_digit(b0 % 16));
            assert(s.len() >= 6);
            lemma_hex_digit_val(b0 / 16);
            lemma_hex_digit_val(b0 % 16);
            assert(hex_val(s[4]) * 16 + hex_val(s[5]) == b0);
            assert(s.skip(6) =~= tail);
            assert(seq![b0] + b.skip(1) =~= b);
        } else {
            assert(s[0] == b0);
            assert(b0 != 34 && b0 != 92);
            assert(s.skip(1) =~= tail);
            assert(seq![b0] + b.skip(1) =~= b);
        }
    }
}

/// Parsing a rendered string returns the original bytes.
proof fn lemma_parse_string_round(b: Seq<u8>, rest: Seq<u8>)
    ensures
        parse_string(render_string(b) + rest) == Some((b, rest)),
{
    let s = render_string(b) + rest;
    assert(s[0] == 34);
    assert(s.skip(1) =~= escape_bytes(b) + seq![34u8] + rest);
    lemma_parse_string_body_round(b, rest);
}

// The fixed tokens of the document grammar, as byte sequences.
/// `{"entries":[`
pub open spec fn lit_doc_open() -> Seq<u8> {
    seq![123u8, 34u8, 101u8, 110u8, 116u8, 114u8, 105u8, 101u8, 115u8, 34u8, 58u8, 91u8]
}

/// `,"limit":`
pub open spec fn lit_limit() -> Seq<u8> {
    seq![44u8, 34u8, 108u8, 105u8, 109u8, 105u8, 116u8, 34u8, 58u8]
}

/// `{"content":`
pub open spec fn lit_content() -> Seq<u8> {
    seq![123u8, 34u8, 99u8, 111u8, 110u8, 116u8, 101u8, 110u8, 116u8, 34u8, 58u8]
}

/// `,"timestamp":`
pub open spec fn lit_timestamp() -> Seq<u8> {
    seq![44u8, 34u8, 116u8, 105u8, 109u8, 101u8, 115u8, 116u8, 97u8, 109u8, 112u8, 34u8, 58u8]
}

/// `,"item":`
pub open spec fn lit_item() -> Seq<u8> {
    seq![44u8, 34u8, 105u8, 116u8, 101u8, 109u8, 34u8, 58u8]
}

/// `,"hash":`
pub open spec fn lit_hash() -> Seq<u8> {
    seq![44u8, 34u8, 104u8, 97u8, 115u8, 104u8, 34u8, 58u8]
}

/// `{"Text":`
pub open spec fn lit_text() -> Seq<u8> {
    seq![123u8, 34u8, 84u8, 101u8, 120u8, 116u8, 34u8, 58u8]
}

/// `{"Image":`
pub open spec fn lit_image() -> Seq<u8> {
    seq![123u8, 34u8, 73u8, 109u8, 97u8, 103u8, 101u8, 34u8, 58u8]
}

/// `null`
pub open spec fn lit_null() -> Seq<u8> {
    seq![110u8, 117u8, 108u8, 108u8]
}

/// The payload reference object.
pub open spec fn render_item(it: ItemModel) -> Seq<u8> {
    match it {
        ItemModel::Text(s) => lit_text() + render_string(vstd::utf8::encode_utf8(s)) + seq![125u8],
        ItemModel::Image(p) => lit_image() + render_string(vstd::utf8::encode_utf8(p))
            + seq![125u8],
    }
}

/// The fingerprint field value: a number or `null`.
pub open spec fn render_hash(h: Option<u64>) -> Seq<u8> {
    match h {
        Some(x) => dec_digits(x),
        None => lit_null(),
    }
}

/// One entry object.
pub open spec fn render_entry(e: EntryModel) -> Seq<u8> {
    lit_content() + render_string(vstd::utf8::encode_utf8(e.content)) + lit_timestamp()
        + dec_digits(e.timestamp) + lit_item() + render_item(e.item) + lit_hash() + render_hash(
        e.hash,
    ) + seq![125u8]
}

/// The rest of the entry array after its first entry, closing bracket
/// included.
pub open spec fn render_list_tail(es: Seq<EntryModel>) -> Seq<u8>
    decreases es.len(),
{
    if es.len() == 0 {
        seq![93u8]
    } else {
        seq![44u8] + render_entry(es[0]) + render_list_tail(es.skip(1))
    }
}

/// The whole document.
pub open spec fn render_doc(m: HistoryModel) -> Seq<u8> {
    lit_doc_open() + (if m.entries.len() == 0 {
        seq![93u8]
    } else {
        render_entry(m.entries[0]) + render_list_tail(m.entries.skip(1))
    }) + lit_limit() + dec_digits(m.limit) + seq![125u8]
}

/// Parse the fingerprint field value.
pub open spec fn parse_hash(s: Seq<u8>) -> Option<(Option<u64>, Seq<u8>)> {
    match skip_lit(s, lit_null()) {
        Some(r) => Some((None, r)),
        None => match parse_u64(s) {
            Some((n, r)) => Some((Some(n), r)),
            None => None,
        },
    }
}

/// Parse a payload reference object.
pub open spec fn parse_item(s: Seq<u8>) -> Option<(ItemModel, Seq<u8>)> {
    match skip_lit(s, lit_text()) {
        Some(s1) => match parse_string(s1) {
            Some((b, s2)) => if vstd::utf8::valid_utf8(b) {
                match skip_lit(s2, seq![125u8]) {
                    Some(s3) => Some((ItemModel::Text(vstd::utf8::decode_utf8(b)), s3)),
                    None => None,
                }
            } else {
                None
            },
            None => None,
        },
        None => match skip_lit(s, lit_image()) {
            Some(s1) => match parse_string(s1) {
                Some((b, s2)) => if vstd::utf8::valid_utf8(b) {
                    match skip_lit(s2, seq![125u8]) {
                        Some(s3) => Some((ItemModel::Image(vstd::utf8::decode_utf8(b)), s3)),
                        None => None,
                    }
                } else {
                    None
                },
                None => None,
            },
            None => None,
        },
    }
}

/// Parse one entry object. A missing `hash` field (written by older
/// versions) parses as `None`.
#[verifier::opaque]
pub open spec fn parse_entry(s: Seq<u8>) -> Option<(EntryModel, Seq<u8>)> {
    match skip_lit(s, lit_content()) {
        None => None,
        Some(s1) => match parse_string(s1) {
            None => None,
            Some((cb, s2)) => if !vstd::utf8::valid_utf8(cb) {
                None
            } else {
                match skip_lit(s2, lit_timestamp()) {
                    None => None,
                    Some(s3) => match parse_u64(s3) {
                        None => None,
                        Some((ts, s4)) => match skip_lit(s4, lit_item()) {
                            None => None,
                            Some(s5) => match parse_item(s5) {
                                None => None,
                                Some((it, s6)) => {
                                    let content = vstd::utf8::decode_utf8(cb);
                                    match skip_lit(s6, lit_hash()) {
                                        Some(s7) => match parse_hash(s7) {
                                            None => None,
                                            Some((h, s8)) => match skip_lit(s8, seq![125u8]) {
                                                Some(s9) => Some(
                                                    (
                                                        EntryModel {
                                                            content,
                                                            timestamp: ts,
                                                            item: it,
                                                            hash: h,
                                                        },
                                                        s9,
                                                    ),
                                                ),
                                                None => None,
                                            },
                                        },
                                        None => match skip_lit(s6, seq![125u8]) {
                                            Some(s9) => Some(
                                                (
                                                    EntryModel {
                                                        content,
                                                        timestamp: ts,
                                                        item: it,
                                                        hash: None,
                                                    },
                                                    s9,
                                                ),
                                            ),
                                            None => None,
                                        },
                                    }
                                },
                            },
                        },
                    },
                }
            },
        },
    }
}

/// Parse a non-empty entry list up to and including the closing bracket.
pub open spec fn parse_entry_list(s: Seq<u8>) -> Option<(Seq<EntryModel>, Seq<u8>)>
    decreases s.len(),
{
    match parse_entry(s) {
        None => None,
        Some((e, r)) => if r.len() >= 1 && r[0] == 93 {
            Some((seq![e], r.skip(1)))
        } else if r.len() >= 1 && r[0] == 44 && r.len() < s.len() {
            match parse_entry_list(r.skip(1)) {
                Some((es, r2)) => Some((seq![e] + es, r2)),
                None => None,
            }
        } else {
            None
        },
    }
}

/// Parse the entry array after its opening bracket.
pub open spec fn parse_entries(s: Seq<u8>) -> Option<(Seq<EntryModel>, Seq<u8>)> {
    if s.len() >= 1 && s[0] == 93 {
        Some((Seq::empty(), s.skip(1)))
    } else {
        parse_entry_list(s)
    }
}

fn make_lit_doc_open() -> (v: Vec<u8>)
    ensures
        v@ == lit_doc_open(),
{
    let mut v: Vec<u8> = Vec::new();
    v.push(123);
    v.push(34);
    v.push(101);
    v.push(110);
    v.push(116);
    v.push(114);
    v.push(105);
    v.push(101);
    v.push(115);
    v.push(34);
    v.push(58);
    v.push(91);
    proof {
        assert(v@ =~= lit_doc_open());
    }
    v
}

fn make_lit_limit() -> (v: Vec<u8>)
    ensures
        v@ == lit_limit(),
{
    let mut v: Vec<u8> = Vec::new();
    v.push(44);
    v.push(34);
    v.push(108);
    v.push(105);
    v.push(109);
    v.push(105);
    v.push(116);
    v.push(34);
    v.push(58);
    proof {
        assert(v@ =~= lit_limit());
    }
    v
}

fn make_lit_content() -> (v: Vec<u8>)
    ensures
        v@ == lit_content(),
{
    let mut v: Vec<u8> = Vec::new();
    v.push(123);
    v.push(34);
    v.push(99);
    v.push(111);
    v.push(110);
    v.push(116);
    v.push(101);
    v.push(110);
    v.push(116);
    v.push(34);
    v.push(58);
    proof {
        assert(v@ =~= lit_content());
    }
    v
}

fn make_lit_timestamp() -> (v: Vec<u8>)
    ensures
        v@ == lit_timestamp(),
{
    let mut v: Vec<u8> = Vec::new();
    v.push(44);
    v.push(34);
    v.push(116);
    v.push(105);
    v.push(109);
    v.push(101);
    v.push(115);
    v.push(116);
    v.push(97);
    v.push(109);
    v.push(112);
    v.push(34);
    v.push(58);
    proof {
        assert(v@ =~= lit_timestamp());
    }
    v
}

fn make_lit_item() -> (v: Vec<u8>)
    ensures
        v@ == lit_item(),
{
    let mut v: Vec<u8> = Vec::new();
    v.push(44);
    v.push(34);
    v.push(105);
    v.push(116);
    v.push(101);
    v.push(109);
    v.push(34);
    v.push(58);
    proof {
        assert(v@ =~= lit_item());
    }
    v
}

fn make_lit_hash() -> (v: Vec<u8>)
    ensures
        v@ == lit_hash(),
{
    let mut v: Vec<u8> = Vec::new();
    v.push(44);
    v.push(34);
    v.push(104);
    v.push(97);
    v.push(115);
    v.push(104);
    v.push(34);
    v.push(58);
    proof {
        assert(v@ =~= lit_hash());
    }
    v
}

fn make_lit_text() -> (v: Vec<u8>)
    ensures
        v@ == lit_text(),
{
    let mut v: Vec<u8> = Vec::new();
    v.push(123);
    v.push(34);
    v.push(84);
    v.push(101);
    v.push(120);
    v.push(116);
    v.push(34);
    v.push(58);
    proof {
        assert(v@ =~= lit_text());
    }
    v
}

fn make_lit_image() -> (v: Vec<u8>)
    ensures
        v@ == lit_image(),
{
    let mut v: Vec<u8> = Vec::new();
    v.push(123);
    v.push(34);
    v.push(73);
    v.push(109);
    v.push(97);
    v.push(103);
    v.push(101);
    v.push(34);
    v.push(58);
    proof {
        assert(v@ =~= lit_image());
    }
    v
}

fn make_lit_null() -> (v: Vec<u8>)
    ensures
        v@ == lit_null(),
{
    let mut v: Vec<u8> = Vec::new();
    v.push(110);
    v.push(117);
    v.push(108);
    v.push(108);
    proof {
        assert(v@ =~= lit_null());
    }
    v
}

fn push_all(out: &mut Vec<u8>, piece: &Vec<u8>)
    ensures
        final(out)@ == old(out)@ + piece@,
{
    let n = piece.len();
    let mut k: usize = 0;
    while k < n
        invariant
            k <= n,
            n == piece@.len(),
            out@ == old(out)@ + piece@.take(k as int),
        decreases n - k,
    {
        out.push(piece[k]);
        proof {
            assert(out@ =~= old(out)@ + piece@.take(k + 1));
        }
        k = k + 1;
    }
    proof {
        assert(piece@.take(n as int) =~= piece@);
    }
}

/// Appends the rendering of a payload reference.
fn render_item_exec(out: &mut Vec<u8>, item: &ClipboardItem)
    ensures
        final(out)@ == old(out)@ + render_item(item@),
{
    match item {
        ClipboardItem::Text(s) => {
            let lit = make_lit_text();
            push_all(out, &lit);
            render_string_exec(out, s.as_str());
            out.push(125);
        },
        ClipboardItem::Image(p) => {
            let lit = make_lit_image();
            push_all(out, &lit);
            render_string_exec(out, p.as_str());
            out.push(125);
        },
    }
    proof {
        assert(out@ =~= old(out)@ + render_item(item@));
    }
}

/// Appends the rendering of one entry.
fn render_entry_exec(out: &mut Vec<u8>, e: &Entry)
    ensures
        final(out)@ == old(out)@ + render_entry(e@),
{
    let lit_c = make_lit_content();
    push_all(out, &lit_c);
    render_string_exec(out, e.content.as_str());
    let lit_t = make_lit_timestamp();
    push_all(out, &lit_t);
    push_dec(out, e.timestamp);
    let lit_i = make_lit_item();
    push_all(out, &lit_i);
    render_item_exec(out, &e.item);
    let lit_h = make_lit_hash();
    push_all(out, &lit_h);
    match e.hash {
        Some(x) => push_dec(out, x),
        None => {
            let lit_n = make_lit_null();
            push_all(out, &lit_n);
        },
    }
    out.push(125);
    proof {
        assert(out@ =~= old(out)@ + render_entry(e@));
    }
}

/// Renders the whole document.
pub(crate) fn render_doc_exec(h: &History) -> (v: Vec<u8>)
    ensures
        v@ == render_doc(h@),
{
    let mut out = make_lit_doc_open();
    let n = h.entries.len();
    let ghost ms = h@.entries;
    if n == 0 {
        out.push(93);
    } else {
        render_entry_exec(&mut out, &h.entries[0]);
        let mut k: usize = 1;
        proof {
            assert(ms.skip(1).len() == n - 1);
        }
        while k < n
            invariant
                1 <= k <= n,
                n == h.entries@.len(),
                ms == h@.entries,
                ms == h.entries@.map_values(|e: Entry| e@),
                out@ + render_list_tail(ms.skip(k as int)) == lit_doc_open() + render_entry(ms[0])
                    + render_list_tail(ms.skip(1)),
            decreases n - k,
        {
            out.push(44);
            render_entry_exec(&mut out, &h.entries[k]);
            proof {
                assert(ms.skip(k as int)[0] == ms[k as int]);
                assert(ms.skip(k as int).skip(1) =~= ms.skip(k + 1));
                assert(out@ + render_list_tail(ms.skip(k + 1)) =~= (out@ + render_list_tail(
                    ms.skip(k + 1),
                )));
                assert(render_list_tail(ms.skip(k as int)) == seq![44u8] + render_entry(
                    ms[k as int],
                ) + render_list_tail(ms.skip(k + 1)));
                assert(out@ + render_list_tail(ms.skip(k + 1)) =~= lit_doc_open() + render_entry(
                    ms[0],
                ) + render_list_tail(ms.skip(1)));
            }
            k = k + 1;
        }
        out.push(93);
        proof {
            assert(ms.skip(n as int).len() == 0);
            assert(render_list_tail(ms.skip(n as int)) == seq![93u8]);
            assert(out@ =~= lit_doc_open() + render_entry(ms[0]) + render_list_tail(ms.skip(1)));
        }
    }
    let lit_l = make_lit_limit();
    push_all(&mut out, &lit_l);
    push_dec(&mut out, h.limit as u64);
    out.push(125);
    proof {
        assert(out@ =~= render_doc(h@));
    }
    out
}

/// Parse a whole document; nothing may follow the closing brace.
pub open spec fn parse_doc(s: Seq<u8>) -> Option<HistoryModel> {
    match skip_lit(s, lit_doc_open()) {
        None => None,
        Some(s1) => match parse_entries(s1) {
            None => None,
            Some((es, s2)) => match skip_lit(s2, lit_limit()) {
                None => None,
                Some(s3) => match parse_u64(s3) {
                    None => None,
                    Some((lim, s4)) => if s4 == seq![125u8] {
                        Some(HistoryModel { entries: es, limit: lim })
                    } else {
                        None
                    },
                },
            },
        },
    }
}

/// Relies on String::from_utf8: it succeeds exactly on valid UTF-8 and the
/// returned string holds those very bytes.
#[verifier::external_body]
pub(crate) fn string_from_utf8(v: Vec<u8>) -> (r: Option<String>)
    ensures
        match r {
            Some(s) => v@ == vstd::utf8::encode_utf8(s@),
            None => !vstd::utf8::valid_utf8(v@),
        },
{
    String::from_utf8(v).ok()
}

/// Parses a quoted string at `i` and decodes it; fails where the spec parser
/// fails or where the body is not valid UTF-8.
fn parse_string_utf8(v: &Vec<u8>, i: usize) -> (r: Option<(String, usize)>)
    requires
        i <= v@.len(),
    ensures
        match r {
            Some((s, j)) => {
                &&& i <= j <= v@.len()
                &&& parse_string(v@.skip(i as int)) == Some(
                    (vstd::utf8::encode_utf8(s@), v@.skip(j as int)),
                )
                &&& vstd::utf8::valid_utf8(vstd::utf8::encode_utf8(s@))
                &&& s@ == vstd::utf8::decode_utf8(vstd::utf8::encode_utf8(s@))
            },
            None => match parse_string(v@.skip(i as int)) {
                Some((b, _)) => !vstd::utf8::valid_utf8(b),
                None => true,
            },
        },
{
    broadcast use vstd::utf8::encode_utf8_valid_utf8, vstd::utf8::encode_utf8_decode_utf8;

    proof {
        if i < v@.len() {
            assert(v@.skip(i as int)[0] == v@[i as int]);
        }
    }
    if i == v.len() || v[i] != 34 {
        return None;
    }
    proof {
        assert(v@.skip(i as int).skip(1) =~= v@.skip(i + 1));
    }
    match parse_string_body_exec(v, i + 1) {
        None => None,
        Some((bytes, j)) => {
            let ghost b = bytes@;
            match string_from_utf8(bytes) {
                None => {
                    proof {
                        assert(!vstd::utf8::valid_utf8(b));
                    }
                    None
                },
                Some(s) => {
                    proof {
                        assert(vstd::utf8::encode_utf8(s@) == b);
                    }
                    Some((s, j))
                },
            }
        },
    }
}

/// Parses a payload reference object at `i`.
fn parse_item_exec(v: &Vec<u8>, i: usize) -> (r: Option<(ClipboardItem, usize)>)
    requires
        i <= v@.len(),
    ensures
        match r {
            Some((it, j)) => {
                &&& i <= j <= v@.len()
                &&& parse_item(v@.skip(i as int)) == Some((it@, v@.skip(j as int)))
            },
            None => parse_item(v@.skip(i as int)) is None,
        },
{
    broadcast use vstd::utf8::encode_utf8_valid_utf8, vstd::utf8::encode_utf8_decode_utf8;

    let lit_t = make_lit_text();
    let lit_i = make_lit_image();
    match eat_lit(v, i, &lit_t) {
        Some(j1) => {
            match parse_string_utf8(v, j1) {
                None => None,
                Some((s, j2)) => {
                    if j2 < v.len() && v[j2] == 125 {
                        proof {
                            assert(v@.skip(j2 as int).take(1) =~= seq![125u8]);
                            assert(v@.skip(j2 as int).skip(1) =~= v@.skip(j2 + 1));
                            assert(skip_lit(v@.skip(j2 as int), seq![125u8]) == Some(
                                v@.skip(j2 + 1),
                            ));
                        }
                        Some((ClipboardItem::Text(s), j2 + 1))
                    } else {
                        proof {
                            if j2 < v@.len() {
                                assert(v@.skip(j2 as int).take(1)[0] == v@[j2 as int]);
                            }
                            assert(skip_lit(v@.skip(j2 as int), seq![125u8]) is None);
                        }
                        None
                    }
                },
            }
        },
        None => {
            match eat_lit(v, i, &lit_i) {
                None => None,
                Some(j1) => {
                    match parse_string_utf8(v, j1) {
                        None => None,
                        Some((s, j2)) => {
                            if j2 < v.len() && v[j2] == 125 {
                                proof {
                                    assert(v@.skip(j2 as int).take(1) =~= seq![125u8]);
                                    assert(v@.skip(j2 as int).skip(1) =~= v@.skip(j2 + 1));
                                    assert(skip_lit(v@.skip(j2 as int), seq![125u8]) == Some(
                                        v@.skip(j2 + 1),
                                    ));
                                }
                                Some((ClipboardItem::Image(s), j2 + 1))
                            } else {
                                proof {
                                    if j2 < v@.len() {
                                        assert(v@.skip(j2 as int).take(1)[0] == v@[j2 as int]);
                                    }
                                    assert(skip_lit(v@.skip(j2 as int), seq![125u8]) is None);
                                }
                                None
                            }
                        },
                    }
                },
            }
        },
    }
}

/// Parses the fingerprint field value at `i`.
fn parse_hash_exec(v: &Vec<u8>, i: usize) -> (r: Option<(Option<u64>, usize)>)
    requires
        i <= v@.len(),
    ensures
        match r {
            Some((h, j)) => {
                &&& i <= j <= v@.len()
                &&& parse_hash(v@.skip(i as int)) == Some((h, v@.skip(j as int)))
            },
            None => parse_hash(v@.skip(i as int)) is None,
        },
{
    let lit_n = make_lit_null();
    match eat_lit(v, i, &lit_n) {
        Some(j) => Some((None, j)),
        None => match parse_u64_exec(v, i) {
            Some((n, j)) => Some((Some(n), j)),
            None => None,
        },
    }
}

/// Parses one entry object at `i`.
#[verifier::rlimit(100)]
fn parse_entry_exec(v: &Vec<u8>, i: usize) -> (r: Option<(Entry, usize)>)
    requires
        i <= v@.len(),
    ensures
        match r {
            Some((e, j)) => {
                &&& i < j <= v@.len()
                &&& parse_entry(v@.skip(i as int)) == Some((e@, v@.skip(j as int)))
            },
            None => parse_entry(v@.skip(i as int)) is None,
        },
{
    proof {
        reveal(parse_entry);
    }
    let lit_c = make_lit_content();
    let lit_ts = make_lit_timestamp();
    let lit_it = make_lit_item();
    let lit_h = make_lit_hash();
    let j1 = match eat_lit(v, i, &lit_c) {
        Some(j) => j,
        None => {
            return None;
        },
    };
    let (content, j2) = match parse_string_utf8(v, j1) {
        Some(x) => x,
        None => {
            return None;
        },
    };
    let j3 = match eat_lit(v, j2, &lit_ts) {
        Some(j) => j,
        None => {
            return None;
        },
    };
    let (ts, j4) = match parse_u64_exec(v, j3) {
        Some(x) => x,
        None => {
            return None;
        },
    };
    let j5 = match eat_lit(v, j4, &lit_it) {
        Some(j) => j,
        None => {
            return None;
        },
    };
    let (item, j6) = match parse_item_exec(v, j5) {
        Some(x) => x,
        None => {
            return None;
        },
    };
    match eat_lit(v, j6, &lit_h) {
        Some(j7) => {
            let (h, j8) = match parse_hash_exec(v, j7) {
                Some(x) => x,
                None => {
                    return None;
                },
            };
            if j8 < v.len() && v[j8] == 125 {
                proof {
                    assert(v@.skip(j8 as int).take(1) =~= seq![125u8]);
                    assert(v@.skip(j8 as int).skip(1) =~= v@.skip(j8 + 1));
                    assert(skip_lit(v@.skip(j8 as int), seq![125u8]) == Some(v@.skip(j8 + 1)));
                }
                Some((Entry { content, timestamp: ts, item, hash: h }, j8 + 1))
            } else {
                proof {
                    if j8 < v@.len() {
                        assert(v@.skip(j8 as int).take(1)[0] == v@[j8 as int]);
                    }
                    assert(skip_lit(v@.skip(j8 as int), seq![125u8]) is None);
                }
                None
            }
        },
        None => {
            if j6 < v.len() && v[j6] == 125 {
                proof {
                    assert(v@.skip(j6 as int).take(1) =~= seq![125u8]);
                    assert(v@.skip(j6 as int).skip(1) =~= v@.skip(j6 + 1));
                    assert(skip_lit(v@.skip(j6 as int), seq![125u8]) == Some(v@.skip(j6 + 1)));
                }
                Some((Entry { content, timestamp: ts, item, hash: None }, j6 + 1))
            } else {
                proof {
                    if j6 < v@.len() {
                        assert(v@.skip(j6 as int).take(1)[0] == v@[j6 as int]);
                    }
                    assert(skip_lit(v@.skip(j6 as int), seq![125u8]) is None);
                }
                None
            }
        },
    }
}

/// Accumulated entries prepended to an entry-list parse result.
pub open spec fn cons_entries(
    prefix: Seq<EntryModel>,
    r: Option<(Seq<EntryModel>, Seq<u8>)>,
) -> Option<(Seq<EntryModel>, Seq<u8>)> {
    match r {
        Some((es, rest)) => Some((prefix + es, rest)),
        None => None,
    }
}

proof fn lemma_cons_entries_nil(r: Option<(Seq<EntryModel>, Seq<u8>)>)
    ensures
        cons_entries(Seq::<EntryModel>::empty(), r) == r,
{
    match r {
        Some((es, rest)) => {
            assert(Seq::<EntryModel>::empty() + es =~= es);
        },
        None => {},
    }
}

proof fn lemma_cons_entries_step(
    prefix: Seq<EntryModel>,
    e: EntryModel,
    r: Option<(Seq<EntryModel>, Seq<u8>)>,
)
    ensures
        cons_entries(
            prefix,
            match r {
                Some((es, rest)) => Some((seq![e] + es, rest)),
                None => None,
            },
        ) == cons_entries(prefix.push(e), r),
{
    match r {
        Some((es, rest)) => {
            assert(prefix + (seq![e] + es) =~= prefix.push(e) + es);
        },
        None => {},
    }
}

/// Parses the entry array at `i` (opening bracket already consumed).
fn parse_entries_exec(v: &Vec<u8>, i: usize) -> (r: Option<(Vec<Entry>, usize)>)
    requires
        i <= v@.len(),
    ensures
        match r {
            Some((es, j)) => {
                &&& i <= j <= v@.len()
                &&& parse_entries(v@.skip(i as int)) == Some(
                    (es@.map_values(|e: Entry| e@), v@.skip(j as int)),
                )
            },
            None => parse_entries(v@.skip(i as int)) is None,
        },
{
    proof {
        if i < v@.len() {
            assert(v@.skip(i as int)[0] == v@[i as int]);
        }
    }
    if i < v.len() && v[i] == 93 {
        let es: Vec<Entry> = Vec::new();
        proof {
            assert(v@.skip(i as int).skip(1) =~= v@.skip(i + 1));
            assert(es@.map_values(|e: Entry| e@) =~= Seq::<EntryModel>::empty());
        }
        return Some((es, i + 1));
    }
    let mut es: Vec<Entry> = Vec::new();
    let mut cur: usize = i;
    let n = v.len();
    proof {
        lemma_cons_entries_nil(parse_entry_list(v@.skip(i as int)));
        assert(es@.map_values(|x: Entry| x@) =~= Seq::<EntryModel>::empty());
    }
    loop
        invariant
            i <= cur <= n,
            n == v@.len(),
            parse_entries(v@.skip(i as int)) == cons_entries(
                es@.map_values(|x: Entry| x@),
                parse_entry_list(v@.skip(cur as int)),
            ),
        decreases n - cur,
    {
        let ghost pre = es@.map_values(|x: Entry| x@);
        let (e, j) = match parse_entry_exec(v, cur) {
            Some(x) => x,
            None => {
                return None;
            },
        };
        es.push(e);
        proof {
            assert(es@.map_values(|x: Entry| x@) =~= pre.push(e@));
        }
        if j < n && v[j] == 93 {
            proof {
                assert(v@.skip(j as int)[0] == v@[j as int]);
                assert(v@.skip(j as int).skip(1) =~= v@.skip(j + 1));
                assert(parse_entry_list(v@.skip(cur as int)) == Some(
                    (seq![e@], v@.skip(j + 1)),
                ));
                assert(pre + seq![e@] =~= pre.push(e@));
            }
            return Some((es, j + 1));
        }
        if j < n && v[j] == 44 {
            proof {
                assert(v@.skip(j as int)[0] == v@[j as int]);
                assert(v@.skip(j as int).skip(1) =~= v@.skip(j + 1));
                assert(v@.skip(j as int).len() < v@.skip(cur as int).len());
                lemma_cons_entries_step(pre, e@, parse_entry_list(v@.skip(j + 1)));
            }
            cur = j + 1;
        } else {
            proof {
                if j < v@.len() {
                    assert(v@.skip(j as int)[0] == v@[j as int]);
                }
            }
            return None;
        }
    }
}

proof fn lemma_parse_item_round(it: ItemModel, rest: Seq<u8>)
    ensures
        parse_item(render_item(it) + rest) == Some((it, rest)),
{
    broadcast use vstd::utf8::encode_utf8_valid_utf8, vstd::utf8::encode_utf8_decode_utf8;

    match it {
        ItemModel::Text(t) => {
            let cb = vstd::utf8::encode_utf8(t);
            let t2 = seq![125u8] + rest;
            let t1 = render_string(cb) + t2;
            let s = lit_text() + t1;
            assert(s =~= render_item(it) + rest);
            lemma_skip_lit_round(lit_text(), t1);
            lemma_parse_string_round(cb, t2);
            lemma_skip_lit_round(seq![125u8], rest);
            assert(parse_item(s) == Some((it, rest)));
        },
        ItemModel::Image(p) => {
            let cb = vstd::utf8::encode_utf8(p);
            let t2 = seq![125u8] + rest;
            let t1 = render_string(cb) + t2;
            let s = lit_image() + t1;
            assert(s =~= render_item(it) + rest);
            assert(skip_lit(s, lit_text()) is None) by {
                assert(s[2] == 73);
                assert(lit_text()[2] == 84);
                if lit_text().len() <= s.len() && s.take(lit_text().len() as int) == lit_text() {
                    assert(s.take(lit_text().len() as int)[2] == s[2]);
                }
            }
            lemma_skip_lit_round(lit_image(), t1);
            lemma_parse_string_round(cb, t2);
            lemma_skip_lit_round(seq![125u8], rest);
            assert(parse_item(s) == Some((it, rest)));
        },
    }
}

proof fn lemma_parse_hash_round(h: Option<u64>, rest: Seq<u8>)
    requires
        rest.len() == 0 || !is_digit_byte(rest[0]),
    ensures
        parse_hash(render_hash(h) + rest) == Some((h, rest)),
{
    match h {
        None => {
            lemma_skip_lit_round(lit_null(), rest);
        },
        Some(x) => {
            let s = dec_digits(x) + rest;
            lemma_dec_digits_facts(x);
            assert(skip_lit(s, lit_null()) is None) by {
                if lit_null().len() <= s.len() && s.take(lit_null().len() as int) == lit_null() {
                    assert(s.take(lit_null().len() as int)[0] == s[0]);
                    assert(s[0] == dec_digits(x)[0]);
                    assert(is_digit_byte(dec_digits(x)[0]));
                }
            }
            lemma_parse_u64_round(x, rest);
        },
    }
}

#[verifier::rlimit(100)]
proof fn lemma_parse_entry_round(e: EntryModel, rest: Seq<u8>)
    ensures
        parse_entry(render_entry(e) + rest) == Some((e, rest)),
{
    broadcast use vstd::utf8::encode_utf8_valid_utf8, vstd::utf8::encode_utf8_decode_utf8;

    reveal(parse_entry);
    let cb = vstd::utf8::encode_utf8(e.content);
    let t8 = seq![125u8] + rest;
    let t7 = render_hash(e.hash) + t8;
    let t6 = lit_hash() + t7;
    let t5 = render_item(e.item) + t6;
    let t4 = lit_item() + t5;
    let t3 = dec_digits(e.timestamp) + t4;
    let t2 = lit_timestamp() + t3;
    let t1 = render_string(cb) + t2;
    let s = lit_content() + t1;
    assert(s =~= render_entry(e) + rest);
    lemma_skip_lit_round(lit_content(), t1);
    lemma_parse_string_round(cb, t2);
    lemma_skip_lit_round(lit_timestamp(), t3);
    assert(t4[0] == 44);
    lemma_parse_u64_round(e.timestamp, t4);
    lemma_skip_lit_round(lit_item(), t5);
    lemma_parse_item_round(e.item, t6);
    lemma_skip_lit_round(lit_hash(), t7);
    assert(t8[0] == 125);
    lemma_parse_hash_round(e.hash, t8);
    lemma_skip_lit_round(seq![125u8], rest);
    assert(parse_entry(s) == Some(
        (
            EntryModel {
                content: vstd::utf8::decode_utf8(cb),
                timestamp: e.timestamp,
                item: e.item,
                hash: e.hash,
            },
            rest,
        ),
    ));
    assert(EntryModel {
        content: vstd::utf8::decode_utf8(cb),
        timestamp: e.timestamp,
        item: e.item,
        hash: e.hash,
    } =~= e);
}

proof fn lemma_assoc(a: Seq<u8>, b: Seq<u8>, c: Seq<u8>)
    ensures
        (a + b) + c == a + (b + c),
{
    assert((a + b) + c =~= a + (b + c));
}

#[verifier::rlimit(100)]
proof fn lemma_parse_entry_list_round(es: Seq<EntryModel>, rest: Seq<u8>)
    requires
        es.len() >= 1,
    ensures
        parse_entry_list(render_entry(es[0]) + render_list_tail(es.skip(1)) + rest) == Some(
            (es, rest),
        ),
    decreases es.len(),
{
    let a = render_entry(es[0]);
    let b = render_list_tail(es.skip(1));
    let s = a + b + rest;
    let tail_rest = b + rest;
    lemma_assoc(a, b, rest);
    lemma_parse_entry_round(es[0], tail_rest);
    if es.len() == 1 {
        assert(es.skip(1).len() == 0);
        assert(b == seq![93u8]);
        assert(tail_rest[0] == 93);
        assert(tail_rest.skip(1) =~= rest);
        assert(seq![es[0]] =~= es);
    } else {
        let es1 = es.skip(1);
        assert(es1.len() >= 1);
        let a1 = render_entry(es1[0]);
        let b1 = render_list_tail(es1.skip(1));
        assert(b == seq![44u8] + a1 + b1);
        lemma_assoc(seq![44u8] + a1, b1, rest);
        lemma_assoc(seq![44u8], a1, b1 + rest);
        assert(tail_rest == seq![44u8] + (a1 + (b1 + rest)));
        assert(tail_rest[0] == 44);
        assert(tail_rest.skip(1) =~= a1 + (b1 + rest));
        lemma_assoc(a1, b1, rest);
        assert(a.len() >= 1);
        assert(tail_rest.len() < s.len());
        lemma_parse_entry_list_round(es1, rest);
        assert(seq![es[0]] + es1 =~= es);
    }
}

/// Every byte is ASCII.
pub open spec fn all_ascii(s: Seq<u8>) -> bool {
    forall|i: int| 0 <= i < s.len() ==> s[i] <= 0x7f
}

/// An all-ASCII byte sequence is valid UTF-8.
pub(crate) proof fn lemma_ascii_valid(s: Seq<u8>)
    requires
        all_ascii(s),
    ensures
        vstd::utf8::valid_utf8(s),
    decreases s.len(),
{
    if s.len() > 0 {
        assert(vstd::utf8::is_leading_byte_width_1(s[0]));
        assert(vstd::utf8::length_of_first_scalar(s) == 1);
        assert(vstd::utf8::pop_first_scalar(s) =~= s.skip(1));
        assert(all_ascii(s.skip(1)));
        lemma_ascii_valid(s.skip(1));
    }
}

/// Escaping an ASCII byte yields ASCII bytes.
proof fn lemma_esc_byte_ascii(b: u8)
    requires
        b <= 0x7f,
    ensures
        all_ascii(esc_byte(b)),
{
}

/// A byte the escaper passes through unchanged.
pub open spec fn is_plain_byte(b: u8) -> bool {
    b >= 32 && b != 34 && b != 92
}

/// Escaping leaves a sequence of plain bytes unchanged.
proof fn lemma_escape_plain_identity(s: Seq<u8>)
    requires
        forall|i: int| 0 <= i < s.len() ==> is_plain_byte(s[i]),
    ensures
        escape_bytes(s) == s,
    decreases s.len(),
{
    if s.len() > 0 {
        lemma_escape_plain_identity(s.skip(1));
        assert(escape_bytes(s) =~= seq![s[0]] + s.skip(1));
        assert(seq![s[0]] + s.skip(1) =~= s);
    }
}

/// The escaped encoding of any character sequence is valid UTF-8: ASCII
/// characters escape to ASCII bytes, and the bytes of a multi-byte encoding
/// are all at least 0x80, so the escaper passes them through whole.
proof fn lemma_escape_encode_valid(c: Seq<char>)
    ensures
        vstd::utf8::valid_utf8(escape_bytes(vstd::utf8::encode_utf8(c))),
    decreases c.len(),
{
    broadcast use vstd::utf8::char_is_scalar, vstd::utf8::valid_utf8_concat, vstd::utf8::encode_utf8_valid_utf8;

    if c.len() == 0 {
        assert(escape_bytes(vstd::utf8::encode_utf8(c)) =~= Seq::<u8>::empty());
    } else {
        let v = c[0] as u32;
        let head = vstd::utf8::encode_scalar(v);
        let tail = vstd::utf8::encode_utf8(c.drop_first());
        assert(vstd::utf8::encode_utf8(c) == head + tail);
        lemma_escape_concat(head, tail);
        lemma_escape_encode_valid(c.drop_first());
        if v <= 0x7f {
            let b = vstd::utf8::leading_byte_width_1(v);
            assert(b == (v & 0x7F) as u8);
            assert(v & 0x7F == v) by (bit_vector)
                requires
                    v <= 0x7f,
            ;
            assert(head =~= seq![b]);
            assert(escape_bytes(head) =~= esc_byte(b) + Seq::<u8>::empty()) by {
                assert(head.skip(1) =~= Seq::<u8>::empty());
                assert(escape_bytes(Seq::<u8>::empty()) =~= Seq::<u8>::empty());
            }
            assert(escape_bytes(head) =~= esc_byte(b));
            lemma_esc_byte_ascii(b);
            lemma_ascii_valid(escape_bytes(head));
        } else {
            assert(forall|i: int| 0 <= i < head.len() ==> #[trigger] head[i] >= 0x80) by {
                assert(0xC0u8 | ((v >> 6) & 0x1F) as u8 >= 0x80) by (bit_vector);
                assert(0xE0u8 | ((v >> 12) & 0x0F) as u8 >= 0x80) by (bit_vector);
                assert(0xF0u8 | ((v >> 18) & 0x7) as u8 >= 0x80) by (bit_vector);
                assert(0x80u8 | (v & 0x3F) as u8 >= 0x80) by (bit_vector);
                assert(0x80u8 | ((v >> 6) & 0x3F) as u8 >= 0x80) by (bit_vector);
                assert(0x80u8 | ((v >> 12) & 0x3F) as u8 >= 0x80) by (bit_vector);
            }
            lemma_escape_plain_identity(head);
            assert(head =~= vstd::utf8::encode_utf8(seq![c[0]])) by {
                assert(seq![c[0]].drop_first() =~= Seq::<char>::empty());
                assert(vstd::utf8::encode_utf8(Seq::<char>::empty()) =~= Seq::<u8>::empty());
                assert(head + Seq::<u8>::empty() =~= head);
            }
            assert(vstd::utf8::valid_utf8(head));
        }
        assert(escape_bytes(vstd::utf8::encode_utf8(c)) == escape_bytes(head) + escape_bytes(
            tail,
        ));
    }
}

proof fn lemma_render_string_valid(c: Seq<char>)
    ensures
        vstd::utf8::valid_utf8(render_string(vstd::utf8::encode_utf8(c))),
{
    lemma_escape_encode_valid(c);
    lemma_ascii_valid(seq![34u8]);
    let esc = escape_bytes(vstd::utf8::encode_utf8(c));
    vstd::utf8::valid_utf8_concat(seq![34u8], esc);
    vstd::utf8::valid_utf8_concat(seq![34u8] + esc, seq![34u8]);
    assert(render_string(vstd::utf8::encode_utf8(c)) == (seq![34u8] + esc) + seq![34u8]);
}

proof fn lemma_dec_digits_valid(n: u64)
    ensures
        vstd::utf8::valid_utf8(dec_digits(n)),
{
    lemma_dec_digits_facts(n);
    assert(all_ascii(dec_digits(n)));
    lemma_ascii_valid(dec_digits(n));
}

proof fn lemma_render_item_valid(it: ItemModel)
    ensures
        vstd::utf8::valid_utf8(render_item(it)),
{
    broadcast use vstd::utf8::valid_utf8_concat;

    match it {
        ItemModel::Text(t) => {
            lemma_render_string_valid(t);
            assert(all_ascii(lit_text()));
            lemma_ascii_valid(lit_text());
            lemma_ascii_valid(seq![125u8]);
            let body = render_string(vstd::utf8::encode_utf8(t));
            vstd::utf8::valid_utf8_concat(lit_text(), body);
            vstd::utf8::valid_utf8_concat(lit_text() + body, seq![125u8]);
            assert(render_item(it) == (lit_text() + body) + seq![125u8]);
        },
        ItemModel::Image(p) => {
            lemma_render_string_valid(p);
            assert(all_ascii(lit_image()));
            lemma_ascii_valid(lit_image());
            lemma_ascii_valid(seq![125u8]);
            let body = render_string(vstd::utf8::encode_utf8(p));
            vstd::utf8::valid_utf8_concat(lit_image(), body);
            vstd::utf8::valid_utf8_concat(lit_image() + body, seq![125u8]);
            assert(render_item(it) == (lit_image() + body) + seq![125u8]);
        },
    }
}

proof fn lemma_render_entry_valid(e: EntryModel)
    ensures
        vstd::utf8::valid_utf8(render_entry(e)),
{
    lemma_render_string_valid(e.content);
    lemma_dec_digits_valid(e.timestamp);
    lemma_render_item_valid(e.item);
    match e.hash {
        Some(x) => {
            lemma_dec_digits_valid(x);
        },
        None => {
            assert(all_ascii(lit_null()));
            lemma_ascii_valid(lit_null());
        },
    }
    assert(all_ascii(lit_content()));
    lemma_ascii_valid(lit_content());
    assert(all_ascii(lit_timestamp()));
    lemma_ascii_valid(lit_timestamp());
    assert(all_ascii(lit_item()));
    lemma_ascii_valid(lit_item());
    assert(all_ascii(lit_hash()));
    lemma_ascii_valid(lit_hash());
    lemma_ascii_valid(seq![125u8]);
    let a1 = lit_content() + render_string(vstd::utf8::encode_utf8(e.content));
    vstd::utf8::valid_utf8_concat(lit_content(), render_string(vstd::utf8::encode_utf8(e.content)));
    let a2 = a1 + lit_timestamp();
    vstd::utf8::valid_utf8_concat(a1, lit_timestamp());
    let a3 = a2 + dec_digits(e.timestamp);
    vstd::utf8::valid_utf8_concat(a2, dec_digits(e.timestamp));
    let a4 = a3 + lit_item();
    vstd::utf8::valid_utf8_concat(a3, lit_item());
    let a5 = a4 + render_item(e.item);
    vstd::utf8::valid_utf8_concat(a4, render_item(e.item));
    let a6 = a5 + lit_hash();
    vstd::utf8::valid_utf8_concat(a5, lit_hash());
    let a7 = a6 + render_hash(e.hash);
    vstd::utf8::valid_utf8_concat(a6, render_hash(e.hash));
    vstd::utf8::valid_utf8_concat(a7, seq![125u8]);
    assert(render_entry(e) == a7 + seq![125u8]);
}

proof fn lemma_render_list_tail_valid(es: Seq<EntryModel>)
    ensures
        vstd::utf8::valid_utf8(render_list_tail(es)),
    decreases es.len(),
{
    broadcast use vstd::utf8::valid_utf8_concat;

    if es.len() == 0 {
        lemma_ascii_valid(seq![93u8]);
    } else {
        lemma_ascii_valid(seq![44u8]);
        lemma_render_entry_valid(es[0]);
        lemma_render_list_tail_valid(es.skip(1));
        let b1 = seq![44u8] + render_entry(es[0]);
        vstd::utf8::valid_utf8_concat(seq![44u8], render_entry(es[0]));
        vstd::utf8::valid_utf8_concat(b1, render_list_tail(es.skip(1)));
        assert(render_list_tail(es) == b1 + render_list_tail(es.skip(1)));
    }
}

/// The rendered document is valid UTF-8, so it can be handed around as a
/// string.
pub proof fn lemma_render_doc_valid(m: HistoryModel)
    ensures
        vstd::utf8::valid_utf8(render_doc(m)),
{
    broadcast use vstd::utf8::valid_utf8_concat;

    assert(all_ascii(lit_doc_open()));
    lemma_ascii_valid(lit_doc_open());
    assert(all_ascii(lit_limit()));
    lemma_ascii_valid(lit_limit());
    lemma_dec_digits_valid(m.limit);
    lemma_ascii_valid(seq![125u8]);
    let middle = if m.entries.len() == 0 {
        seq![93u8]
    } else {
        render_entry(m.entries[0]) + render_list_tail(m.entries.skip(1))
    };
    if m.entries.len() == 0 {
        lemma_ascii_valid(seq![93u8]);
    } else {
        lemma_render_entry_valid(m.entries[0]);
        lemma_render_list_tail_valid(m.entries.skip(1));
        vstd::utf8::valid_utf8_concat(render_entry(m.entries[0]), render_list_tail(m.entries.skip(1)));
    }
    let c1 = lit_doc_open() + middle;
    vstd::utf8::valid_utf8_concat(lit_doc_open(), middle);
    let c2 = c1 + lit_limit();
    vstd::utf8::valid_utf8_concat(c1, lit_limit());
    let c3 = c2 + dec_digits(m.limit);
    vstd::utf8::valid_utf8_concat(c2, dec_digits(m.limit));
    vstd::utf8::valid_utf8_concat(c3, seq![125u8]);
    assert(render_doc(m) == c3 + seq![125u8]);
}

/// Parses a whole document held in `v`.
fn parse_doc_exec(v: &Vec<u8>) -> (r: Option<(Vec<Entry>, u64)>)
    ensures
        match r {
            Some((es, lim)) => parse_doc(v@) == Some(
                HistoryModel { entries: es@.map_values(|e: Entry| e@), limit: lim },
            ),
            None => parse_doc(v@) is None,
        },
{
    let lit_o = make_lit_doc_open();
    let lit_l = make_lit_limit();
    proof {
        assert(v@.skip(0) =~= v@);
    }
    let j1 = match eat_lit(v, 0, &lit_o) {
        Some(j) => j,
        None => {
            return None;
        },
    };
    let (es, j2) = match parse_entries_exec(v, j1) {
        Some(x) => x,
        None => {
            return None;
        },
    };
    let j3 = match eat_lit(v, j2, &lit_l) {
        Some(j) => j,
        None => {
            return None;
        },
    };
    let (lim, j4) = match parse_u64_exec(v, j3) {
        Some(x) => x,
        None => {
            return None;
        },
    };
    if j4 < v.len() && v[j4] == 125 && j4 + 1 == v.len() {
        proof {
            assert(v@.skip(j4 as int) =~= seq![125u8]);
        }
        Some((es, lim))
    } else {
        proof {
            if v@.skip(j4 as int) == seq![125u8] {
                assert(v@.skip(j4 as int).len() == 1);
                assert(v@.skip(j4 as int)[0] == v@[j4 as int]);
            }
        }
        None
    }
}

impl History {
    /// The canonical JSON rendering of this history: the durable document and
    /// the export format.
    pub fn export_json(&self) -> (r: String)
        ensures
            vstd::utf8::encode_utf8(r@) == render_doc(self@),
    {
        let bytes = render_doc_exec(self);
        proof {
            lemma_render_doc_valid(self@);
        }
        match string_from_utf8(bytes) {
            Some(s) => s,
            None => {
                proof {
                    assert(false);
                }
                String::new()
            },
        }
    }

    /// Rebuilds a history from its JSON rendering, clamping the entries to
    /// `limit` (the capacity always comes from the caller, not the file). A
    /// document that does not parse yields an empty history rather than an
    /// error.
    pub fn from_json(text: &str, limit: usize) -> (h: History)
        requires
            1 <= limit,
        ensures
            h.wf(),
            h@.limit == limit as u64,
            match parse_doc(text.spec_bytes()) {
                Some(m) => h@.entries == if m.entries.len() <= limit {
                    m.entries
                } else {
                    m.entries.take(limit as int)
                },
                None => h@.entries == Seq::<EntryModel>::empty(),
            },
    {
        let bytes = text.as_bytes_vec();
        match parse_doc_exec(&bytes) {
            None => History::new(limit),
            Some((es, _file_limit)) => {
                let mut h = History { entries: es, limit };
                let ghost parsed = es@.map_values(|e: Entry| e@);
                if h.entries.len() > limit {
                    h.entries.truncate(limit);
                    proof {
                        assert(h@.entries =~= parsed.take(limit as int));
                    }
                }
                h
            },
        }
    }
}

/// Promotion persists: promoting the entry at `i` keeps the history
/// well-formed, and rendering it to the durable document and parsing it back
/// preserves it exactly — the promoted entry at index 0, every other copy of
/// its content removed.
pub proof fn lemma_promote_persist(m: HistoryModel, i: int)
    requires
        wf_history(m),
        0 <= i < m.entries.len(),
    ensures
        wf_history(spec_promote(m, i)),
        parse_doc(render_doc(spec_promote(m, i))) == Some(spec_promote(m, i)),
        spec_promote(m, i).entries[0] == m.entries[i],
        forall|j: int|
            1 <= j < spec_promote(m, i).entries.len() ==> spec_promote(m, i).entries[j].content
                != m.entries[i].content,
{
    broadcast use vstd::seq_lib::group_seq_lib_default;

    let e = m.entries[i];
    let pred = |x: EntryModel| x.content != e.content;
    let kept = m.entries.remove(i).filter(pred);
    m.entries.remove(i).lemma_filter_len(pred);
    lemma_parse_render_round_trip(spec_promote(m, i));
    assert(forall|j: int| 1 <= j < spec_promote(m, i).entries.len() ==> spec_promote(
        m,
        i,
    ).entries[j] == kept[j - 1]);
    assert forall|j: int| 0 <= j < kept.len() implies pred(#[trigger] kept[j]) by {
        m.entries.remove(i).lemma_filter_pred(pred, j);
    }
}

/// Round trip: parsing a rendered document returns exactly the document.
/// This is what makes `save` followed by `load` lossless.
#[verifier::rlimit(100)]
pub proof fn lemma_parse_render_round_trip(m: HistoryModel)
    ensures
        parse_doc(render_doc(m)) == Some(m),
{
    let s = render_doc(m);
    let t2 = lit_limit() + (dec_digits(m.limit) + seq![125u8]);
    if m.entries.len() == 0 {
        let t1 = seq![93u8] + t2;
        assert(s =~= lit_doc_open() + t1);
        lemma_skip_lit_round(lit_doc_open(), t1);
        assert(t1[0] == 93);
        assert(t1.skip(1) =~= lit_limit() + (dec_digits(m.limit) + seq![125u8]));
        lemma_skip_lit_round(lit_limit(), dec_digits(m.limit) + seq![125u8]);
        assert((dec_digits(m.limit) + seq![125u8]) =~= dec_digits(m.limit) + seq![125u8]);
        lemma_parse_u64_round(m.limit, seq![125u8]);
        assert(m.entries =~= Seq::<EntryModel>::empty());
        assert(HistoryModel { entries: Seq::<EntryModel>::empty(), limit: m.limit } =~= m);
    } else {
        let t1 = render_entry(m.entries[0]) + render_list_tail(m.entries.skip(1)) + t2;
        assert(s =~= lit_doc_open() + t1);
        lemma_skip_lit_round(lit_doc_open(), t1);
        assert(t1[0] == 123);
        assert(t1[0] != 93);
        lemma_parse_entry_list_round(m.entries, t2);
        lemma_skip_lit_round(lit_limit(), dec_digits(m.limit) + seq![125u8]);
        lemma_parse_u64_round(m.limit, seq![125u8]);
        assert(HistoryModel { entries: m.entries, limit: m.limit } =~= m);
    }
}

} // verus!
