//! A canonical text form for attestations, with a proved round trip:
//! parsing a serialized record yields the record back.
//!
//! Every piece is length-prefixed — a number is decimal digits closed
//! by `:`, a string is its length followed by its characters — so no
//! escaping is needed and parsing is deterministic.

use vstd::prelude::*;

use crate::authorship_log::{AttestationEntry, AuthorshipLog, FileAttestation, LineRange};
use crate::text::opt_chars_view;
use crate::working_log::PromptRecord;

verus! {

pub open spec fn is_digit(c: char) -> bool {
    c == '0' || c == '1' || c == '2' || c == '3' || c == '4' || c == '5' || c == '6' || c == '7'
        || c == '8' || c == '9'
}

pub open spec fn digit_char(d: int) -> char {
    if d == 0 {
        '0'
    } else if d == 1 {
        '1'
    } else if d == 2 {
        '2'
    } else if d == 3 {
        '3'
    } else if d == 4 {
        '4'
    } else if d == 5 {
        '5'
    } else if d == 6 {
        '6'
    } else if d == 7 {
        '7'
    } else if d == 8 {
        '8'
    } else {
        '9'
    }
}

pub open spec fn digit_val(c: char) -> int {
    if c == '0' {
        0
    } else if c == '1' {
        1
    } else if c == '2' {
        2
    } else if c == '3' {
        3
    } else if c == '4' {
        4
    } else if c == '5' {
        5
    } else if c == '6' {
        6
    } else if c == '7' {
        7
    } else if c == '8' {
        8
    } else {
        9
    }
}

/// The decimal digits of `n`, most significant first.
pub open spec fn dec_digits(n: int) -> Seq<char>
    decreases n,
{
    if n < 10 {
        seq![digit_char(if n < 0 { 0 } else { n })]
    } else {
        dec_digits(n / 10).push(digit_char(n % 10))
    }
}

/// A number's canonical form: its digits closed by `:`.
pub open spec fn enc_nat(n: int) -> Seq<char> {
    dec_digits(n) + seq![':']
}

proof fn lemma_dec_digits_shape(n: int)
    requires
        n >= 0,
    ensures
        dec_digits(n).len() >= 1,
        forall|i: int| 0 <= i < dec_digits(n).len() ==> is_digit(#[trigger] dec_digits(n)[i]),
    decreases n,
{
    if n >= 10 {
        lemma_dec_digits_shape(n / 10);
    }
}

/// Powers of ten.
pub open spec fn pow10(k: int) -> int
    decreases k,
{
    if k <= 0 {
        1
    } else {
        10 * pow10(k - 1)
    }
}

/// Reads digits at `pos`, folding them onto `acc`; stops at the first
/// non-digit. Returns the value and the stop position.
pub open spec fn parse_digits(s: Seq<char>, pos: int, acc: int) -> (int, int)
    decreases s.len() - pos when 0 <= pos <= s.len()
{
    if pos >= s.len() || !is_digit(s[pos]) {
        (acc, pos)
    } else {
        parse_digits(s, pos + 1, acc * 10 + digit_val(s[pos]))
    }
}

/// Consuming the digits of `n` folds it onto the accumulator.
proof fn lemma_parse_digits_of(s: Seq<char>, pos: int, n: int, acc: int)
    requires
        n >= 0,
        0 <= pos,
        pos + dec_digits(n).len() <= s.len(),
        s.subrange(pos, pos + dec_digits(n).len() as int) == dec_digits(n),
    ensures
        parse_digits(s, pos, acc) == parse_digits(
            s,
            pos + dec_digits(n).len(),
            acc * pow10(dec_digits(n).len() as int) + n,
        ),
    decreases n,
{
    lemma_dec_digits_shape(n);
    if n < 10 {
        assert(s[pos] == dec_digits(n)[0]);
        assert(is_digit(s[pos]));
        assert(digit_val(s[pos]) == n);
        assert(pow10(1) == 10) by {
            assert(pow10(0) == 1);
        }
        assert(acc * pow10(1) + n == acc * 10 + n);
    } else {
        let k = dec_digits(n / 10).len() as int;
        assert(dec_digits(n) == dec_digits(n / 10).push(digit_char(n % 10)));
        assert(s.subrange(pos, pos + k) =~= s.subrange(
            pos,
            pos + dec_digits(n).len() as int,
        ).subrange(0, k));
        assert(dec_digits(n).subrange(0, k) =~= dec_digits(n / 10));
        assert(s.subrange(pos, pos + k) == dec_digits(n / 10));
        lemma_parse_digits_of(s, pos, n / 10, acc);
        let mid = acc * pow10(k) + n / 10;
        assert(s[pos + k] == dec_digits(n)[k as int]);
        assert(s[pos + k] == digit_char(n % 10));
        assert(is_digit(s[pos + k]));
        assert(digit_val(s[pos + k]) == n % 10);
        assert(parse_digits(s, pos + k, mid) == parse_digits(s, pos + k + 1, mid * 10 + n % 10));
        assert(mid * 10 + n % 10 == acc * pow10(k + 1) + n) by (nonlinear_arith)
            requires
                mid == acc * pow10(k) + n / 10,
                pow10(k + 1) == 10 * pow10(k),
                n >= 10,
        {}
        assert(pow10(k + 1) == 10 * pow10(k));
    }
}

/// Reads a number closed by `:` at `pos`; none when the form is not
/// there.
pub open spec fn parse_nat(s: Seq<char>, pos: int) -> Option<(int, int)> {
    if !(0 <= pos <= s.len()) {
        None
    } else {
        let (v, p) = parse_digits(s, pos, 0);
        if p == pos || p >= s.len() || s[p] != ':' {
            None
        } else {
            Some((v, p + 1))
        }
    }
}

proof fn lemma_parse_digits_range(s: Seq<char>, pos: int, acc: int)
    requires
        0 <= pos <= s.len(),
    ensures
        pos <= parse_digits(s, pos, acc).1 <= s.len(),
    decreases s.len() - pos,
{
    if !(pos >= s.len() || !is_digit(s[pos])) {
        lemma_parse_digits_range(s, pos + 1, acc * 10 + digit_val(s[pos]));
    }
}

/// Parsing the canonical form of `n` yields `n` and stops after the
/// closing `:`.
pub proof fn lemma_parse_nat_of_enc(s: Seq<char>, pos: int, n: int)
    requires
        n >= 0,
        0 <= pos,
        pos + enc_nat(n).len() <= s.len(),
        s.subrange(pos, pos + enc_nat(n).len() as int) == enc_nat(n),
    ensures
        parse_nat(s, pos) == Some((n, pos + enc_nat(n).len())),
{
    lemma_dec_digits_shape(n);
    let k = dec_digits(n).len() as int;
    assert(s.subrange(pos, pos + k) =~= s.subrange(pos, pos + enc_nat(n).len() as int).subrange(
        0,
        k,
    ));
    assert(enc_nat(n).subrange(0, k) =~= dec_digits(n));
    assert(s.subrange(pos, pos + k) == dec_digits(n));
    lemma_parse_digits_of(s, pos, n, 0);
    assert(s[pos + k] == enc_nat(n)[k]) by {
        assert(s.subrange(pos, pos + enc_nat(n).len() as int)[k] == enc_nat(n)[k]);
    }
    assert(s[pos + k] == ':');
    assert(!is_digit(':'));
    assert(parse_digits(s, pos + k, 0 * pow10(k) + n) == (n, pos + k));
    assert(0 * pow10(k) + n == n);
    assert(parse_digits(s, pos, 0) == (n, pos + k));
}

/// Appends the decimal digits of `n`.
pub fn push_dec(out: &mut Vec<char>, n: u64)
    ensures
        final(out)@ == old(out)@ + dec_digits(n as int),
    decreases n,
{
    if n >= 10 {
        push_dec(out, n / 10);
    }
    let d = (n % 10) as u32;
    let c: char = if d == 0 {
        '0'
    } else if d == 1 {
        '1'
    } else if d == 2 {
        '2'
    } else if d == 3 {
        '3'
    } else if d == 4 {
        '4'
    } else if d == 5 {
        '5'
    } else if d == 6 {
        '6'
    } else if d == 7 {
        '7'
    } else if d == 8 {
        '8'
    } else {
        '9'
    };
    proof {
        assert(c == digit_char(n as int % 10));
        if n < 10 {
            assert(n as int % 10 == n as int);
            assert(dec_digits(n as int) =~= seq![digit_char(n as int)]);
        }
    }
    out.push(c);
    proof {
        if n >= 10 {
            assert(final(out)@ =~= old(out)@ + dec_digits(n as int));
        } else {
            assert(final(out)@ =~= old(out)@ + dec_digits(n as int));
        }
    }
}

/// Appends the canonical form of `n`.
pub fn push_nat(out: &mut Vec<char>, n: u64)
    ensures
        final(out)@ == old(out)@ + enc_nat(n as int),
{
    push_dec(out, n);
    out.push(':');
    proof {
        assert(final(out)@ =~= old(out)@ + enc_nat(n as int));
    }
}

/// Reads a number closed by `:`; none when the form is not there or
/// the value does not fit.
pub fn read_nat(v: &Vec<char>, pos: usize) -> (r: Option<(u64, usize)>)
    requires
        pos <= v.len(),
    ensures
        match r {
            Some((n, p2)) => parse_nat(v@, pos as int) == Some((n as int, p2 as int)) && pos < p2
                <= v.len(),
            None => parse_nat(v@, pos as int) is None || (parse_nat(v@, pos as int)->0).0
                > u64::MAX,
        },
{
    let mut p = pos;
    let mut acc: u64 = 0;
    let mut overflow = false;
    while p < v.len() && (v[p] == '0' || v[p] == '1' || v[p] == '2' || v[p] == '3' || v[p] == '4'
        || v[p] == '5' || v[p] == '6' || v[p] == '7' || v[p] == '8' || v[p] == '9')
        invariant
            pos <= p <= v.len(),
            !overflow ==> parse_digits(v@, pos as int, 0) == parse_digits(
                v@,
                p as int,
                acc as int,
            ),
            overflow ==> parse_digits(v@, pos as int, 0).0 > u64::MAX,
        decreases v.len() - p,
    {
        let d: u64 = if v[p] == '0' {
            0
        } else if v[p] == '1' {
            1
        } else if v[p] == '2' {
            2
        } else if v[p] == '3' {
            3
        } else if v[p] == '4' {
            4
        } else if v[p] == '5' {
            5
        } else if v[p] == '6' {
            6
        } else if v[p] == '7' {
            7
        } else if v[p] == '8' {
            8
        } else {
            9
        };
        proof {
            assert(is_digit(v@[p as int]));
            assert(d as int == digit_val(v@[p as int]));
        }
        if !overflow {
            if acc > (u64::MAX - d) / 10 {
                overflow = true;
                proof {
                    assert(parse_digits(v@, p as int, acc as int) == parse_digits(
                        v@,
                        p + 1,
                        acc as int * 10 + d as int,
                    ));
                    lemma_parse_digits_monotone(v@, p + 1, acc as int * 10 + d as int);
                    assert(acc as int * 10 + d as int > u64::MAX) by (nonlinear_arith)
                        requires
                            acc as int > (u64::MAX as int - d as int) / 10,
                            0 <= d as int <= 9,
                    {}
                }
            } else {
                proof {
                    assert(acc as int * 10 + d as int <= u64::MAX) by (nonlinear_arith)
                        requires
                            acc as int <= (u64::MAX as int - d as int) / 10,
                            0 <= d as int <= 9,
                    {}
                }
                acc = acc * 10 + d;
            }
        }
        p += 1;
    }
    proof {
        if p < v.len() {
            assert(!is_digit(v@[p as int]));
        }
        assert(parse_digits(v@, p as int, acc as int) == (acc as int, p as int));
    }
    if overflow {
        return None;
    }
    if p == pos || p >= v.len() {
        return None;
    }
    if v[p] == ':' {
        Some((acc, p + 1))
    } else {
        None
    }
}

/// A value folded through further digits only grows.
proof fn lemma_parse_digits_monotone(s: Seq<char>, pos: int, acc: int)
    requires
        0 <= pos <= s.len(),
        acc >= 0,
    ensures
        parse_digits(s, pos, acc).0 >= acc,
    decreases s.len() - pos,
{
    if !(pos >= s.len() || !is_digit(s[pos])) {
        assert(acc * 10 + digit_val(s[pos]) >= acc) by (nonlinear_arith)
            requires
                acc >= 0,
                digit_val(s[pos]) >= 0,
        {}
        lemma_parse_digits_monotone(s, pos + 1, acc * 10 + digit_val(s[pos]));
    }
}


/// A string's canonical form: its length, then its characters.
pub open spec fn enc_str(t: Seq<char>) -> Seq<char> {
    enc_nat(t.len() as int) + t
}

/// Reads a length-prefixed string at `pos`.
pub open spec fn parse_str(s: Seq<char>, pos: int) -> Option<(Seq<char>, int)> {
    match parse_nat(s, pos) {
        None => None,
        Some((len, p)) => if p + len <= s.len() {
            Some((s.subrange(p, p + len), p + len))
        } else {
            None
        },
    }
}

pub proof fn lemma_parse_str_of_enc(s: Seq<char>, pos: int, t: Seq<char>)
    requires
        0 <= pos,
        pos + enc_str(t).len() <= s.len(),
        s.subrange(pos, pos + enc_str(t).len() as int) == enc_str(t),
    ensures
        parse_str(s, pos) == Some((t, pos + enc_str(t).len() as int)),
{
    lemma_dec_digits_shape(t.len() as int);
    let nl = enc_nat(t.len() as int).len() as int;
    assert(s.subrange(pos, pos + nl) =~= s.subrange(pos, pos + enc_str(t).len() as int).subrange(
        0,
        nl,
    ));
    assert(enc_str(t).subrange(0, nl) =~= enc_nat(t.len() as int));
    lemma_parse_nat_of_enc(s, pos, t.len() as int);
    assert(s.subrange(pos + nl, pos + nl + t.len()) =~= s.subrange(
        pos,
        pos + enc_str(t).len() as int,
    ).subrange(nl, nl + t.len()));
    assert(enc_str(t).subrange(nl, nl + t.len()) =~= t);
}

/// An optional string: `n` for none, `s` and the string for some.
pub open spec fn enc_opt(o: Option<Seq<char>>) -> Seq<char> {
    match o {
        None => seq!['n'],
        Some(t) => seq!['s'] + enc_str(t),
    }
}

pub open spec fn parse_opt(s: Seq<char>, pos: int) -> Option<(Option<Seq<char>>, int)> {
    if !(0 <= pos < s.len()) {
        None
    } else if s[pos] == 'n' {
        Some((None, pos + 1))
    } else if s[pos] == 's' {
        match parse_str(s, pos + 1) {
            None => None,
            Some((t, p)) => Some((Some(t), p)),
        }
    } else {
        None
    }
}

pub proof fn lemma_parse_opt_of_enc(s: Seq<char>, pos: int, o: Option<Seq<char>>)
    requires
        0 <= pos,
        pos + enc_opt(o).len() <= s.len(),
        s.subrange(pos, pos + enc_opt(o).len() as int) == enc_opt(o),
    ensures
        parse_opt(s, pos) == Some((o, pos + enc_opt(o).len() as int)),
{
    assert(s[pos] == enc_opt(o)[0]) by {
        assert(s.subrange(pos, pos + enc_opt(o).len() as int)[0] == enc_opt(o)[0]);
    }
    match o {
        None => {
        },
        Some(t) => {
            assert(s[pos] == 's');
            assert(s.subrange(pos + 1, pos + 1 + enc_str(t).len() as int) =~= s.subrange(
                pos,
                pos + enc_opt(o).len() as int,
            ).subrange(1, 1 + enc_str(t).len() as int));
            assert(enc_opt(o).subrange(1, 1 + enc_str(t).len() as int) =~= enc_str(t));
            lemma_parse_str_of_enc(s, pos + 1, t);
        },
    }
}

/// A line range: `s` and the line, or `i` and the two bounds.
pub open spec fn enc_range(r: LineRange) -> Seq<char> {
    match r {
        LineRange::Single(n) => seq!['s'] + enc_nat(n as int),
        LineRange::Inclusive(a, b) => seq!['i'] + enc_nat(a as int) + enc_nat(b as int),
    }
}

pub open spec fn parse_range(s: Seq<char>, pos: int) -> Option<(LineRange, int)> {
    if !(0 <= pos < s.len()) {
        None
    } else if s[pos] == 's' {
        match parse_nat(s, pos + 1) {
            None => None,
            Some((n, p)) => if 0 <= n <= u32::MAX {
                Some((LineRange::Single(n as u32), p))
            } else {
                None
            },
        }
    } else if s[pos] == 'i' {
        match parse_nat(s, pos + 1) {
            None => None,
            Some((a, p)) => match parse_nat(s, p) {
                None => None,
                Some((b, p2)) => if 0 <= a <= u32::MAX && 0 <= b <= u32::MAX {
                    Some((LineRange::Inclusive(a as u32, b as u32), p2))
                } else {
                    None
                },
            },
        }
    } else {
        None
    }
}

pub proof fn lemma_parse_range_of_enc(s: Seq<char>, pos: int, r: LineRange)
    requires
        0 <= pos,
        pos + enc_range(r).len() <= s.len(),
        s.subrange(pos, pos + enc_range(r).len() as int) == enc_range(r),
    ensures
        parse_range(s, pos) == Some((r, pos + enc_range(r).len() as int)),
{
    assert(s[pos] == enc_range(r)[0]) by {
        assert(s.subrange(pos, pos + enc_range(r).len() as int)[0] == enc_range(r)[0]);
    }
    match r {
        LineRange::Single(n) => {
            let e = enc_nat(n as int);
            assert(s.subrange(pos + 1, pos + 1 + e.len() as int) =~= s.subrange(
                pos,
                pos + enc_range(r).len() as int,
            ).subrange(1, 1 + e.len() as int));
            assert(enc_range(r).subrange(1, 1 + e.len() as int) =~= e);
            lemma_parse_nat_of_enc(s, pos + 1, n as int);
        },
        LineRange::Inclusive(a, b) => {
            let ea = enc_nat(a as int);
            let eb = enc_nat(b as int);
            assert(s.subrange(pos + 1, pos + 1 + ea.len() as int) =~= s.subrange(
                pos,
                pos + enc_range(r).len() as int,
            ).subrange(1, 1 + ea.len() as int));
            assert(enc_range(r).subrange(1, 1 + ea.len() as int) =~= ea);
            lemma_parse_nat_of_enc(s, pos + 1, a as int);
            assert(s.subrange(pos + 1 + ea.len(), pos + 1 + ea.len() + eb.len() as int)
                =~= s.subrange(pos, pos + enc_range(r).len() as int).subrange(
                1 + ea.len() as int,
                1 + ea.len() + eb.len() as int,
            ));
            assert(enc_range(r).subrange(1 + ea.len() as int, 1 + ea.len() + eb.len() as int)
                =~= eb);
            lemma_parse_nat_of_enc(s, pos + 1 + ea.len() as int, b as int);
        },
    }
}

/// The items of a range list, in order.
pub open spec fn enc_range_items(rs: Seq<LineRange>) -> Seq<char>
    decreases rs.len(),
{
    if rs.len() == 0 {
        Seq::empty()
    } else {
        enc_range(rs[0]) + enc_range_items(rs.drop_first())
    }
}

/// A range list: its length, then its items.
pub open spec fn enc_ranges(rs: Seq<LineRange>) -> Seq<char> {
    enc_nat(rs.len() as int) + enc_range_items(rs)
}

pub open spec fn parse_range_items(s: Seq<char>, pos: int, k: int) -> Option<
    (Seq<LineRange>, int),
>
    decreases k,
{
    if k <= 0 {
        Some((Seq::empty(), pos))
    } else {
        match parse_range(s, pos) {
            None => None,
            Some((r, p)) => match parse_range_items(s, p, k - 1) {
                None => None,
                Some((rest, p2)) => Some((seq![r] + rest, p2)),
            },
        }
    }
}

pub open spec fn parse_ranges(s: Seq<char>, pos: int) -> Option<(Seq<LineRange>, int)> {
    match parse_nat(s, pos) {
        None => None,
        Some((k, p)) => parse_range_items(s, p, k),
    }
}

pub proof fn lemma_parse_range_items_of_enc(s: Seq<char>, pos: int, rs: Seq<LineRange>)
    requires
        0 <= pos,
        pos + enc_range_items(rs).len() <= s.len(),
        s.subrange(pos, pos + enc_range_items(rs).len() as int) == enc_range_items(rs),
    ensures
        parse_range_items(s, pos, rs.len() as int) == Some(
            (rs, pos + enc_range_items(rs).len() as int),
        ),
    decreases rs.len(),
{
    if rs.len() == 0 {
        assert(parse_range_items(s, pos, 0) == Some((Seq::<LineRange>::empty(), pos)));
        assert(rs =~= Seq::<LineRange>::empty());
    } else {
        let e0 = enc_range(rs[0]);
        let erest = enc_range_items(rs.drop_first());
        assert(s.subrange(pos, pos + e0.len() as int) =~= s.subrange(
            pos,
            pos + enc_range_items(rs).len() as int,
        ).subrange(0, e0.len() as int));
        assert(enc_range_items(rs).subrange(0, e0.len() as int) =~= e0);
        lemma_parse_range_of_enc(s, pos, rs[0]);
        assert(s.subrange(pos + e0.len(), pos + e0.len() + erest.len() as int) =~= s.subrange(
            pos,
            pos + enc_range_items(rs).len() as int,
        ).subrange(e0.len() as int, e0.len() + erest.len() as int));
        assert(enc_range_items(rs).subrange(e0.len() as int, e0.len() + erest.len() as int)
            =~= erest);
        lemma_parse_range_items_of_enc(s, pos + e0.len() as int, rs.drop_first());
        assert(seq![rs[0]] + rs.drop_first() =~= rs);
    }
}

pub proof fn lemma_parse_ranges_of_enc(s: Seq<char>, pos: int, rs: Seq<LineRange>)
    requires
        0 <= pos,
        pos + enc_ranges(rs).len() <= s.len(),
        s.subrange(pos, pos + enc_ranges(rs).len() as int) == enc_ranges(rs),
    ensures
        parse_ranges(s, pos) == Some((rs, pos + enc_ranges(rs).len() as int)),
{
    lemma_dec_digits_shape(rs.len() as int);
    let nl = enc_nat(rs.len() as int).len() as int;
    assert(s.subrange(pos, pos + nl) =~= s.subrange(pos, pos + enc_ranges(rs).len() as int)
        .subrange(0, nl));
    assert(enc_ranges(rs).subrange(0, nl) =~= enc_nat(rs.len() as int));
    lemma_parse_nat_of_enc(s, pos, rs.len() as int);
    assert(s.subrange(pos + nl, pos + nl + enc_range_items(rs).len() as int) =~= s.subrange(
        pos,
        pos + enc_ranges(rs).len() as int,
    ).subrange(nl, nl + enc_range_items(rs).len() as int));
    assert(enc_ranges(rs).subrange(nl, nl + enc_range_items(rs).len() as int) =~= enc_range_items(
        rs,
    ));
    lemma_parse_range_items_of_enc(s, pos + nl, rs);
}

/// The model of an attestation entry: author, prompt hash, ranges.
pub open spec fn entry_model(e: AttestationEntry) -> (Seq<char>, Option<Seq<char>>, Seq<
    LineRange,
>) {
    (e.author_id@, opt_chars_view(e.hash), e.line_ranges@)
}

/// One attestation entry: author, prompt hash, ranges.
pub open spec fn enc_entry(m: (Seq<char>, Option<Seq<char>>, Seq<LineRange>)) -> Seq<char> {
    enc_str(m.0) + enc_opt(m.1) + enc_ranges(m.2)
}

pub open spec fn parse_entry(s: Seq<char>, pos: int) -> Option<
    ((Seq<char>, Option<Seq<char>>, Seq<LineRange>), int),
> {
    match parse_str(s, pos) {
        None => None,
        Some((author, p)) => match parse_opt(s, p) {
            None => None,
            Some((hash, p2)) => match parse_ranges(s, p2) {
                None => None,
                Some((rs, p3)) => Some(((author, hash, rs), p3)),
            },
        },
    }
}

pub proof fn lemma_parse_entry_of_enc(
    s: Seq<char>,
    pos: int,
    m: (Seq<char>, Option<Seq<char>>, Seq<LineRange>),
)
    requires
        0 <= pos,
        pos + enc_entry(m).len() <= s.len(),
        s.subrange(pos, pos + enc_entry(m).len() as int) == enc_entry(m),
    ensures
        parse_entry(s, pos) == Some((m, pos + enc_entry(m).len() as int)),
{
    let e1 = enc_str(m.0);
    let e2 = enc_opt(m.1);
    let e3 = enc_ranges(m.2);
    assert(s.subrange(pos, pos + e1.len() as int) =~= s.subrange(
        pos,
        pos + enc_entry(m).len() as int,
    ).subrange(0, e1.len() as int));
    assert(enc_entry(m).subrange(0, e1.len() as int) =~= e1);
    lemma_parse_str_of_enc(s, pos, m.0);
    assert(s.subrange(pos + e1.len(), pos + e1.len() + e2.len() as int) =~= s.subrange(
        pos,
        pos + enc_entry(m).len() as int,
    ).subrange(e1.len() as int, e1.len() + e2.len() as int));
    assert(enc_entry(m).subrange(e1.len() as int, e1.len() + e2.len() as int) =~= e2);
    lemma_parse_opt_of_enc(s, pos + e1.len() as int, m.1);
    assert(s.subrange(
        pos + e1.len() + e2.len(),
        pos + e1.len() + e2.len() + e3.len() as int,
    ) =~= s.subrange(pos, pos + enc_entry(m).len() as int).subrange(
        e1.len() + e2.len() as int,
        e1.len() + e2.len() + e3.len() as int,
    ));
    assert(enc_entry(m).subrange(
        e1.len() + e2.len() as int,
        e1.len() + e2.len() + e3.len() as int,
    ) =~= e3);
    lemma_parse_ranges_of_enc(s, pos + e1.len() + e2.len() as int, m.2);
}

/// The model of a file attestation: path and entries.
pub open spec fn att_model(a: FileAttestation) -> (Seq<char>, Seq<
    (Seq<char>, Option<Seq<char>>, Seq<LineRange>),
>) {
    (a.file_path@, a.entries@.map_values(|e: AttestationEntry| entry_model(e)))
}

pub open spec fn enc_entry_items(
    ms: Seq<(Seq<char>, Option<Seq<char>>, Seq<LineRange>)>,
) -> Seq<char>
    decreases ms.len(),
{
    if ms.len() == 0 {
        Seq::empty()
    } else {
        enc_entry(ms[0]) + enc_entry_items(ms.drop_first())
    }
}

/// One file attestation: path, entry count, entries.
pub open spec fn enc_att(
    m: (Seq<char>, Seq<(Seq<char>, Option<Seq<char>>, Seq<LineRange>)>),
) -> Seq<char> {
    enc_str(m.0) + enc_nat(m.1.len() as int) + enc_entry_items(m.1)
}

pub open spec fn parse_entry_items(s: Seq<char>, pos: int, k: int) -> Option<
    (Seq<(Seq<char>, Option<Seq<char>>, Seq<LineRange>)>, int),
>
    decreases k,
{
    if k <= 0 {
        Some((Seq::empty(), pos))
    } else {
        match parse_entry(s, pos) {
            None => None,
            Some((m, p)) => match parse_entry_items(s, p, k - 1) {
                None => None,
                Some((rest, p2)) => Some((seq![m] + rest, p2)),
            },
        }
    }
}

pub open spec fn parse_att(s: Seq<char>, pos: int) -> Option<
    ((Seq<char>, Seq<(Seq<char>, Option<Seq<char>>, Seq<LineRange>)>), int),
> {
    match parse_str(s, pos) {
        None => None,
        Some((path, p)) => match parse_nat(s, p) {
            None => None,
            Some((k, p2)) => match parse_entry_items(s, p2, k) {
                None => None,
                Some((ms, p3)) => Some(((path, ms), p3)),
            },
        },
    }
}

pub proof fn lemma_parse_entry_items_of_enc(
    s: Seq<char>,
    pos: int,
    ms: Seq<(Seq<char>, Option<Seq<char>>, Seq<LineRange>)>,
)
    requires
        0 <= pos,
        pos + enc_entry_items(ms).len() <= s.len(),
        s.subrange(pos, pos + enc_entry_items(ms).len() as int) == enc_entry_items(ms),
    ensures
        parse_entry_items(s, pos, ms.len() as int) == Some(
            (ms, pos + enc_entry_items(ms).len() as int),
        ),
    decreases ms.len(),
{
    if ms.len() == 0 {
        assert(ms =~= Seq::<(Seq<char>, Option<Seq<char>>, Seq<LineRange>)>::empty());
    } else {
        let e0 = enc_entry(ms[0]);
        let erest = enc_entry_items(ms.drop_first());
        assert(s.subrange(pos, pos + e0.len() as int) =~= s.subrange(
            pos,
            pos + enc_entry_items(ms).len() as int,
        ).subrange(0, e0.len() as int));
        assert(enc_entry_items(ms).subrange(0, e0.len() as int) =~= e0);
        lemma_parse_entry_of_enc(s, pos, ms[0]);
        assert(s.subrange(pos + e0.len(), pos + e0.len() + erest.len() as int) =~= s.subrange(
            pos,
            pos + enc_entry_items(ms).len() as int,
        ).subrange(e0.len() as int, e0.len() + erest.len() as int));
        assert(enc_entry_items(ms).subrange(e0.len() as int, e0.len() + erest.len() as int)
            =~= erest);
        lemma_parse_entry_items_of_enc(s, pos + e0.len() as int, ms.drop_first());
        assert(seq![ms[0]] + ms.drop_first() =~= ms);
    }
}

/// Round trip of one file attestation: parsing its canonical form
/// yields the same path and entries.
pub proof fn lemma_parse_att_of_enc(
    s: Seq<char>,
    pos: int,
    m: (Seq<char>, Seq<(Seq<char>, Option<Seq<char>>, Seq<LineRange>)>),
)
    requires
        0 <= pos,
        pos + enc_att(m).len() <= s.len(),
        s.subrange(pos, pos + enc_att(m).len() as int) == enc_att(m),
    ensures
        parse_att(s, pos) == Some((m, pos + enc_att(m).len() as int)),
{
    let e1 = enc_str(m.0);
    let e2 = enc_nat(m.1.len() as int);
    let e3 = enc_entry_items(m.1);
    lemma_dec_digits_shape(m.1.len() as int);
    assert(s.subrange(pos, pos + e1.len() as int) =~= s.subrange(
        pos,
        pos + enc_att(m).len() as int,
    ).subrange(0, e1.len() as int));
    assert(enc_att(m).subrange(0, e1.len() as int) =~= e1);
    lemma_parse_str_of_enc(s, pos, m.0);
    assert(s.subrange(pos + e1.len(), pos + e1.len() + e2.len() as int) =~= s.subrange(
        pos,
        pos + enc_att(m).len() as int,
    ).subrange(e1.len() as int, e1.len() + e2.len() as int));
    assert(enc_att(m).subrange(e1.len() as int, e1.len() + e2.len() as int) =~= e2);
    lemma_parse_nat_of_enc(s, pos + e1.len() as int, m.1.len() as int);
    assert(s.subrange(
        pos + e1.len() + e2.len(),
        pos + e1.len() + e2.len() + e3.len() as int,
    ) =~= s.subrange(pos, pos + enc_att(m).len() as int).subrange(
        e1.len() + e2.len() as int,
        e1.len() + e2.len() + e3.len() as int,
    ));
    assert(enc_att(m).subrange(e1.len() + e2.len() as int, e1.len() + e2.len() + e3.len() as int)
        =~= e3);
    lemma_parse_entry_items_of_enc(s, pos + e1.len() + e2.len() as int, m.1);
}

/// The model of a prompt record: hash, tool, model, transcript.
pub open spec fn prompt_model(r: PromptRecord) -> (Seq<char>, Seq<char>, Seq<char>, Seq<char>) {
    (r.hash@, r.tool@, r.model@, r.transcript_fragment@)
}

/// One prompt record: its four strings.
pub open spec fn enc_prompt(m: (Seq<char>, Seq<char>, Seq<char>, Seq<char>)) -> Seq<char> {
    enc_str(m.0) + enc_str(m.1) + enc_str(m.2) + enc_str(m.3)
}

pub open spec fn parse_prompt(s: Seq<char>, pos: int) -> Option<
    ((Seq<char>, Seq<char>, Seq<char>, Seq<char>), int),
> {
    match parse_str(s, pos) {
        None => None,
        Some((h, p)) => match parse_str(s, p) {
            None => None,
            Some((t, p2)) => match parse_str(s, p2) {
                None => None,
                Some((mo, p3)) => match parse_str(s, p3) {
                    None => None,
                    Some((tr, p4)) => Some(((h, t, mo, tr), p4)),
                },
            },
        },
    }
}

pub proof fn lemma_parse_prompt_of_enc(
    s: Seq<char>,
    pos: int,
    m: (Seq<char>, Seq<char>, Seq<char>, Seq<char>),
)
    requires
        0 <= pos,
        pos + enc_prompt(m).len() <= s.len(),
        s.subrange(pos, pos + enc_prompt(m).len() as int) == enc_prompt(m),
    ensures
        parse_prompt(s, pos) == Some((m, pos + enc_prompt(m).len() as int)),
{
    let e1 = enc_str(m.0);
    let e2 = enc_str(m.1);
    let e3 = enc_str(m.2);
    let e4 = enc_str(m.3);
    assert(s.subrange(pos, pos + e1.len() as int) =~= s.subrange(
        pos,
        pos + enc_prompt(m).len() as int,
    ).subrange(0, e1.len() as int));
    assert(enc_prompt(m).subrange(0, e1.len() as int) =~= e1);
    lemma_parse_str_of_enc(s, pos, m.0);
    assert(s.subrange(pos + e1.len(), pos + e1.len() + e2.len() as int) =~= s.subrange(
        pos,
        pos + enc_prompt(m).len() as int,
    ).subrange(e1.len() as int, e1.len() + e2.len() as int));
    assert(enc_prompt(m).subrange(e1.len() as int, e1.len() + e2.len() as int) =~= e2);
    lemma_parse_str_of_enc(s, pos + e1.len() as int, m.1);
    assert(s.subrange(
        pos + e1.len() + e2.len(),
        pos + e1.len() + e2.len() + e3.len() as int,
    ) =~= s.subrange(pos, pos + enc_prompt(m).len() as int).subrange(
        e1.len() + e2.len() as int,
        e1.len() + e2.len() + e3.len() as int,
    ));
    assert(enc_prompt(m).subrange(
        e1.len() + e2.len() as int,
        e1.len() + e2.len() + e3.len() as int,
    ) =~= e3);
    lemma_parse_str_of_enc(s, pos + e1.len() + e2.len() as int, m.2);
    assert(s.subrange(
        pos + e1.len() + e2.len() + e3.len(),
        pos + e1.len() + e2.len() + e3.len() + e4.len() as int,
    ) =~= s.subrange(pos, pos + enc_prompt(m).len() as int).subrange(
        e1.len() + e2.len() + e3.len() as int,
        e1.len() + e2.len() + e3.len() + e4.len() as int,
    ));
    assert(enc_prompt(m).subrange(
        e1.len() + e2.len() + e3.len() as int,
        e1.len() + e2.len() + e3.len() + e4.len() as int,
    ) =~= e4);
    lemma_parse_str_of_enc(s, pos + e1.len() + e2.len() + e3.len() as int, m.3);
}

/// The model of a per-commit record: file attestations and prompts.
pub open spec fn log_model(l: AuthorshipLog) -> (
    Seq<(Seq<char>, Seq<(Seq<char>, Option<Seq<char>>, Seq<LineRange>)>)>,
    Seq<(Seq<char>, Seq<char>, Seq<char>, Seq<char>)>,
) {
    (
        l.attestations@.map_values(|a: FileAttestation| att_model(a)),
        l.prompts@.map_values(|r: PromptRecord| prompt_model(r)),
    )
}

pub open spec fn enc_att_items(
    ms: Seq<(Seq<char>, Seq<(Seq<char>, Option<Seq<char>>, Seq<LineRange>)>)>,
) -> Seq<char>
    decreases ms.len(),
{
    if ms.len() == 0 {
        Seq::empty()
    } else {
        enc_att(ms[0]) + enc_att_items(ms.drop_first())
    }
}

pub open spec fn enc_prompt_items(
    ms: Seq<(Seq<char>, Seq<char>, Seq<char>, Seq<char>)>,
) -> Seq<char>
    decreases ms.len(),
{
    if ms.len() == 0 {
        Seq::empty()
    } else {
        enc_prompt(ms[0]) + enc_prompt_items(ms.drop_first())
    }
}

/// A per-commit record: attestation count and attestations, prompt
/// count and prompts.
pub open spec fn enc_log(
    m: (
        Seq<(Seq<char>, Seq<(Seq<char>, Option<Seq<char>>, Seq<LineRange>)>)>,
        Seq<(Seq<char>, Seq<char>, Seq<char>, Seq<char>)>,
    ),
) -> Seq<char> {
    enc_nat(m.0.len() as int) + enc_att_items(m.0) + enc_nat(m.1.len() as int) + enc_prompt_items(
        m.1,
    )
}

pub open spec fn parse_att_items(s: Seq<char>, pos: int, k: int) -> Option<
    (Seq<(Seq<char>, Seq<(Seq<char>, Option<Seq<char>>, Seq<LineRange>)>)>, int),
>
    decreases k,
{
    if k <= 0 {
        Some((Seq::empty(), pos))
    } else {
        match parse_att(s, pos) {
            None => None,
            Some((m, p)) => match parse_att_items(s, p, k - 1) {
                None => None,
                Some((rest, p2)) => Some((seq![m] + rest, p2)),
            },
        }
    }
}

pub open spec fn parse_prompt_items(s: Seq<char>, pos: int, k: int) -> Option<
    (Seq<(Seq<char>, Seq<char>, Seq<char>, Seq<char>)>, int),
>
    decreases k,
{
    if k <= 0 {
        Some((Seq::empty(), pos))
    } else {
        match parse_prompt(s, pos) {
            None => None,
            Some((m, p)) => match parse_prompt_items(s, p, k - 1) {
                None => None,
                Some((rest, p2)) => Some((seq![m] + rest, p2)),
            },
        }
    }
}

pub open spec fn parse_log(s: Seq<char>, pos: int) -> Option<
    (
        (
            Seq<(Seq<char>, Seq<(Seq<char>, Option<Seq<char>>, Seq<LineRange>)>)>,
            Seq<(Seq<char>, Seq<char>, Seq<char>, Seq<char>)>,
        ),
        int,
    ),
> {
    match parse_nat(s, pos) {
        None => None,
        Some((ka, p)) => match parse_att_items(s, p, ka) {
            None => None,
            Some((atts, p2)) => match parse_nat(s, p2) {
                None => None,
                Some((kp, p3)) => match parse_prompt_items(s, p3, kp) {
                    None => None,
                    Some((prompts, p4)) => Some(((atts, prompts), p4)),
                },
            },
        },
    }
}

pub proof fn lemma_parse_att_items_of_enc(
    s: Seq<char>,
    pos: int,
    ms: Seq<(Seq<char>, Seq<(Seq<char>, Option<Seq<char>>, Seq<LineRange>)>)>,
)
    requires
        0 <= pos,
        pos + enc_att_items(ms).len() <= s.len(),
        s.subrange(pos, pos + enc_att_items(ms).len() as int) == enc_att_items(ms),
    ensures
        parse_att_items(s, pos, ms.len() as int) == Some(
            (ms, pos + enc_att_items(ms).len() as int),
        ),
    decreases ms.len(),
{
    if ms.len() == 0 {
        assert(ms =~= Seq::<
            (Seq<char>, Seq<(Seq<char>, Option<Seq<char>>, Seq<LineRange>)>),
        >::empty());
    } else {
        let e0 = enc_att(ms[0]);
        let erest = enc_att_items(ms.drop_first());
        assert(s.subrange(pos, pos + e0.len() as int) =~= s.subrange(
            pos,
            pos + enc_att_items(ms).len() as int,
        ).subrange(0, e0.len() as int));
        assert(enc_att_items(ms).subrange(0, e0.len() as int) =~= e0);
        lemma_parse_att_of_enc(s, pos, ms[0]);
        assert(s.subrange(pos + e0.len(), pos + e0.len() + erest.len() as int) =~= s.subrange(
            pos,
            pos + enc_att_items(ms).len() as int,
        ).subrange(e0.len() as int, e0.len() + erest.len() as int));
        assert(enc_att_items(ms).subrange(e0.len() as int, e0.len() + erest.len() as int)
            =~= erest);
        lemma_parse_att_items_of_enc(s, pos + e0.len() as int, ms.drop_first());
        assert(seq![ms[0]] + ms.drop_first() =~= ms);
    }
}

pub proof fn lemma_parse_prompt_items_of_enc(
    s: Seq<char>,
    pos: int,
    ms: Seq<(Seq<char>, Seq<char>, Seq<char>, Seq<char>)>,
)
    requires
        0 <= pos,
        pos + enc_prompt_items(ms).len() <= s.len(),
        s.subrange(pos, pos + enc_prompt_items(ms).len() as int) == enc_prompt_items(ms),
    ensures
        parse_prompt_items(s, pos, ms.len() as int) == Some(
            (ms, pos + enc_prompt_items(ms).len() as int),
        ),
    decreases ms.len(),
{
    if ms.len() == 0 {
        assert(ms =~= Seq::<(Seq<char>, Seq<char>, Seq<char>, Seq<char>)>::empty());
    } else {
        let e0 = enc_prompt(ms[0]);
        let erest = enc_prompt_items(ms.drop_first());
        assert(s.subrange(pos, pos + e0.len() as int) =~= s.subrange(
            pos,
            pos + enc_prompt_items(ms).len() as int,
        ).subrange(0, e0.len() as int));
        assert(enc_prompt_items(ms).subrange(0, e0.len() as int) =~= e0);
        lemma_parse_prompt_of_enc(s, pos, ms[0]);
        assert(s.subrange(pos + e0.len(), pos + e0.len() + erest.len() as int) =~= s.subrange(
            pos,
            pos + enc_prompt_items(ms).len() as int,
        ).subrange(e0.len() as int, e0.len() + erest.len() as int));
        assert(enc_prompt_items(ms).subrange(e0.len() as int, e0.len() + erest.len() as int)
            =~= erest);
        lemma_parse_prompt_items_of_enc(s, pos + e0.len() as int, ms.drop_first());
        assert(seq![ms[0]] + ms.drop_first() =~= ms);
    }
}

/// Round trip: parsing the canonical form of a per-commit record
/// yields an equal structure. Serializing then deserializing any
/// attestation record loses nothing.
pub proof fn lemma_parse_log_of_enc(
    s: Seq<char>,
    pos: int,
    m: (
        Seq<(Seq<char>, Seq<(Seq<char>, Option<Seq<char>>, Seq<LineRange>)>)>,
        Seq<(Seq<char>, Seq<char>, Seq<char>, Seq<char>)>,
    ),
)
    requires
        0 <= pos,
        pos + enc_log(m).len() <= s.len(),
        s.subrange(pos, pos + enc_log(m).len() as int) == enc_log(m),
    ensures
        parse_log(s, pos) == Some((m, pos + enc_log(m).len() as int)),
{
    let e1 = enc_nat(m.0.len() as int);
    let e2 = enc_att_items(m.0);
    let e3 = enc_nat(m.1.len() as int);
    let e4 = enc_prompt_items(m.1);
    lemma_dec_digits_shape(m.0.len() as int);
    lemma_dec_digits_shape(m.1.len() as int);
    assert(s.subrange(pos, pos + e1.len() as int) =~= s.subrange(
        pos,
        pos + enc_log(m).len() as int,
    ).subrange(0, e1.len() as int));
    assert(enc_log(m).subrange(0, e1.len() as int) =~= e1);
    lemma_parse_nat_of_enc(s, pos, m.0.len() as int);
    assert(s.subrange(pos + e1.len(), pos + e1.len() + e2.len() as int) =~= s.subrange(
        pos,
        pos + enc_log(m).len() as int,
    ).subrange(e1.len() as int, e1.len() + e2.len() as int));
    assert(enc_log(m).subrange(e1.len() as int, e1.len() + e2.len() as int) =~= e2);
    lemma_parse_att_items_of_enc(s, pos + e1.len() as int, m.0);
    assert(s.subrange(
        pos + e1.len() + e2.len(),
        pos + e1.len() + e2.len() + e3.len() as int,
    ) =~= s.subrange(pos, pos + enc_log(m).len() as int).subrange(
        e1.len() + e2.len() as int,
        e1.len() + e2.len() + e3.len() as int,
    ));
    assert(enc_log(m).subrange(e1.len() + e2.len() as int, e1.len() + e2.len() + e3.len() as int)
        =~= e3);
    lemma_parse_nat_of_enc(s, pos + e1.len() + e2.len() as int, m.1.len() as int);
    assert(s.subrange(
        pos + e1.len() + e2.len() + e3.len(),
        pos + e1.len() + e2.len() + e3.len() + e4.len() as int,
    ) =~= s.subrange(pos, pos + enc_log(m).len() as int).subrange(
        e1.len() + e2.len() + e3.len() as int,
        e1.len() + e2.len() + e3.len() + e4.len() as int,
    ));
    assert(enc_log(m).subrange(
        e1.len() + e2.len() + e3.len() as int,
        e1.len() + e2.len() + e3.len() + e4.len() as int,
    ) =~= e4);
    lemma_parse_prompt_items_of_enc(s, pos + e1.len() + e2.len() + e3.len() as int, m.1);
}

/// Appends the characters of `v`.
fn push_chars(out: &mut Vec<char>, v: &Vec<char>)
    ensures
        final(out)@ == old(out)@ + v@,
{
    let mut i: usize = 0;
    while i < v.len()
        invariant
            0 <= i <= v@.len(),
            out@ == old(out)@ + v@.subrange(0, i as int),
        decreases v@.len() - i,
    {
        out.push(v[i]);
        i += 1;
        proof {
            assert(out@ =~= old(out)@ + v@.subrange(0, i as int));
        }
    }
    proof {
        assert(v@.subrange(0, v@.len() as int) =~= v@);
    }
}

/// Appends the canonical form of a string.
fn push_str_enc(out: &mut Vec<char>, v: &Vec<char>)
    ensures
        final(out)@ == old(out)@ + enc_str(v@),
{
    push_nat(out, v.len() as u64);
    push_chars(out, v);
    proof {
        assert(final(out)@ =~= old(out)@ + enc_str(v@));
    }
}

/// Appends the canonical form of an optional string.
fn push_opt_enc(out: &mut Vec<char>, v: &Option<Vec<char>>)
    ensures
        final(out)@ == old(out)@ + enc_opt(opt_chars_view(*v)),
{
    match v {
        None => {
            out.push('n');
            proof {
                assert(final(out)@ =~= old(out)@ + enc_opt(None));
            }
        },
        Some(t) => {
            out.push('s');
            push_str_enc(out, t);
            proof {
                assert(final(out)@ =~= old(out)@ + enc_opt(Some(t@)));
            }
        },
    }
}

/// Appends the canonical form of a line range.
fn push_range_enc(out: &mut Vec<char>, r: LineRange)
    ensures
        final(out)@ == old(out)@ + enc_range(r),
{
    match r {
        LineRange::Single(n) => {
            out.push('s');
            push_nat(out, n as u64);
            proof {
                assert(final(out)@ =~= old(out)@ + enc_range(r));
            }
        },
        LineRange::Inclusive(a, b) => {
            out.push('i');
            push_nat(out, a as u64);
            push_nat(out, b as u64);
            proof {
                assert(final(out)@ =~= old(out)@ + enc_range(r));
            }
        },
    }
}

proof fn lemma_enc_range_items_push(ms: Seq<LineRange>, x: LineRange)
    ensures
        enc_range_items(ms.push(x)) == enc_range_items(ms) + enc_range(x),
    decreases ms.len(),
{
    reveal_with_fuel(enc_range_items, 3);
    if ms.len() == 0 {
        assert(ms.push(x)[0] == x);
        assert(ms.push(x).drop_first() =~= Seq::<LineRange>::empty());
        assert(enc_range_items(ms.push(x)) =~= enc_range_items(ms) + enc_range(x));
    } else {
        assert(ms.push(x)[0] == ms[0]);
        assert(ms.push(x).drop_first() =~= ms.drop_first().push(x));
        lemma_enc_range_items_push(ms.drop_first(), x);
        assert(enc_range_items(ms.push(x)) == enc_range(ms[0]) + enc_range_items(ms.drop_first().push(x)));
        assert(enc_range_items(ms.push(x)) == enc_range(ms[0]) + (enc_range_items(ms.drop_first()) + enc_range(x)));
        assert(enc_range(ms[0]) + (enc_range_items(ms.drop_first()) + enc_range(x)) =~= (enc_range(ms[0]) + enc_range_items(
            ms.drop_first(),
        )) + enc_range(x));
        assert(enc_range_items(ms.push(x)) =~= enc_range_items(ms) + enc_range(x));
    }
}

proof fn lemma_enc_entry_items_push(
    ms: Seq<(Seq<char>, Option<Seq<char>>, Seq<LineRange>)>,
    x: (Seq<char>, Option<Seq<char>>, Seq<LineRange>),
)
    ensures
        enc_entry_items(ms.push(x)) == enc_entry_items(ms) + enc_entry(x),
    decreases ms.len(),
{
    reveal_with_fuel(enc_entry_items, 3);
    if ms.len() == 0 {
        assert(ms.push(x)[0] == x);
        assert(ms.push(x).drop_first() =~= Seq::<
            (Seq<char>, Option<Seq<char>>, Seq<LineRange>),
        >::empty());
        assert(enc_entry_items(ms.push(x)) =~= enc_entry_items(ms) + enc_entry(x));
    } else {
        assert(ms.push(x)[0] == ms[0]);
        assert(ms.push(x).drop_first() =~= ms.drop_first().push(x));
        lemma_enc_entry_items_push(ms.drop_first(), x);
        assert(enc_entry_items(ms.push(x)) == enc_entry(ms[0]) + enc_entry_items(ms.drop_first().push(x)));
        assert(enc_entry_items(ms.push(x)) == enc_entry(ms[0]) + (enc_entry_items(ms.drop_first()) + enc_entry(x)));
        assert(enc_entry(ms[0]) + (enc_entry_items(ms.drop_first()) + enc_entry(x)) =~= (enc_entry(ms[0]) + enc_entry_items(
            ms.drop_first(),
        )) + enc_entry(x));
        assert(enc_entry_items(ms.push(x)) =~= enc_entry_items(ms) + enc_entry(x));
    }
}

proof fn lemma_enc_att_items_push(
    ms: Seq<(Seq<char>, Seq<(Seq<char>, Option<Seq<char>>, Seq<LineRange>)>)>,
    x: (Seq<char>, Seq<(Seq<char>, Option<Seq<char>>, Seq<LineRange>)>),
)
    ensures
        enc_att_items(ms.push(x)) == enc_att_items(ms) + enc_att(x),
    decreases ms.len(),
{
    reveal_with_fuel(enc_att_items, 3);
    if ms.len() == 0 {
        assert(ms.push(x)[0] == x);
        assert(ms.push(x).drop_first() =~= Seq::<
            (Seq<char>, Seq<(Seq<char>, Option<Seq<char>>, Seq<LineRange>)>),
        >::empty());
        assert(enc_att_items(ms.push(x)) =~= enc_att_items(ms) + enc_att(x));
    } else {
        assert(ms.push(x)[0] == ms[0]);
        assert(ms.push(x).drop_first() =~= ms.drop_first().push(x));
        lemma_enc_att_items_push(ms.drop_first(), x);
        assert(enc_att_items(ms.push(x)) == enc_att(ms[0]) + enc_att_items(ms.drop_first().push(x)));
        assert(enc_att_items(ms.push(x)) == enc_att(ms[0]) + (enc_att_items(ms.drop_first()) + enc_att(x)));
        assert(enc_att(ms[0]) + (enc_att_items(ms.drop_first()) + enc_att(x)) =~= (enc_att(ms[0]) + enc_att_items(
            ms.drop_first(),
        )) + enc_att(x));
        assert(enc_att_items(ms.push(x)) =~= enc_att_items(ms) + enc_att(x));
    }
}

proof fn lemma_enc_prompt_items_push(
    ms: Seq<(Seq<char>, Seq<char>, Seq<char>, Seq<char>)>,
    x: (Seq<char>, Seq<char>, Seq<char>, Seq<char>),
)
    ensures
        enc_prompt_items(ms.push(x)) == enc_prompt_items(ms) + enc_prompt(x),
    decreases ms.len(),
{
    reveal_with_fuel(enc_prompt_items, 3);
    if ms.len() == 0 {
        assert(ms.push(x)[0] == x);
        assert(ms.push(x).drop_first() =~= Seq::<
            (Seq<char>, Seq<char>, Seq<char>, Seq<char>),
        >::empty());
        assert(enc_prompt_items(ms.push(x)) =~= enc_prompt_items(ms) + enc_prompt(x));
    } else {
        assert(ms.push(x)[0] == ms[0]);
        assert(ms.push(x).drop_first() =~= ms.drop_first().push(x));
        lemma_enc_prompt_items_push(ms.drop_first(), x);
        assert(enc_prompt_items(ms.push(x)) == enc_prompt(ms[0]) + enc_prompt_items(ms.drop_first().push(x)));
        assert(enc_prompt_items(ms.push(x)) == enc_prompt(ms[0]) + (enc_prompt_items(ms.drop_first()) + enc_prompt(x)));
        assert(enc_prompt(ms[0]) + (enc_prompt_items(ms.drop_first()) + enc_prompt(x)) =~= (enc_prompt(ms[0]) + enc_prompt_items(
            ms.drop_first(),
        )) + enc_prompt(x));
        assert(enc_prompt_items(ms.push(x)) =~= enc_prompt_items(ms) + enc_prompt(x));
    }
}

/// Appends the canonical form of one attestation entry.
fn push_entry_enc(out: &mut Vec<char>, e: &AttestationEntry)
    ensures
        final(out)@ == old(out)@ + enc_entry(entry_model(*e)),
{
    push_str_enc(out, &e.author_id);
    push_opt_enc(out, &e.hash);
    push_nat(out, e.line_ranges.len() as u64);
    let mut i: usize = 0;
    while i < e.line_ranges.len()
        invariant
            0 <= i <= e.line_ranges@.len(),
            out@ == old(out)@ + enc_str(e.author_id@) + enc_opt(opt_chars_view(e.hash)) + enc_nat(
                e.line_ranges@.len() as int,
            ) + enc_range_items(e.line_ranges@.subrange(0, i as int)),
        decreases e.line_ranges@.len() - i,
    {
        let r = e.line_ranges[i];
        push_range_enc(out, r);
        proof {
            assert(e.line_ranges@.subrange(0, i + 1) =~= e.line_ranges@.subrange(0, i as int).push(
                e.line_ranges@[i as int],
            ));
            lemma_enc_range_items_push(e.line_ranges@.subrange(0, i as int), e.line_ranges@[i as int]);
            assert(out@ =~= old(out)@ + enc_str(e.author_id@) + enc_opt(opt_chars_view(e.hash))
                + enc_nat(e.line_ranges@.len() as int) + enc_range_items(
                e.line_ranges@.subrange(0, i + 1),
            ));
        }
        i += 1;
    }
    proof {
        assert(e.line_ranges@.subrange(0, e.line_ranges@.len() as int) =~= e.line_ranges@);
        assert(final(out)@ =~= old(out)@ + enc_entry(entry_model(*e)));
    }
}

/// Appends the canonical form of one file attestation.
fn push_att_enc(out: &mut Vec<char>, a: &FileAttestation)
    ensures
        final(out)@ == old(out)@ + enc_att(att_model(*a)),
{
    push_str_enc(out, &a.file_path);
    push_nat(out, a.entries.len() as u64);
    let ghost ms = a.entries@.map_values(|e: AttestationEntry| entry_model(e));
    let mut i: usize = 0;
    while i < a.entries.len()
        invariant
            0 <= i <= a.entries@.len(),
            ms == a.entries@.map_values(|e: AttestationEntry| entry_model(e)),
            out@ == old(out)@ + enc_str(a.file_path@) + enc_nat(a.entries@.len() as int)
                + enc_entry_items(ms.subrange(0, i as int)),
        decreases a.entries@.len() - i,
    {
        push_entry_enc(out, &a.entries[i]);
        proof {
            assert(ms[i as int] == entry_model(a.entries@[i as int]));
            assert(ms.subrange(0, i + 1) =~= ms.subrange(0, i as int).push(ms[i as int]));
            lemma_enc_entry_items_push(ms.subrange(0, i as int), ms[i as int]);
            assert(out@ =~= old(out)@ + enc_str(a.file_path@) + enc_nat(a.entries@.len() as int)
                + enc_entry_items(ms.subrange(0, i + 1)));
        }
        i += 1;
    }
    proof {
        assert(ms.subrange(0, ms.len() as int) =~= ms);
        assert(final(out)@ =~= old(out)@ + enc_att(att_model(*a)));
    }
}

/// Serializes a per-commit record into its canonical text form.
pub fn encode_authorship_log(l: &AuthorshipLog) -> (out: Vec<char>)
    ensures
        out@ == enc_log(log_model(*l)),
{
    let mut out: Vec<char> = Vec::new();
    push_nat(&mut out, l.attestations.len() as u64);
    let ghost ams = l.attestations@.map_values(|a: FileAttestation| att_model(a));
    let mut i: usize = 0;
    while i < l.attestations.len()
        invariant
            0 <= i <= l.attestations@.len(),
            ams == l.attestations@.map_values(|a: FileAttestation| att_model(a)),
            out@ == enc_nat(l.attestations@.len() as int) + enc_att_items(
                ams.subrange(0, i as int),
            ),
        decreases l.attestations@.len() - i,
    {
        push_att_enc(&mut out, &l.attestations[i]);
        proof {
            assert(ams[i as int] == att_model(l.attestations@[i as int]));
            assert(ams.subrange(0, i + 1) =~= ams.subrange(0, i as int).push(ams[i as int]));
            lemma_enc_att_items_push(ams.subrange(0, i as int), ams[i as int]);
            assert(out@ =~= enc_nat(l.attestations@.len() as int) + enc_att_items(
                ams.subrange(0, i + 1),
            ));
        }
        i += 1;
    }
    proof {
        assert(ams.subrange(0, ams.len() as int) =~= ams);
    }
    push_nat(&mut out, l.prompts.len() as u64);
    let ghost pms = l.prompts@.map_values(|r: PromptRecord| prompt_model(r));
    let ghost base = out@;
    let mut k: usize = 0;
    while k < l.prompts.len()
        invariant
            0 <= k <= l.prompts@.len(),
            pms == l.prompts@.map_values(|r: PromptRecord| prompt_model(r)),
            out@ == base + enc_prompt_items(pms.subrange(0, k as int)),
        decreases l.prompts@.len() - k,
    {
        push_str_enc(&mut out, &l.prompts[k].hash);
        push_str_enc(&mut out, &l.prompts[k].tool);
        push_str_enc(&mut out, &l.prompts[k].model);
        push_str_enc(&mut out, &l.prompts[k].transcript_fragment);
        proof {
            assert(pms[k as int] == prompt_model(l.prompts@[k as int]));
            assert(pms.subrange(0, k + 1) =~= pms.subrange(0, k as int).push(pms[k as int]));
            lemma_enc_prompt_items_push(pms.subrange(0, k as int), pms[k as int]);
            assert(out@ =~= base + enc_prompt_items(pms.subrange(0, k + 1)));
        }
        k += 1;
    }
    proof {
        assert(pms.subrange(0, pms.len() as int) =~= pms);
        assert(out@ =~= enc_log(log_model(*l)));
    }
    out
}

/// Prefixes a parsed tail with already-collected items.
pub open spec fn compose_items<T>(pref: Seq<T>, r: Option<(Seq<T>, int)>) -> Option<
    (Seq<T>, int),
> {
    match r {
        None => None,
        Some((rest, p)) => Some((pref + rest, p)),
    }
}

proof fn lemma_parse_nat_pos(s: Seq<char>, pos: int)
    requires
        parse_nat(s, pos) is Some,
    ensures
        pos + 2 <= (parse_nat(s, pos)->0).1 <= s.len(),
        (parse_nat(s, pos)->0).0 >= 0,
{
    lemma_parse_digits_range(s, pos, 0);
    lemma_parse_digits_monotone(s, pos, 0);
}

proof fn lemma_parse_str_pos(s: Seq<char>, pos: int)
    requires
        parse_str(s, pos) is Some,
    ensures
        pos + 2 <= (parse_str(s, pos)->0).1 <= s.len(),
{
    lemma_parse_nat_pos(s, pos);
}

proof fn lemma_parse_opt_pos(s: Seq<char>, pos: int)
    requires
        parse_opt(s, pos) is Some,
    ensures
        pos + 1 <= (parse_opt(s, pos)->0).1 <= s.len(),
{
    if s[pos] == 's' {
        lemma_parse_str_pos(s, pos + 1);
    }
}

proof fn lemma_parse_range_pos(s: Seq<char>, pos: int)
    requires
        parse_range(s, pos) is Some,
    ensures
        pos + 1 <= (parse_range(s, pos)->0).1 <= s.len(),
{
    if s[pos] == 's' {
        lemma_parse_nat_pos(s, pos + 1);
    } else {
        lemma_parse_nat_pos(s, pos + 1);
        let p = (parse_nat(s, pos + 1)->0).1;
        lemma_parse_nat_pos(s, p);
    }
}

proof fn lemma_parse_range_items_pos(s: Seq<char>, pos: int, k: int)
    requires
        0 <= pos <= s.len(),
        parse_range_items(s, pos, k) is Some,
    ensures
        pos <= (parse_range_items(s, pos, k)->0).1 <= s.len(),
        (parse_range_items(s, pos, k)->0).0.len() == if k <= 0 {
            0
        } else {
            k
        },
        k > 0 ==> k <= (parse_range_items(s, pos, k)->0).1 - pos,
    decreases k,
{
    if k > 0 {
        lemma_parse_range_pos(s, pos);
        let p = (parse_range(s, pos)->0).1;
        lemma_parse_range_items_pos(s, p, k - 1);
    }
}

proof fn lemma_parse_entry_pos(s: Seq<char>, pos: int)
    requires
        parse_entry(s, pos) is Some,
    ensures
        pos + 1 <= (parse_entry(s, pos)->0).1 <= s.len(),
{
    lemma_parse_str_pos(s, pos);
    let p = (parse_str(s, pos)->0).1;
    lemma_parse_opt_pos(s, p);
    let p2 = (parse_opt(s, p)->0).1;
    lemma_parse_nat_pos(s, p2);
    let kp = parse_nat(s, p2)->0;
    lemma_parse_range_items_pos(s, kp.1, kp.0);
}

proof fn lemma_parse_entry_items_pos(s: Seq<char>, pos: int, k: int)
    requires
        0 <= pos <= s.len(),
        parse_entry_items(s, pos, k) is Some,
    ensures
        pos <= (parse_entry_items(s, pos, k)->0).1 <= s.len(),
        k > 0 ==> k <= (parse_entry_items(s, pos, k)->0).1 - pos,
    decreases k,
{
    if k > 0 {
        lemma_parse_entry_pos(s, pos);
        let p = (parse_entry(s, pos)->0).1;
        lemma_parse_entry_items_pos(s, p, k - 1);
    }
}

proof fn lemma_parse_prompt_pos(s: Seq<char>, pos: int)
    requires
        parse_prompt(s, pos) is Some,
    ensures
        pos + 1 <= (parse_prompt(s, pos)->0).1 <= s.len(),
{
    lemma_parse_str_pos(s, pos);
    let p = (parse_str(s, pos)->0).1;
    lemma_parse_str_pos(s, p);
    let p2 = (parse_str(s, p)->0).1;
    lemma_parse_str_pos(s, p2);
    let p3 = (parse_str(s, p2)->0).1;
    lemma_parse_str_pos(s, p3);
}

proof fn lemma_parse_att_pos(s: Seq<char>, pos: int)
    requires
        parse_att(s, pos) is Some,
    ensures
        pos + 1 <= (parse_att(s, pos)->0).1 <= s.len(),
{
    lemma_parse_str_pos(s, pos);
    let p = (parse_str(s, pos)->0).1;
    lemma_parse_nat_pos(s, p);
    let kp = parse_nat(s, p)->0;
    lemma_parse_entry_items_pos(s, kp.1, kp.0);
}

proof fn lemma_parse_att_items_pos(s: Seq<char>, pos: int, k: int)
    requires
        0 <= pos <= s.len(),
        parse_att_items(s, pos, k) is Some,
    ensures
        pos <= (parse_att_items(s, pos, k)->0).1 <= s.len(),
        k > 0 ==> k <= (parse_att_items(s, pos, k)->0).1 - pos,
    decreases k,
{
    if k > 0 {
        lemma_parse_att_pos(s, pos);
        let p = (parse_att(s, pos)->0).1;
        lemma_parse_att_items_pos(s, p, k - 1);
    }
}

proof fn lemma_parse_prompt_items_pos(s: Seq<char>, pos: int, k: int)
    requires
        0 <= pos <= s.len(),
        parse_prompt_items(s, pos, k) is Some,
    ensures
        pos <= (parse_prompt_items(s, pos, k)->0).1 <= s.len(),
        k > 0 ==> k <= (parse_prompt_items(s, pos, k)->0).1 - pos,
    decreases k,
{
    if k > 0 {
        lemma_parse_prompt_pos(s, pos);
        let p = (parse_prompt(s, pos)->0).1;
        lemma_parse_prompt_items_pos(s, p, k - 1);
    }
}

/// Reads a length-prefixed string.
fn read_str(v: &Vec<char>, pos: usize) -> (r: Option<(Vec<char>, usize)>)
    requires
        pos <= v.len(),
    ensures
        match r {
            Some((t, p2)) => parse_str(v@, pos as int) == Some((t@, p2 as int)) && pos < p2
                <= v.len(),
            None => parse_str(v@, pos as int) is None,
        },
{
    match read_nat(v, pos) {
        None => {
            proof {
                if parse_nat(v@, pos as int) is Some {
                    let np = parse_nat(v@, pos as int)->0;
                    lemma_parse_nat_pos(v@, pos as int);
                    assert(np.0 > u64::MAX);
                    assert(np.1 + np.0 > v@.len());
                }
            }
            None
        },
        Some((len, p)) => {
            if len > (v.len() - p) as u64 {
                proof {
                    assert(p + len > v@.len());
                }
                None
            } else {
                let lenu = len as usize;
                let t = crate::text::sub_chars(v, p, p + lenu);
                Some((t, p + lenu))
            }
        },
    }
}

/// Reads an optional string.
fn read_opt(v: &Vec<char>, pos: usize) -> (r: Option<(Option<Vec<char>>, usize)>)
    requires
        pos <= v.len(),
    ensures
        match r {
            Some((t, p2)) => parse_opt(v@, pos as int) == Some((opt_chars_view(t), p2 as int))
                && pos < p2 <= v.len(),
            None => parse_opt(v@, pos as int) is None,
        },
{
    if pos >= v.len() {
        return None;
    }
    if v[pos] == 'n' {
        Some((None, pos + 1))
    } else if v[pos] == 's' {
        match read_str(v, pos + 1) {
            None => None,
            Some((t, p)) => Some((Some(t), p)),
        }
    } else {
        None
    }
}

/// Reads a line range.
fn read_range(v: &Vec<char>, pos: usize) -> (r: Option<(LineRange, usize)>)
    requires
        pos <= v.len(),
    ensures
        match r {
            Some((rg, p2)) => parse_range(v@, pos as int) == Some((rg, p2 as int)) && pos < p2
                <= v.len(),
            None => parse_range(v@, pos as int) is None,
        },
{
    if pos >= v.len() {
        return None;
    }
    if v[pos] == 's' {
        match read_nat(v, pos + 1) {
            None => {
                proof {
                    if parse_nat(v@, pos + 1) is Some {
                        let np = parse_nat(v@, pos + 1)->0;
                        assert(np.0 > u64::MAX);
                    }
                }
                None
            },
            Some((n, p)) => {
                if n <= u32::MAX as u64 {
                    Some((LineRange::Single(n as u32), p))
                } else {
                    None
                }
            },
        }
    } else if v[pos] == 'i' {
        match read_nat(v, pos + 1) {
            None => {
                proof {
                    if parse_nat(v@, pos + 1) is Some {
                        let np = parse_nat(v@, pos + 1)->0;
                        assert(np.0 > u64::MAX);
                    }
                }
                None
            },
            Some((a, p)) => {
                if a > u32::MAX as u64 {
                    return None;
                }
                match read_nat(v, p) {
                    None => {
                        proof {
                            if parse_nat(v@, p as int) is Some {
                                let np = parse_nat(v@, p as int)->0;
                                assert(np.0 > u64::MAX);
                            }
                        }
                        None
                    },
                    Some((b, p2)) => {
                        if b <= u32::MAX as u64 {
                            Some((LineRange::Inclusive(a as u32, b as u32), p2))
                        } else {
                            None
                        }
                    },
                }
            },
        }
    } else {
        None
    }
}

/// Reads one attestation entry.
fn read_entry(v: &Vec<char>, pos: usize) -> (r: Option<(AttestationEntry, usize)>)
    requires
        pos <= v.len(),
    ensures
        match r {
            Some((e, p2)) => parse_entry(v@, pos as int) == Some((entry_model(e), p2 as int))
                && pos < p2 <= v.len(),
            None => parse_entry(v@, pos as int) is None,
        },
{
    let (author, p) = match read_str(v, pos) {
        None => {
            return None;
        },
        Some(x) => x,
    };
    let (hash, p2) = match read_opt(v, p) {
        None => {
            return None;
        },
        Some(x) => x,
    };
    let (count, p3) = match read_nat(v, p2) {
        None => {
            proof {
                if parse_nat(v@, p2 as int) is Some {
                    let np = parse_nat(v@, p2 as int)->0;
                    assert(np.0 > u64::MAX);
                    if parse_range_items(v@, np.1, np.0) is Some {
                        lemma_parse_nat_pos(v@, p2 as int);
                        lemma_parse_range_items_pos(v@, np.1, np.0);
                    }
                }
            }
            return None;
        },
        Some(x) => x,
    };
    let mut items: Vec<LineRange> = Vec::new();
    let mut cur = p3;
    let mut done: u64 = 0;
    while done < count
        invariant
            done <= count,
            pos < p3 <= cur <= v.len(),
            items@.len() == done,
            parse_str(v@, pos as int) == Some((author@, p as int)),
            parse_opt(v@, p as int) == Some((opt_chars_view(hash), p2 as int)),
            parse_nat(v@, p2 as int) == Some((count as int, p3 as int)),
            compose_items(items@, parse_range_items(v@, cur as int, (count - done) as int))
                == parse_range_items(v@, p3 as int, count as int),
        decreases count - done,
    {
        match read_range(v, cur) {
            None => {
                proof {
                    assert(parse_range_items(v@, cur as int, (count - done) as int) is None);
                }
                return None;
            },
            Some((rg, pn)) => {
                proof {
                    let rem = (count - done) as int;
                    assert(parse_range_items(v@, cur as int, rem) == (match parse_range_items(
                        v@,
                        pn as int,
                        rem - 1,
                    ) {
                        None => None,
                        Some((rest, pp)) => Some((seq![rg] + rest, pp)),
                    }));
                    if parse_range_items(v@, pn as int, rem - 1) is Some {
                        let rest = (parse_range_items(v@, pn as int, rem - 1)->0).0;
                        assert(items@ + (seq![rg] + rest) =~= items@.push(rg) + rest);
                    }
                }
                items.push(rg);
                cur = pn;
                done = done + 1;
            },
        }
    }
    proof {
        assert(parse_range_items(v@, cur as int, 0) == Some((Seq::<LineRange>::empty(), cur
            as int)));
        assert(items@ + Seq::<LineRange>::empty() =~= items@);
        assert(parse_range_items(v@, p3 as int, count as int) == Some((items@, cur as int)));
    }
    Some((AttestationEntry { author_id: author, hash, line_ranges: items }, cur))
}

/// Reads one file attestation.
fn read_att(v: &Vec<char>, pos: usize) -> (r: Option<(FileAttestation, usize)>)
    requires
        pos <= v.len(),
    ensures
        match r {
            Some((a, p2)) => parse_att(v@, pos as int) == Some((att_model(a), p2 as int)) && pos
                < p2 <= v.len(),
            None => parse_att(v@, pos as int) is None,
        },
{
    let (path, p) = match read_str(v, pos) {
        None => {
            return None;
        },
        Some(x) => x,
    };
    let (count, p2) = match read_nat(v, p) {
        None => {
            proof {
                if parse_nat(v@, p as int) is Some {
                    let np = parse_nat(v@, p as int)->0;
                    assert(np.0 > u64::MAX);
                    if parse_entry_items(v@, np.1, np.0) is Some {
                        lemma_parse_nat_pos(v@, p as int);
                        lemma_parse_entry_items_pos(v@, np.1, np.0);
                    }
                }
            }
            return None;
        },
        Some(x) => x,
    };
    let mut items: Vec<AttestationEntry> = Vec::new();
    let ghost mut models: Seq<(Seq<char>, Option<Seq<char>>, Seq<LineRange>)> = Seq::empty();
    let mut cur = p2;
    let mut done: u64 = 0;
    while done < count
        invariant
            done <= count,
            pos < p2 <= cur <= v.len(),
            models.len() == done,
            items@.len() == done,
            parse_str(v@, pos as int) == Some((path@, p as int)),
            parse_nat(v@, p as int) == Some((count as int, p2 as int)),
            models == items@.map_values(|e: AttestationEntry| entry_model(e)),
            compose_items(models, parse_entry_items(v@, cur as int, (count - done) as int))
                == parse_entry_items(v@, p2 as int, count as int),
        decreases count - done,
    {
        match read_entry(v, cur) {
            None => {
                proof {
                    assert(parse_entry_items(v@, cur as int, (count - done) as int) is None);
                }
                return None;
            },
            Some((e, pn)) => {
                proof {
                    let rem = (count - done) as int;
                    assert(parse_entry_items(v@, cur as int, rem) == (match parse_entry_items(
                        v@,
                        pn as int,
                        rem - 1,
                    ) {
                        None => None,
                        Some((rest, pp)) => Some((seq![entry_model(e)] + rest, pp)),
                    }));
                    if parse_entry_items(v@, pn as int, rem - 1) is Some {
                        let rest = (parse_entry_items(v@, pn as int, rem - 1)->0).0;
                        assert(models + (seq![entry_model(e)] + rest) =~= models.push(
                            entry_model(e),
                        ) + rest);
                    }
                    models = models.push(entry_model(e));
                }
                items.push(e);
                proof {
                    assert(models =~= items@.map_values(|e2: AttestationEntry| entry_model(e2)));
                }
                cur = pn;
                done = done + 1;
            },
        }
    }
    proof {
        assert(parse_entry_items(v@, cur as int, 0) == Some((Seq::<
            (Seq<char>, Option<Seq<char>>, Seq<LineRange>),
        >::empty(), cur as int)));
        assert(models + Seq::<(Seq<char>, Option<Seq<char>>, Seq<LineRange>)>::empty()
            =~= models);
        assert(parse_entry_items(v@, p2 as int, count as int) == Some((models, cur as int)));
    }
    Some((FileAttestation { file_path: path, entries: items }, cur))
}

/// Reads one prompt record.
fn read_prompt(v: &Vec<char>, pos: usize) -> (r: Option<(PromptRecord, usize)>)
    requires
        pos <= v.len(),
    ensures
        match r {
            Some((rec, p2)) => parse_prompt(v@, pos as int) == Some(
                (prompt_model(rec), p2 as int),
            ) && pos < p2 <= v.len(),
            None => parse_prompt(v@, pos as int) is None,
        },
{
    let (h, p) = match read_str(v, pos) {
        None => {
            return None;
        },
        Some(x) => x,
    };
    let (t, p2) = match read_str(v, p) {
        None => {
            return None;
        },
        Some(x) => x,
    };
    let (mo, p3) = match read_str(v, p2) {
        None => {
            return None;
        },
        Some(x) => x,
    };
    let (tr, p4) = match read_str(v, p3) {
        None => {
            return None;
        },
        Some(x) => x,
    };
    Some((PromptRecord { hash: h, tool: t, model: mo, transcript_fragment: tr }, p4))
}

/// Deserializes a per-commit record from its canonical text form; the
/// whole input must be consumed.
pub fn decode_authorship_log(v: &Vec<char>) -> (r: Option<AuthorshipLog>)
    ensures
        match r {
            Some(l) => parse_log(v@, 0) == Some((log_model(l), v@.len() as int)),
            None => parse_log(v@, 0) is None || (parse_log(v@, 0)->0).1 != v@.len(),
        },
{
    let (acount, p) = match read_nat(v, 0) {
        None => {
            proof {
                if parse_log(v@, 0) is Some {
                    let np = parse_nat(v@, 0)->0;
                    assert(np.0 > u64::MAX);
                    lemma_parse_nat_pos(v@, 0);
                    lemma_parse_att_items_pos(v@, np.1, np.0);
                }
            }
            return None;
        },
        Some(x) => x,
    };
    let mut atts: Vec<FileAttestation> = Vec::new();
    let ghost mut amodels: Seq<
        (Seq<char>, Seq<(Seq<char>, Option<Seq<char>>, Seq<LineRange>)>),
    > = Seq::empty();
    let mut cur = p;
    let mut done: u64 = 0;
    while done < acount
        invariant
            done <= acount,
            p <= cur <= v.len(),
            amodels.len() == done,
            atts@.len() == done,
            parse_nat(v@, 0) == Some((acount as int, p as int)),
            amodels == atts@.map_values(|a: FileAttestation| att_model(a)),
            compose_items(amodels, parse_att_items(v@, cur as int, (acount - done) as int))
                == parse_att_items(v@, p as int, acount as int),
        decreases acount - done,
    {
        match read_att(v, cur) {
            None => {
                proof {
                    assert(parse_att_items(v@, cur as int, (acount - done) as int) is None);
                }
                return None;
            },
            Some((a, pn)) => {
                proof {
                    let rem = (acount - done) as int;
                    assert(parse_att_items(v@, cur as int, rem) == (match parse_att_items(
                        v@,
                        pn as int,
                        rem - 1,
                    ) {
                        None => None,
                        Some((rest, pp)) => Some((seq![att_model(a)] + rest, pp)),
                    }));
                    if parse_att_items(v@, pn as int, rem - 1) is Some {
                        let rest = (parse_att_items(v@, pn as int, rem - 1)->0).0;
                        assert(amodels + (seq![att_model(a)] + rest) =~= amodels.push(
                            att_model(a),
                        ) + rest);
                    }
                    amodels = amodels.push(att_model(a));
                }
                atts.push(a);
                proof {
                    assert(amodels =~= atts@.map_values(|a2: FileAttestation| att_model(a2)));
                }
                cur = pn;
                done = done + 1;
            },
        }
    }
    proof {
        assert(parse_att_items(v@, cur as int, 0) == Some((Seq::<
            (Seq<char>, Seq<(Seq<char>, Option<Seq<char>>, Seq<LineRange>)>),
        >::empty(), cur as int)));
        assert(amodels + Seq::<
            (Seq<char>, Seq<(Seq<char>, Option<Seq<char>>, Seq<LineRange>)>),
        >::empty() =~= amodels);
        assert(parse_att_items(v@, p as int, acount as int) == Some((amodels, cur as int)));
    }
    let (pcount, p2) = match read_nat(v, cur) {
        None => {
            proof {
                if parse_nat(v@, cur as int) is Some {
                    let np = parse_nat(v@, cur as int)->0;
                    assert(np.0 > u64::MAX);
                    if parse_prompt_items(v@, np.1, np.0) is Some {
                        lemma_parse_nat_pos(v@, cur as int);
                        lemma_parse_prompt_items_pos(v@, np.1, np.0);
                    }
                }
            }
            return None;
        },
        Some(x) => x,
    };
    let mut prompts: Vec<PromptRecord> = Vec::new();
    let ghost mut pmodels: Seq<(Seq<char>, Seq<char>, Seq<char>, Seq<char>)> = Seq::empty();
    let ghost final_amodels = amodels;
    let mut cur2 = p2;
    let mut done2: u64 = 0;
    while done2 < pcount
        invariant
            done2 <= pcount,
            p2 <= cur2 <= v.len(),
            pmodels.len() == done2,
            prompts@.len() == done2,
            parse_nat(v@, 0) == Some((acount as int, p as int)),
            parse_att_items(v@, p as int, acount as int) == Some((final_amodels, cur as int)),
            amodels == final_amodels,
            amodels == atts@.map_values(|a: FileAttestation| att_model(a)),
            parse_nat(v@, cur as int) == Some((pcount as int, p2 as int)),
            pmodels == prompts@.map_values(|r2: PromptRecord| prompt_model(r2)),
            compose_items(pmodels, parse_prompt_items(v@, cur2 as int, (pcount - done2) as int))
                == parse_prompt_items(v@, p2 as int, pcount as int),
        decreases pcount - done2,
    {
        match read_prompt(v, cur2) {
            None => {
                proof {
                    assert(parse_prompt_items(v@, cur2 as int, (pcount - done2) as int) is None);
                }
                return None;
            },
            Some((rec, pn)) => {
                proof {
                    let rem = (pcount - done2) as int;
                    assert(parse_prompt_items(v@, cur2 as int, rem) == (match parse_prompt_items(
                        v@,
                        pn as int,
                        rem - 1,
                    ) {
                        None => None,
                        Some((rest, pp)) => Some((seq![prompt_model(rec)] + rest, pp)),
                    }));
                    if parse_prompt_items(v@, pn as int, rem - 1) is Some {
                        let rest = (parse_prompt_items(v@, pn as int, rem - 1)->0).0;
                        assert(pmodels + (seq![prompt_model(rec)] + rest) =~= pmodels.push(
                            prompt_model(rec),
                        ) + rest);
                    }
                    pmodels = pmodels.push(prompt_model(rec));
                }
                prompts.push(rec);
                proof {
                    assert(pmodels =~= prompts@.map_values(|r2: PromptRecord| prompt_model(r2)));
                }
                cur2 = pn;
                done2 = done2 + 1;
            },
        }
    }
    proof {
        assert(parse_prompt_items(v@, cur2 as int, 0) == Some((Seq::<
            (Seq<char>, Seq<char>, Seq<char>, Seq<char>),
        >::empty(), cur2 as int)));
        assert(pmodels + Seq::<(Seq<char>, Seq<char>, Seq<char>, Seq<char>)>::empty()
            =~= pmodels);
        assert(parse_prompt_items(v@, p2 as int, pcount as int) == Some((pmodels, cur2 as int)));
    }
    if cur2 != v.len() {
        return None;
    }
    Some(AuthorshipLog { attestations: atts, prompts })
}

/// Round trip of the canonical form: parsing what was serialized
/// yields an equal record.
pub proof fn lemma_authorship_round_trip(
    m: (
        Seq<(Seq<char>, Seq<(Seq<char>, Option<Seq<char>>, Seq<LineRange>)>)>,
        Seq<(Seq<char>, Seq<char>, Seq<char>, Seq<char>)>,
    ),
)
    ensures
        parse_log(enc_log(m), 0) == Some((m, enc_log(m).len() as int)),
{
    assert(enc_log(m).subrange(0, enc_log(m).len() as int) =~= enc_log(m));
    lemma_parse_log_of_enc(enc_log(m), 0, m);
}

} // verus!
