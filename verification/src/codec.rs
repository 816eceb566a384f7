//! The wire format of operations: a fixed-shape JSON encoding and its
//! decoder, both verified against one spec-level grammar.
//!
//! An operation travels as
//! `{"op":TAG,"c":CHAR,"arg1":CHAR|null,"arg2":CHAR|null}` with
//! `CHAR = {"id":{"ns":N,"ng":N},"c":STR,"visible":BOOL,"prev_id":ID|null,"next_id":ID|null}`,
//! no whitespace, and `"` and `\` escaped inside strings.

use vstd::prelude::*;
use vstd::string::StrSliceExecFns;
use vstd::string::StringExecFns;

use crate::woot::{CharV, Character, ID, OpV, Operation, WootError};

verus! {

/// The decimal digit for a value below ten.
pub open spec fn digit_char(d: int) -> char {
    if d == 0 {
        '0'
    } else if d == 1 {
        '1'
    } else if d == 2 {
        '2'
    } else if d == 3 {
        '3'
    } else if d == 4 {
        '4'
    } else if d == 5 {
        '5'
    } else if d == 6 {
        '6'
    } else if d == 7 {
        '7'
    } else if d == 8 {
        '8'
    } else {
        '9'
    }
}

/// The value of a decimal digit, `-1` for any other character.
pub open spec fn digit_val(ch: char) -> int {
    if ch == '0' {
        0
    } else if ch == '1' {
        1
    } else if ch == '2' {
        2
    } else if ch == '3' {
        3
    } else if ch == '4' {
        4
    } else if ch == '5' {
        5
    } else if ch == '6' {
        6
    } else if ch == '7' {
        7
    } else if ch == '8' {
        8
    } else if ch == '9' {
        9
    } else {
        -1
    }
}

/// Whether `ch` is a decimal digit.
pub open spec fn is_digit(ch: char) -> bool {
    digit_val(ch) >= 0
}

/// The decimal digits of a non-negative number, most significant first.
pub open spec fn dec_digits(n: nat) -> Seq<char>
    decreases n,
{
    if n < 10 {
        seq![digit_char(n as int)]
    } else {
        dec_digits(n / 10) + seq![digit_char((n % 10) as int)]
    }
}

/// The decimal encoding of an integer, with a leading minus when negative.
pub open spec fn enc_i64(v: int) -> Seq<char> {
    if v >= 0 {
        dec_digits(v as nat)
    } else {
        seq!['-'] + dec_digits((-v) as nat)
    }
}

/// How one character appears inside a JSON string: `"` and `\` get a
/// backslash, everything else stands for itself.
pub open spec fn escape_char(ch: char) -> Seq<char> {
    if ch == '"' {
        seq!['\\', '"']
    } else if ch == '\\' {
        seq!['\\', '\\']
    } else {
        seq![ch]
    }
}

/// The escaped body of a JSON string.
pub open spec fn esc(s: Seq<char>) -> Seq<char>
    decreases s.len(),
{
    if s.len() == 0 {
        Seq::empty()
    } else {
        escape_char(s[0]) + esc(s.skip(1))
    }
}

/// A JSON string: the escaped body between double quotes.
pub open spec fn enc_string(s: Seq<char>) -> Seq<char> {
    seq!['"'] + esc(s) + seq!['"']
}

/// A JSON boolean.
pub open spec fn enc_bool(b: bool) -> Seq<char> {
    if b {
        "true"@
    } else {
        "false"@
    }
}

/// A JSON identifier object.
pub open spec fn enc_id(id: ID) -> Seq<char> {
    "{\"ns\":"@ + enc_i64(id.ns as int) + ",\"ng\":"@ + enc_i64(id.ng as int) + "}"@
}

/// An optional identifier: the object, or `null`.
pub open spec fn enc_opt_id(o: Option<ID>) -> Seq<char> {
    match o {
        Some(id) => enc_id(id),
        None => "null"@,
    }
}

/// A JSON character object.
pub open spec fn enc_char(c: CharV) -> Seq<char> {
    "{\"id\":"@ + enc_id(c.id) + ",\"c\":"@ + enc_string(c.glyph) + ",\"visible\":"@ + enc_bool(
        c.visible,
    ) + ",\"prev_id\":"@ + enc_opt_id(c.prev_id) + ",\"next_id\":"@ + enc_opt_id(c.next_id) + "}"@
}

/// An optional character: the object, or `null`.
pub open spec fn enc_opt_char(o: Option<CharV>) -> Seq<char> {
    match o {
        Some(c) => enc_char(c),
        None => "null"@,
    }
}

/// A full operation record.
pub open spec fn enc_op(op: OpV) -> Seq<char> {
    "{\"op\":"@ + enc_string(op.op) + ",\"c\":"@ + enc_char(op.c) + ",\"arg1\":"@ + enc_opt_char(
        op.arg1,
    ) + ",\"arg2\":"@ + enc_opt_char(op.arg2) + "}"@
}

/// Appends one decimal digit.
fn push_digit(out: &mut String, d: u64)
    requires
        d < 10,
    ensures
        final(out)@ == old(out)@ + seq![digit_char(d as int)],
{
    match d {
        0 => {
            proof {
                reveal_strlit("0");
                assert("0"@ =~= seq![digit_char(0)]);
            }
            out.append("0");
        },
        1 => {
            proof {
                reveal_strlit("1");
                assert("1"@ =~= seq![digit_char(1)]);
            }
            out.append("1");
        },
        2 => {
            proof {
                reveal_strlit("2");
                assert("2"@ =~= seq![digit_char(2)]);
            }
            out.append("2");
        },
        3 => {
            proof {
                reveal_strlit("3");
                assert("3"@ =~= seq![digit_char(3)]);
            }
            out.append("3");
        },
        4 => {
            proof {
                reveal_strlit("4");
                assert("4"@ =~= seq![digit_char(4)]);
            }
            out.append("4");
        },
        5 => {
            proof {
                reveal_strlit("5");
                assert("5"@ =~= seq![digit_char(5)]);
            }
            out.append("5");
        },
        6 => {
            proof {
                reveal_strlit("6");
                assert("6"@ =~= seq![digit_char(6)]);
            }
            out.append("6");
        },
        7 => {
            proof {
                reveal_strlit("7");
                assert("7"@ =~= seq![digit_char(7)]);
            }
            out.append("7");
        },
        8 => {
            proof {
                reveal_strlit("8");
                assert("8"@ =~= seq![digit_char(8)]);
            }
            out.append("8");
        },
        _ => {
            proof {
                reveal_strlit("9");
                assert("9"@ =~= seq![digit_char(9)]);
            }
            out.append("9");
        },
    }
}

/// Appends the decimal digits of `m`.
fn append_u64(out: &mut String, m: u64)
    ensures
        final(out)@ == old(out)@ + dec_digits(m as nat),
    decreases m,
{
    if m < 10 {
        push_digit(out, m);
    } else {
        append_u64(out, m / 10);
        push_digit(out, m % 10);
        proof {
            assert(final(out)@ =~= old(out)@ + dec_digits(m as nat));
        }
    }
}

/// Appends the decimal encoding of `v`.
fn append_i64(out: &mut String, v: i64)
    ensures
        final(out)@ == old(out)@ + enc_i64(v as int),
{
    if v >= 0 {
        append_u64(out, v as u64);
    } else {
        proof {
            reveal_strlit("-");
            assert("-"@ =~= seq!['-']);
        }
        out.append("-");
        let m: u64 = if v == i64::MIN {
            9223372036854775808u64
        } else {
            (-v) as u64
        };
        proof {
            assert(m as nat == (-(v as int)) as nat);
        }
        append_u64(out, m);
        proof {
            assert(final(out)@ =~= old(out)@ + enc_i64(v as int));
        }
    }
}

/// Appends the escaped body of `s`.
fn append_escaped(out: &mut String, s: &str)
    ensures
        final(out)@ == old(out)@ + esc(s@),
{
    let n = s.unicode_len();
    let mut i: usize = 0;
    proof {
        assert(s@.skip(0) =~= s@);
        assert(old(out)@ + esc(s@) =~= old(out)@ + esc(s@.skip(0)));
    }
    while i < n
        invariant
            i <= n == s@.len(),
            old(out)@ + esc(s@) == out@ + esc(s@.skip(i as int)),
        decreases n - i,
    {
        proof {
            assert(s@.skip(i as int)[0] == s@[i as int]);
            assert(s@.skip(i as int).skip(1) =~= s@.skip(i as int + 1));
        }
        let ch = s.get_char(i);
        if ch == '"' {
            proof {
                reveal_strlit("\\\"");
                assert("\\\""@ =~= seq!['\\', '"']);
            }
            out.append("\\\"");
        } else if ch == '\\' {
            proof {
                reveal_strlit("\\\\");
                assert("\\\\"@ =~= seq!['\\', '\\']);
            }
            out.append("\\\\");
        } else {
            let piece = s.substring_char(i, i + 1);
            proof {
                assert(piece@ =~= seq![s@[i as int]]);
            }
            out.append(piece);
        }
        proof {
            assert(old(out)@ + esc(s@) =~= out@ + esc(s@.skip(i + 1)));
        }
        i += 1;
    }
    proof {
        assert(esc(s@.skip(i as int)) =~= Seq::<char>::empty());
        assert(out@ =~= old(out)@ + esc(s@));
    }
}

/// Appends `s` as a JSON string.
fn append_string(out: &mut String, s: &str)
    ensures
        final(out)@ == old(out)@ + enc_string(s@),
{
    proof {
        reveal_strlit("\"");
        assert("\""@ =~= seq!['"']);
    }
    out.append("\"");
    append_escaped(out, s);
    out.append("\"");
    proof {
        assert(final(out)@ =~= old(out)@ + enc_string(s@));
    }
}

/// Appends a JSON boolean.
fn append_bool(out: &mut String, b: bool)
    ensures
        final(out)@ == old(out)@ + enc_bool(b),
{
    if b {
        out.append("true");
    } else {
        out.append("false");
    }
}

/// Appends a JSON identifier object.
fn append_id(out: &mut String, id: &ID)
    ensures
        final(out)@ == old(out)@ + enc_id(*id),
{
    out.append("{\"ns\":");
    append_i64(out, id.ns);
    out.append(",\"ng\":");
    append_i64(out, id.ng);
    out.append("}");
    proof {
        assert(final(out)@ =~= old(out)@ + enc_id(*id));
    }
}

/// Appends an optional identifier.
fn append_opt_id(out: &mut String, o: &Option<ID>)
    ensures
        final(out)@ == old(out)@ + enc_opt_id(*o),
{
    match o {
        Some(id) => append_id(out, id),
        None => out.append("null"),
    }
}

/// Appends a JSON character object.
fn append_char(out: &mut String, c: &Character)
    ensures
        final(out)@ == old(out)@ + enc_char(c@),
{
    out.append("{\"id\":");
    append_id(out, &c.id);
    out.append(",\"c\":");
    append_string(out, c.c.as_str());
    out.append(",\"visible\":");
    append_bool(out, c.visible);
    out.append(",\"prev_id\":");
    append_opt_id(out, &c.prev_id);
    out.append(",\"next_id\":");
    append_opt_id(out, &c.next_id);
    out.append("}");
    proof {
        assert(final(out)@ =~= old(out)@ + enc_char(c@));
    }
}

/// Appends an optional character object.
fn append_opt_char(out: &mut String, o: &Option<Character>)
    ensures
        final(out)@ == old(out)@ + enc_opt_char(
            match o {
                Some(c) => Some(c@),
                None => None,
            },
        ),
{
    match o {
        Some(c) => append_char(out, c),
        None => out.append("null"),
    }
}

/// The JSON encoding of an operation record, ready for the wire.
pub fn json_encode(op: &Operation) -> (r: String)
    ensures
        r@ == enc_op(op@),
{
    let mut out = String::new();
    out.append("{\"op\":");
    append_string(&mut out, op.op.as_str());
    out.append(",\"c\":");
    append_char(&mut out, &op.c);
    out.append(",\"arg1\":");
    append_opt_char(&mut out, &op.arg1);
    out.append(",\"arg2\":");
    append_opt_char(&mut out, &op.arg2);
    out.append("}");
    proof {
        assert(out@ =~= enc_op(op@));
    }
    out
}

/// Consumes the exact literal `l` at position `i`, or fails.
pub open spec fn p_lit(t: Seq<char>, i: int, l: Seq<char>) -> Option<int> {
    if 0 <= i && i + l.len() <= t.len() && t.subrange(i, i + l.len()) == l {
        Some(i + l.len())
    } else {
        None
    }
}

/// Consumes a JSON boolean.
pub open spec fn p_bool(t: Seq<char>, i: int) -> Option<(bool, int)> {
    match p_lit(t, i, "true"@) {
        Some(j) => Some((true, j)),
        None => match p_lit(t, i, "false"@) {
            Some(j) => Some((false, j)),
            None => None,
        },
    }
}

/// The end of the run of decimal digits starting at `i`.
pub open spec fn digits_end(t: Seq<char>, i: int) -> int
    decreases t.len() - i,
{
    if i < t.len() && is_digit(t[i]) {
        digits_end(t, i + 1)
    } else {
        i
    }
}

/// The value of the digits `t[i..j)`, most significant first.
pub open spec fn digits_val(t: Seq<char>, i: int, j: int) -> int
    decreases j - i,
{
    if j <= i {
        0
    } else {
        digits_val(t, i, j - 1) * 10 + digit_val(t[j - 1])
    }
}

/// Consumes a decimal integer with optional leading minus; fails on an empty
/// digit run or a value outside the signed 64-bit range.
pub open spec fn p_i64(t: Seq<char>, i: int) -> Option<(int, int)> {
    let neg = 0 <= i < t.len() && t[i] == '-';
    let j0 = if neg {
        i + 1
    } else {
        i
    };
    let j = digits_end(t, j0);
    if j == j0 {
        None
    } else {
        let mag = digits_val(t, j0, j);
        let v = if neg {
            -mag
        } else {
            mag
        };
        if v < i64::MIN as int || v > i64::MAX as int {
            None
        } else {
            Some((v, j))
        }
    }
}

/// Consumes the body of a JSON string up to and including the closing quote,
/// undoing the `\"` and `\\` escapes.
pub open spec fn p_str_body(t: Seq<char>, i: int) -> Option<(Seq<char>, int)>
    decreases t.len() - i,
{
    if i < 0 || i >= t.len() {
        None
    } else if t[i] == '"' {
        Some((Seq::empty(), i + 1))
    } else if t[i] == '\\' {
        if i + 1 < t.len() && (t[i + 1] == '"' || t[i + 1] == '\\') {
            match p_str_body(t, i + 2) {
                Some((s, j)) => Some((seq![t[i + 1]] + s, j)),
                None => None,
            }
        } else {
            None
        }
    } else {
        match p_str_body(t, i + 1) {
            Some((s, j)) => Some((seq![t[i]] + s, j)),
            None => None,
        }
    }
}

/// Consumes a JSON string.
pub open spec fn p_string(t: Seq<char>, i: int) -> Option<(Seq<char>, int)> {
    if 0 <= i < t.len() && t[i] == '"' {
        p_str_body(t, i + 1)
    } else {
        None
    }
}

/// Consumes a JSON identifier object.
pub open spec fn p_id(t: Seq<char>, i: int) -> Option<(ID, int)> {
    match p_lit(t, i, "{\"ns\":"@) {
        None => None,
        Some(i1) => match p_i64(t, i1) {
            None => None,
            Some((ns, i2)) => match p_lit(t, i2, ",\"ng\":"@) {
                None => None,
                Some(i3) => match p_i64(t, i3) {
                    None => None,
                    Some((ng, i4)) => match p_lit(t, i4, "}"@) {
                        None => None,
                        Some(i5) => Some((ID { ns: ns as i64, ng: ng as i64 }, i5)),
                    },
                },
            },
        },
    }
}

/// Consumes an identifier object or `null`.
pub open spec fn p_opt_id(t: Seq<char>, i: int) -> Option<(Option<ID>, int)> {
    match p_lit(t, i, "null"@) {
        Some(j) => Some((None, j)),
        None => match p_id(t, i) {
            Some((id, j)) => Some((Some(id), j)),
            None => None,
        },
    }
}

/// Consumes a JSON character object.
pub open spec fn p_char(t: Seq<char>, i: int) -> Option<(CharV, int)> {
    match p_lit(t, i, "{\"id\":"@) {
        None => None,
        Some(i1) => match p_id(t, i1) {
            None => None,
            Some((id, i2)) => match p_lit(t, i2, ",\"c\":"@) {
                None => None,
                Some(i3) => match p_string(t, i3) {
                    None => None,
                    Some((glyph, i4)) => match p_lit(t, i4, ",\"visible\":"@) {
                        None => None,
                        Some(i5) => match p_bool(t, i5) {
                            None => None,
                            Some((visible, i6)) => match p_lit(t, i6, ",\"prev_id\":"@) {
                                None => None,
                                Some(i7) => match p_opt_id(t, i7) {
                                    None => None,
                                    Some((prev_id, i8)) => match p_lit(
                                        t,
                                        i8,
                                        ",\"next_id\":"@,
                                    ) {
                                        None => None,
                                        Some(i9) => match p_opt_id(t, i9) {
                                            None => None,
                                            Some((next_id, i10)) => match p_lit(t, i10, "}"@) {
                                                None => None,
                                                Some(i11) => Some(
                                                    (
                                                        CharV {
                                                            id,
                                                            glyph,
                                                            visible,
                                                            prev_id,
                                                            next_id,
                                                        },
                                                        i11,
                                                    ),
                                                ),
                                            },
                                        },
                                    },
                                },
                            },
                        },
                    },
                },
            },
        },
    }
}

/// Consumes a character object or `null`.
pub open spec fn p_opt_char(t: Seq<char>, i: int) -> Option<(Option<CharV>, int)> {
    match p_lit(t, i, "null"@) {
        Some(j) => Some((None, j)),
        None => match p_char(t, i) {
            Some((c, j)) => Some((Some(c), j)),
            None => None,
        },
    }
}

/// Consumes a full operation record.
pub open spec fn p_operation(t: Seq<char>, i: int) -> Option<(OpV, int)> {
    match p_lit(t, i, "{\"op\":"@) {
        None => None,
        Some(i1) => match p_string(t, i1) {
            None => None,
            Some((tag, i2)) => match p_lit(t, i2, ",\"c\":"@) {
                None => None,
                Some(i3) => match p_char(t, i3) {
                    None => None,
                    Some((c, i4)) => match p_lit(t, i4, ",\"arg1\":"@) {
                        None => None,
                        Some(i5) => match p_opt_char(t, i5) {
                            None => None,
                            Some((arg1, i6)) => match p_lit(t, i6, ",\"arg2\":"@) {
                                None => None,
                                Some(i7) => match p_opt_char(t, i7) {
                                    None => None,
                                    Some((arg2, i8)) => match p_lit(t, i8, "}"@) {
                                        None => None,
                                        Some(i9) => Some(
                                            (OpV { op: tag, c, arg1, arg2 }, i9),
                                        ),
                                    },
                                },
                            },
                        },
                    },
                },
            },
        },
    }
}

/// Every character of a digit run is a digit, and the run stays in bounds.
proof fn lemma_digits_end_props(t: Seq<char>, i: int)
    requires
        0 <= i <= t.len(),
    ensures
        i <= digits_end(t, i) <= t.len(),
        forall|k: int| i <= k < digits_end(t, i) ==> is_digit(t[k]),
    decreases t.len() - i,
{
    if i < t.len() && is_digit(t[i]) {
        lemma_digits_end_props(t, i + 1);
    }
}

/// The value of a digit run is non-negative.
proof fn lemma_digits_val_nonneg(t: Seq<char>, i: int, j: int)
    requires
        forall|k: int| i <= k < j ==> is_digit(t[k]),
    ensures
        digits_val(t, i, j) >= 0,
    decreases j - i,
{
    if j > i {
        lemma_digits_val_nonneg(t, i, j - 1);
    }
}

/// Extending a digit run never shrinks its value.
proof fn lemma_digits_val_mono(t: Seq<char>, i: int, k: int, j: int)
    requires
        i <= k <= j,
        forall|q: int| i <= q < j ==> is_digit(t[q]),
    ensures
        digits_val(t, i, j) >= digits_val(t, i, k),
    decreases j - k,
{
    if j > k {
        lemma_digits_val_mono(t, i, k, j - 1);
        lemma_digits_val_nonneg(t, i, j - 1);
    }
}

/// Consumes the exact literal `lit`.
fn expect_lit(s: &str, i: usize, lit: &str) -> (r: Option<usize>)
    ensures
        match r {
            Some(j) => p_lit(s@, i as int, lit@) == Some(j as int),
            None => p_lit(s@, i as int, lit@) is None,
        },
{
    let n = s.unicode_len();
    let m = lit.unicode_len();
    if m > n || i > n - m {
        proof {
            assert(i + lit@.len() > s@.len());
        }
        return None;
    }
    let mut k: usize = 0;
    while k < m
        invariant
            i + m <= n,
            n == s@.len(),
            m == lit@.len(),
            k <= m,
            forall|q: int| 0 <= q < k ==> s@[i + q] == lit@[q],
        decreases m - k,
    {
        if s.get_char(i + k) != lit.get_char(k) {
            proof {
                assert(s@.subrange(i as int, i + m)[k as int] == s@[i + k]);
                assert(s@.subrange(i as int, i + m) != lit@);
            }
            return None;
        }
        k += 1;
    }
    proof {
        assert(s@.subrange(i as int, i + m) =~= lit@);
    }
    Some(i + m)
}

/// Consumes a JSON boolean.
fn parse_bool(s: &str, i: usize) -> (r: Option<(bool, usize)>)
    ensures
        match r {
            Some((b, j)) => p_bool(s@, i as int) == Some((b, j as int)),
            None => p_bool(s@, i as int) is None,
        },
{
    match expect_lit(s, i, "true") {
        Some(j) => Some((true, j)),
        None => match expect_lit(s, i, "false") {
            Some(j) => Some((false, j)),
            None => None,
        },
    }
}

/// Consumes a run of decimal digits and accumulates its value, rejecting a
/// value beyond the unsigned 64-bit range.
fn parse_digits(s: &str, i: usize) -> (r: Option<(u64, usize)>)
    ensures
        match r {
            Some((m, j)) => j as int == digits_end(s@, i as int) && i < j <= s@.len()
                && m as int == digits_val(s@, i as int, j as int),
            None => digits_end(s@, i as int) == i || digits_val(
                s@,
                i as int,
                digits_end(s@, i as int),
            ) > u64::MAX,
        },
{
    let n = s.unicode_len();
    if i >= n {
        return None;
    }
    let mut j: usize = i;
    let mut acc: u64 = 0;
    while j < n
        invariant
            i <= j <= n,
            n == s@.len(),
            digits_end(s@, i as int) == digits_end(s@, j as int),
            forall|k: int| i <= k < j ==> is_digit(s@[k]),
            acc as int == digits_val(s@, i as int, j as int),
        ensures
            i <= j <= n,
            n == s@.len(),
            digits_end(s@, i as int) == j as int,
            acc as int == digits_val(s@, i as int, j as int),
        decreases n - j,
    {
        let ch = s.get_char(j);
        let d: u64 = if ch == '0' {
            0
        } else if ch == '1' {
            1
        } else if ch == '2' {
            2
        } else if ch == '3' {
            3
        } else if ch == '4' {
            4
        } else if ch == '5' {
            5
        } else if ch == '6' {
            6
        } else if ch == '7' {
            7
        } else if ch == '8' {
            8
        } else if ch == '9' {
            9
        } else {
            proof {
                assert(!is_digit(s@[j as int]));
                assert(digits_end(s@, j as int) == j as int);
            }
            break ;
        };
        proof {
            assert(is_digit(s@[j as int]) && digit_val(s@[j as int]) == d as int);
        }
        if acc > (u64::MAX - d) / 10 {
            proof {
                let t = s@;
                assert(digits_end(t, j as int) == digits_end(t, j + 1));
                lemma_digits_end_props(t, i as int);
                lemma_digits_end_props(t, j + 1);
                assert(j + 1 <= digits_end(t, j + 1));
                assert(digits_val(t, i as int, j + 1) == acc as int * 10 + d);
                assert(acc as int * 10 + d > u64::MAX);
                lemma_digits_val_mono(t, i as int, j + 1, digits_end(t, i as int));
            }
            return None;
        }
        acc = acc * 10 + d;
        j += 1;
    }
    if j == i {
        None
    } else {
        Some((acc, j))
    }
}

/// Consumes a decimal integer within the signed 64-bit range.
fn parse_i64(s: &str, i: usize) -> (r: Option<(i64, usize)>)
    ensures
        match r {
            Some((v, j)) => p_i64(s@, i as int) == Some((v as int, j as int)),
            None => p_i64(s@, i as int) is None,
        },
{
    let n = s.unicode_len();
    let neg = i < n && s.get_char(i) == '-';
    let j0 = if neg {
        i + 1
    } else {
        i
    };
    match parse_digits(s, j0) {
        None => {
            proof {
                if digits_end(s@, j0 as int) != j0 as int {
                    let t = s@;
                    let e = digits_end(t, j0 as int);
                    lemma_digits_end_props(t, j0 as int);
                    lemma_digits_val_nonneg(t, j0 as int, e);
                }
            }
            None
        },
        Some((m, j)) => {
            if neg {
                if m > 9223372036854775808u64 {
                    None
                } else if m == 9223372036854775808u64 {
                    Some((i64::MIN, j))
                } else {
                    Some((-(m as i64), j))
                }
            } else {
                if m > 9223372036854775807u64 {
                    None
                } else {
                    Some((m as i64, j))
                }
            }
        },
    }
}

/// Consumes a JSON string, undoing the escapes.
fn parse_string(s: &str, i: usize) -> (r: Option<(String, usize)>)
    ensures
        match r {
            Some((v, j)) => p_string(s@, i as int) == Some((v@, j as int)),
            None => p_string(s@, i as int) is None,
        },
{
    let n = s.unicode_len();
    if i >= n {
        return None;
    }
    if s.get_char(i) != '"' {
        return None;
    }
    let mut out = String::new();
    let mut j: usize = i + 1;
    proof {
        let b = p_str_body(s@, i as int + 1);
        if b is Some {
            assert(out@ + b.unwrap().0 =~= b.unwrap().0);
        }
    }
    loop
        invariant
            i + 1 <= j <= n,
            n == s@.len(),
            s@[i as int] == '"',
            p_str_body(s@, i as int + 1) == (match p_str_body(s@, j as int) {
                Some((tail, e)) => Some::<(Seq<char>, int)>((out@ + tail, e)),
                None => None::<(Seq<char>, int)>,
            }),
        decreases n - j,
    {
        if j >= n {
            return None;
        }
        let ch = s.get_char(j);
        if ch == '"' {
            proof {
                assert(p_str_body(s@, j as int) == Some((Seq::<char>::empty(), j + 1)));
                assert(out@ + Seq::<char>::empty() =~= out@);
            }
            return Some((out, j + 1));
        } else if ch == '\\' {
            if j + 1 >= n {
                return None;
            }
            let c2 = s.get_char(j + 1);
            let ghost out_pre = out@;
            if c2 == '"' {
                proof {
                    reveal_strlit("\"");
                    assert("\""@ =~= seq!['"']);
                }
                out.append("\"");
            } else if c2 == '\\' {
                proof {
                    reveal_strlit("\\");
                    assert("\\"@ =~= seq!['\\']);
                }
                out.append("\\");
            } else {
                return None;
            }
            proof {
                assert(out@ == out_pre + seq![s@[j + 1]]);
                let b2 = p_str_body(s@, j + 2);
                if b2 is Some {
                    assert(out_pre + (seq![s@[j + 1]] + b2.unwrap().0) =~= out@
                        + b2.unwrap().0);
                }
            }
            j += 2;
        } else {
            let piece = s.substring_char(j, j + 1);
            let ghost out_pre = out@;
            proof {
                assert(piece@ =~= seq![s@[j as int]]);
            }
            out.append(piece);
            proof {
                let b2 = p_str_body(s@, j + 1);
                if b2 is Some {
                    assert(out_pre + (seq![s@[j as int]] + b2.unwrap().0) =~= out@
                        + b2.unwrap().0);
                }
            }
            j += 1;
        }
    }
}

/// Consumes a JSON identifier object.
fn parse_id(s: &str, i: usize) -> (r: Option<(ID, usize)>)
    ensures
        match r {
            Some((id, j)) => p_id(s@, i as int) == Some((id, j as int)),
            None => p_id(s@, i as int) is None,
        },
{
    let i1 = match expect_lit(s, i, "{\"ns\":") {
        Some(j) => j,
        None => {
            return None;
        },
    };
    let (ns, i2) = match parse_i64(s, i1) {
        Some(p) => p,
        None => {
            return None;
        },
    };
    let i3 = match expect_lit(s, i2, ",\"ng\":") {
        Some(j) => j,
        None => {
            return None;
        },
    };
    let (ng, i4) = match parse_i64(s, i3) {
        Some(p) => p,
        None => {
            return None;
        },
    };
    let i5 = match expect_lit(s, i4, "}") {
        Some(j) => j,
        None => {
            return None;
        },
    };
    Some((ID { ns, ng }, i5))
}

/// Consumes an identifier object or `null`.
fn parse_opt_id(s: &str, i: usize) -> (r: Option<(Option<ID>, usize)>)
    ensures
        match r {
            Some((o, j)) => p_opt_id(s@, i as int) == Some((o, j as int)),
            None => p_opt_id(s@, i as int) is None,
        },
{
    match expect_lit(s, i, "null") {
        Some(j) => Some((None, j)),
        None => match parse_id(s, i) {
            Some((id, j)) => Some((Some(id), j)),
            None => None,
        },
    }
}

/// Consumes a JSON character object.
fn parse_char(s: &str, i: usize) -> (r: Option<(Character, usize)>)
    ensures
        match r {
            Some((c, j)) => p_char(s@, i as int) == Some((c@, j as int)),
            None => p_char(s@, i as int) is None,
        },
{
    let i1 = match expect_lit(s, i, "{\"id\":") {
        Some(j) => j,
        None => {
            return None;
        },
    };
    let (id, i2) = match parse_id(s, i1) {
        Some(p) => p,
        None => {
            return None;
        },
    };
    let i3 = match expect_lit(s, i2, ",\"c\":") {
        Some(j) => j,
        None => {
            return None;
        },
    };
    let (glyph, i4) = match parse_string(s, i3) {
        Some(p) => p,
        None => {
            return None;
        },
    };
    let i5 = match expect_lit(s, i4, ",\"visible\":") {
        Some(j) => j,
        None => {
            return None;
        },
    };
    let (visible, i6) = match parse_bool(s, i5) {
        Some(p) => p,
        None => {
            return None;
        },
    };
    let i7 = match expect_lit(s, i6, ",\"prev_id\":") {
        Some(j) => j,
        None => {
            return None;
        },
    };
    let (prev_id, i8) = match parse_opt_id(s, i7) {
        Some(p) => p,
        None => {
            return None;
        },
    };
    let i9 = match expect_lit(s, i8, ",\"next_id\":") {
        Some(j) => j,
        None => {
            return None;
        },
    };
    let (next_id, i10) = match parse_opt_id(s, i9) {
        Some(p) => p,
        None => {
            return None;
        },
    };
    let i11 = match expect_lit(s, i10, "}") {
        Some(j) => j,
        None => {
            return None;
        },
    };
    let c = Character { id, c: glyph, visible, prev_id, next_id };
    proof {
        assert(c@ =~= p_char(s@, i as int).unwrap().0);
    }
    Some((c, i11))
}

/// Consumes a character object or `null`.
fn parse_opt_char(s: &str, i: usize) -> (r: Option<(Option<Character>, usize)>)
    ensures
        match r {
            Some((o, j)) => p_opt_char(s@, i as int) == Some(
                (
                    match o {
                        Some(c) => Some(c@),
                        None => None,
                    },
                    j as int,
                ),
            ),
            None => p_opt_char(s@, i as int) is None,
        },
{
    match expect_lit(s, i, "null") {
        Some(j) => Some((None, j)),
        None => match parse_char(s, i) {
            Some((c, j)) => Some((Some(c), j)),
            None => None,
        },
    }
}

/// Consumes a full operation record.
fn parse_operation(s: &str, i: usize) -> (r: Option<(Operation, usize)>)
    ensures
        match r {
            Some((op, j)) => p_operation(s@, i as int) == Some((op@, j as int)),
            None => p_operation(s@, i as int) is None,
        },
{
    let i1 = match expect_lit(s, i, "{\"op\":") {
        Some(j) => j,
        None => {
            return None;
        },
    };
    let (tag, i2) = match parse_string(s, i1) {
        Some(p) => p,
        None => {
            return None;
        },
    };
    let i3 = match expect_lit(s, i2, ",\"c\":") {
        Some(j) => j,
        None => {
            return None;
        },
    };
    let (c, i4) = match parse_char(s, i3) {
        Some(p) => p,
        None => {
            return None;
        },
    };
    let i5 = match expect_lit(s, i4, ",\"arg1\":") {
        Some(j) => j,
        None => {
            return None;
        },
    };
    let (arg1, i6) = match parse_opt_char(s, i5) {
        Some(p) => p,
        None => {
            return None;
        },
    };
    let i7 = match expect_lit(s, i6, ",\"arg2\":") {
        Some(j) => j,
        None => {
            return None;
        },
    };
    let (arg2, i8) = match parse_opt_char(s, i7) {
        Some(p) => p,
        None => {
            return None;
        },
    };
    let i9 = match expect_lit(s, i8, "}") {
        Some(j) => j,
        None => {
            return None;
        },
    };
    let op = Operation { op: tag, c, arg1, arg2 };
    proof {
        assert(op@ =~= p_operation(s@, i as int).unwrap().0);
    }
    Some((op, i9))
}

/// Decodes one operation record from the front of `s`; anything that does
/// not parse is a malformed operation.
pub fn json_decode(s: &str) -> (r: Result<Operation, WootError>)
    ensures
        match r {
            Ok(op) => p_operation(s@, 0) is Some && op@ == p_operation(s@, 0).unwrap().0,
            Err(e) => e == WootError::MalformedOperation && p_operation(s@, 0) is None,
        },
{
    match parse_operation(s, 0) {
        Some((op, _)) => Ok(op),
        None => Err(WootError::MalformedOperation),
    }
}

/// A match against a concatenation splits into matches against the parts.
proof fn lemma_split(t: Seq<char>, i: int, a: Seq<char>, b: Seq<char>)
    requires
        0 <= i,
        i + a.len() + b.len() <= t.len(),
        t.subrange(i, i + a.len() + b.len()) == a + b,
    ensures
        t.subrange(i, i + a.len()) == a,
        t.subrange(i + a.len(), i + a.len() + b.len()) == b,
{
    assert forall|q: int| 0 <= q < a.len() implies t.subrange(i, i + a.len())[q] == a[q] by {
        assert(t.subrange(i, i + a.len() + b.len())[q] == t[i + q]);
    }
    assert(t.subrange(i, i + a.len()) =~= a);
    assert forall|q: int| 0 <= q < b.len() implies t.subrange(
        i + a.len(),
        i + a.len() + b.len(),
    )[q] == b[q] by {
        assert(t.subrange(i, i + a.len() + b.len())[a.len() + q] == t[i + a.len() + q]);
    }
    assert(t.subrange(i + a.len(), i + a.len() + b.len()) =~= b);
}

/// Decimal digit sequences are non-empty and hold only digits.
proof fn lemma_dec_digits_shape(n: nat)
    ensures
        dec_digits(n).len() >= 1,
        forall|k: int| 0 <= k < dec_digits(n).len() ==> is_digit(#[trigger] dec_digits(n)[k]),
    decreases n,
{
    if n >= 10 {
        lemma_dec_digits_shape(n / 10);
    }
}

/// A digit run bounded by a non-digit (or the end) ends exactly there.
proof fn lemma_digits_end_run(t: Seq<char>, a: int, b: int)
    requires
        0 <= a <= b <= t.len(),
        forall|k: int| a <= k < b ==> is_digit(t[k]),
        b == t.len() || !is_digit(t[b]),
    ensures
        digits_end(t, a) == b,
    decreases b - a,
{
    if a < b {
        lemma_digits_end_run(t, a + 1, b);
    }
}

/// Parsing the decimal digits of `n` yields `n`.
proof fn lemma_digits_val_of_dec(t: Seq<char>, i: int, n: nat)
    requires
        0 <= i,
        i + dec_digits(n).len() <= t.len(),
        t.subrange(i, i + dec_digits(n).len()) == dec_digits(n),
    ensures
        digits_val(t, i, i + dec_digits(n).len()) == n,
    decreases n,
{
    let d = dec_digits(n);
    if n < 10 {
        assert(t.subrange(i, i + d.len())[0] == t[i]);
        assert(t[i] == d[0]);
        assert(digit_val(digit_char(n as int)) == n);
        assert(digits_val(t, i, i + 1) == digits_val(t, i, i) * 10 + digit_val(t[i]));
    } else {
        let pre = dec_digits(n / 10);
        lemma_split(t, i, pre, seq![digit_char((n % 10) as int)]);
        lemma_digits_val_of_dec(t, i, n / 10);
        assert(t.subrange(i + pre.len(), i + pre.len() + 1)[0] == t[i + pre.len()]);
        assert(t[i + d.len() - 1] == digit_char((n % 10) as int));
        assert(digit_val(digit_char((n % 10) as int)) == n % 10);
    }
}

/// Parsing at an integer's encoding yields that integer, provided no digit
/// follows it.
proof fn lemma_parse_i64(t: Seq<char>, i: int, v: int)
    requires
        i64::MIN <= v <= i64::MAX,
        0 <= i,
        i + enc_i64(v).len() <= t.len(),
        t.subrange(i, i + enc_i64(v).len()) == enc_i64(v),
        i + enc_i64(v).len() == t.len() || !is_digit(t[i + enc_i64(v).len()]),
    ensures
        p_i64(t, i) == Some((v, i + enc_i64(v).len())),
{
    let e = enc_i64(v);
    if v >= 0 {
        lemma_dec_digits_shape(v as nat);
        assert(t[i] == dec_digits(v as nat)[0]);
        assert(is_digit(t[i]));
        assert(t[i] != '-');
        assert forall|k: int| i <= k < i + e.len() implies is_digit(t[k]) by {
            assert(t[k] == dec_digits(v as nat)[k - i]);
        }
        lemma_digits_end_run(t, i, i + e.len());
        lemma_digits_val_of_dec(t, i, v as nat);
    } else {
        let m = (-v) as nat;
        lemma_dec_digits_shape(m);
        lemma_split(t, i, seq!['-'], dec_digits(m));
        assert(t.subrange(i, i + 1)[0] == t[i]);
        assert(t[i] == '-');
        assert forall|k: int| i + 1 <= k < i + e.len() implies is_digit(t[k]) by {
            assert(t.subrange(i + 1, i + e.len())[k - i - 1] == t[k]);
            assert(t[k] == dec_digits(m)[k - i - 1]);
        }
        lemma_digits_end_run(t, i + 1, i + e.len());
        lemma_digits_val_of_dec(t, i + 1, m);
    }
}

/// Parsing at an escaped string body followed by its closing quote yields
/// the original string.
proof fn lemma_parse_str_body(t: Seq<char>, i: int, v: Seq<char>)
    requires
        0 <= i,
        i + esc(v).len() + 1 <= t.len(),
        t.subrange(i, i + esc(v).len() + 1) == esc(v) + seq!['"'],
    ensures
        p_str_body(t, i) == Some((v, i + esc(v).len() + 1)),
    decreases v.len(),
{
    if v.len() == 0 {
        assert(t[i] == (esc(v) + seq!['"'])[0]);
        assert(t[i] == '"');
        assert(p_str_body(t, i) == Some((Seq::<char>::empty(), i + 1)));
        assert(v =~= Seq::<char>::empty());
    } else {
        let e0 = escape_char(v[0]);
        let rest = esc(v.skip(1));
        assert(esc(v) == e0 + rest);
        assert(esc(v) + seq!['"'] =~= e0 + (rest + seq!['"']));
        lemma_split(t, i, e0, rest + seq!['"']);
        lemma_parse_str_body(t, i + e0.len(), v.skip(1));
        assert(seq![v[0]] + v.skip(1) =~= v);
        if v[0] == '"' {
            assert(t.subrange(i, i + 2)[0] == t[i] && t.subrange(i, i + 2)[1] == t[i + 1]);
            assert(t[i] == '\\' && t[i + 1] == '"');
        } else if v[0] == '\\' {
            assert(t.subrange(i, i + 2)[0] == t[i] && t.subrange(i, i + 2)[1] == t[i + 1]);
            assert(t[i] == '\\' && t[i + 1] == '\\');
        } else {
            assert(t.subrange(i, i + 1)[0] == t[i]);
            assert(t[i] == v[0]);
        }
    }
}

/// Parsing at a string's encoding yields that string.
proof fn lemma_parse_string(t: Seq<char>, i: int, v: Seq<char>)
    requires
        0 <= i,
        i + enc_string(v).len() <= t.len(),
        t.subrange(i, i + enc_string(v).len()) == enc_string(v),
    ensures
        p_string(t, i) == Some((v, i + enc_string(v).len())),
{
    assert(enc_string(v) =~= seq!['"'] + (esc(v) + seq!['"']));
    lemma_split(t, i, seq!['"'], esc(v) + seq!['"']);
    assert(t.subrange(i, i + 1)[0] == t[i]);
    assert(t[i] == '"');
    lemma_parse_str_body(t, i + 1, v);
}

/// Parsing at a boolean's encoding yields that boolean.
proof fn lemma_parse_bool(t: Seq<char>, i: int, b: bool)
    requires
        0 <= i,
        i + enc_bool(b).len() <= t.len(),
        t.subrange(i, i + enc_bool(b).len()) == enc_bool(b),
    ensures
        p_bool(t, i) == Some((b, i + enc_bool(b).len())),
{
    reveal_strlit("true");
    reveal_strlit("false");
    if b {
    } else {
        if p_lit(t, i, "true"@) is Some {
            assert(t.subrange(i, i + 4)[0] == t[i]);
            assert(t[i] == 't');
            assert(t.subrange(i, i + 5)[0] == t[i]);
            assert(t[i] == 'f');
            assert(false);
        }
    }
}

/// Parsing at an identifier object's encoding yields that identifier.
#[verifier::rlimit(50)]
proof fn lemma_parse_id(t: Seq<char>, i: int, id: ID)
    requires
        0 <= i,
        i + enc_id(id).len() <= t.len(),
        t.subrange(i, i + enc_id(id).len()) == enc_id(id),
    ensures
        p_id(t, i) == Some((id, i + enc_id(id).len())),
{
    let l1 = "{\"ns\":"@;
    let e2 = enc_i64(id.ns as int);
    let l3 = ",\"ng\":"@;
    let e4 = enc_i64(id.ng as int);
    let l5 = "}"@;
    let a4 = l1 + e2 + l3 + e4;
    lemma_split(t, i, a4, l5);
    let a3 = l1 + e2 + l3;
    lemma_split(t, i, a3, e4);
    let a2 = l1 + e2;
    lemma_split(t, i, a2, l3);
    lemma_split(t, i, l1, e2);
    reveal_strlit("{\"ns\":");
    reveal_strlit(",\"ng\":");
    reveal_strlit("}");
    let i1 = i + l1.len();
    let i2 = i1 + e2.len();
    let i3 = i2 + l3.len();
    let i4 = i3 + e4.len();
    assert(t.subrange(i2, i3)[0] == t[i2]);
    assert(t[i2] == ',');
    lemma_parse_i64(t, i1, id.ns as int);
    assert(t.subrange(i4, i4 + 1)[0] == t[i4]);
    assert(t[i4] == '}');
    lemma_parse_i64(t, i3, id.ng as int);
}

/// Parsing at an optional identifier's encoding yields that value.
proof fn lemma_parse_opt_id(t: Seq<char>, i: int, o: Option<ID>)
    requires
        0 <= i,
        i + enc_opt_id(o).len() <= t.len(),
        t.subrange(i, i + enc_opt_id(o).len()) == enc_opt_id(o),
    ensures
        p_opt_id(t, i) == Some((o, i + enc_opt_id(o).len())),
{
    reveal_strlit("null");
    match o {
        None => {},
        Some(id) => {
            if p_lit(t, i, "null"@) is Some {
                assert(t.subrange(i, i + 4)[0] == t[i]);
                assert(t[i] == 'n');
                let l1 = "{\"ns\":"@;
                let b1 = enc_i64(id.ns as int) + ",\"ng\":"@ + enc_i64(id.ng as int) + "}"@;
                assert(enc_id(id) =~= l1 + b1);
                lemma_split(t, i, l1, b1);
                reveal_strlit("{\"ns\":");
                assert(t.subrange(i, i + l1.len())[0] == t[i]);
                assert(t[i] == '{');
                assert(false);
            }
            lemma_parse_id(t, i, id);
        },
    }
}

/// Parsing at a character object's encoding yields that character.
#[verifier::rlimit(50)]
proof fn lemma_parse_char(t: Seq<char>, i: int, c: CharV)
    requires
        0 <= i,
        i + enc_char(c).len() <= t.len(),
        t.subrange(i, i + enc_char(c).len()) == enc_char(c),
    ensures
        p_char(t, i) == Some((c, i + enc_char(c).len())),
{
    let l1 = "{\"id\":"@;
    let e2 = enc_id(c.id);
    let l3 = ",\"c\":"@;
    let e4 = enc_string(c.glyph);
    let l5 = ",\"visible\":"@;
    let e6 = enc_bool(c.visible);
    let l7 = ",\"prev_id\":"@;
    let e8 = enc_opt_id(c.prev_id);
    let l9 = ",\"next_id\":"@;
    let e10 = enc_opt_id(c.next_id);
    let l11 = "}"@;
    let a10 = l1 + e2 + l3 + e4 + l5 + e6 + l7 + e8 + l9 + e10;
    lemma_split(t, i, a10, l11);
    let a9 = l1 + e2 + l3 + e4 + l5 + e6 + l7 + e8 + l9;
    lemma_split(t, i, a9, e10);
    let a8 = l1 + e2 + l3 + e4 + l5 + e6 + l7 + e8;
    lemma_split(t, i, a8, l9);
    let a7 = l1 + e2 + l3 + e4 + l5 + e6 + l7;
    lemma_split(t, i, a7, e8);
    let a6 = l1 + e2 + l3 + e4 + l5 + e6;
    lemma_split(t, i, a6, l7);
    let a5 = l1 + e2 + l3 + e4 + l5;
    lemma_split(t, i, a5, e6);
    let a4 = l1 + e2 + l3 + e4;
    lemma_split(t, i, a4, l5);
    let a3 = l1 + e2 + l3;
    lemma_split(t, i, a3, e4);
    let a2 = l1 + e2;
    lemma_split(t, i, a2, l3);
    lemma_split(t, i, l1, e2);
    let i1 = i + l1.len();
    let i2 = i1 + e2.len();
    let i3 = i2 + l3.len();
    let i4 = i3 + e4.len();
    let i5 = i4 + l5.len();
    let i6 = i5 + e6.len();
    let i7 = i6 + l7.len();
    let i8 = i7 + e8.len();
    let i9 = i8 + l9.len();
    let i10 = i9 + e10.len();
    lemma_parse_id(t, i1, c.id);
    lemma_parse_string(t, i3, c.glyph);
    lemma_parse_bool(t, i5, c.visible);
    lemma_parse_opt_id(t, i7, c.prev_id);
    lemma_parse_opt_id(t, i9, c.next_id);
}

/// Parsing at an optional character's encoding yields that value.
#[verifier::rlimit(50)]
proof fn lemma_parse_opt_char(t: Seq<char>, i: int, o: Option<CharV>)
    requires
        0 <= i,
        i + enc_opt_char(o).len() <= t.len(),
        t.subrange(i, i + enc_opt_char(o).len()) == enc_opt_char(o),
    ensures
        p_opt_char(t, i) == Some((o, i + enc_opt_char(o).len())),
{
    reveal_strlit("null");
    match o {
        None => {},
        Some(c) => {
            if p_lit(t, i, "null"@) is Some {
                assert(t.subrange(i, i + 4)[0] == t[i]);
                assert(t[i] == 'n');
                let l1 = "{\"id\":"@;
                let b1 = enc_id(c.id) + ",\"c\":"@ + enc_string(c.glyph) + ",\"visible\":"@
                    + enc_bool(c.visible) + ",\"prev_id\":"@ + enc_opt_id(c.prev_id)
                    + ",\"next_id\":"@ + enc_opt_id(c.next_id) + "}"@;
                assert(enc_char(c) =~= l1 + b1);
                lemma_split(t, i, l1, b1);
                reveal_strlit("{\"id\":");
                assert(t.subrange(i, i + l1.len())[0] == t[i]);
                assert(t[i] == '{');
                assert(false);
            }
            lemma_parse_char(t, i, c);
        },
    }
}

/// Parsing at an operation record's encoding yields that record.
#[verifier::rlimit(50)]
proof fn lemma_parse_operation(t: Seq<char>, i: int, op: OpV)
    requires
        0 <= i,
        i + enc_op(op).len() <= t.len(),
        t.subrange(i, i + enc_op(op).len()) == enc_op(op),
    ensures
        p_operation(t, i) == Some((op, i + enc_op(op).len())),
{
    let l1 = "{\"op\":"@;
    let e2 = enc_string(op.op);
    let l3 = ",\"c\":"@;
    let e4 = enc_char(op.c);
    let l5 = ",\"arg1\":"@;
    let e6 = enc_opt_char(op.arg1);
    let l7 = ",\"arg2\":"@;
    let e8 = enc_opt_char(op.arg2);
    let l9 = "}"@;
    let a8 = l1 + e2 + l3 + e4 + l5 + e6 + l7 + e8;
    lemma_split(t, i, a8, l9);
    let a7 = l1 + e2 + l3 + e4 + l5 + e6 + l7;
    lemma_split(t, i, a7, e8);
    let a6 = l1 + e2 + l3 + e4 + l5 + e6;
    lemma_split(t, i, a6, l7);
    let a5 = l1 + e2 + l3 + e4 + l5;
    lemma_split(t, i, a5, e6);
    let a4 = l1 + e2 + l3 + e4;
    lemma_split(t, i, a4, l5);
    let a3 = l1 + e2 + l3;
    lemma_split(t, i, a3, e4);
    let a2 = l1 + e2;
    lemma_split(t, i, a2, l3);
    lemma_split(t, i, l1, e2);
    let i1 = i + l1.len();
    let i2 = i1 + e2.len();
    let i3 = i2 + l3.len();
    let i4 = i3 + e4.len();
    let i5 = i4 + l5.len();
    let i6 = i5 + e6.len();
    let i7 = i6 + l7.len();
    let i8 = i7 + e8.len();
    lemma_parse_string(t, i1, op.op);
    lemma_parse_char(t, i3, op.c);
    lemma_parse_opt_char(t, i5, op.arg1);
    lemma_parse_opt_char(t, i7, op.arg2);
    assert(p_operation(t, i).unwrap().0 =~= op);
}

/// The round trip: decoding an encoded operation at its start yields exactly
/// that operation, consuming the whole encoding.
pub proof fn lemma_json_round_trip(op: OpV)
    ensures
        p_operation(enc_op(op), 0) == Some((op, enc_op(op).len() as int)),
{
    let t = enc_op(op);
    assert(t.subrange(0, t.len() as int) =~= t);
    lemma_parse_operation(t, 0, op);
}

} // verus!
