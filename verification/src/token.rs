//! The quantity token grammar: an integer or simple fraction immediately
//! followed by a short unit code, with no surrounding whitespace. The
//! grammar is `INT ('/' INT)? UNIT` with unit codes `t`, `T`, `c`, `g`,
//! `ct`, `lb`; the numbers must also fit the 64-bit representation.

use vstd::prelude::*;
use crate::quantity::{abs_i, lemma_norm, lemma_qv_norm_self, qv_fits, qv_norm, qv_wf,
    QuantityUnit, QuantityView};

verus! {

/// The ten decimal digit characters.
pub open spec fn is_digit(c: char) -> bool {
    c == '0' || c == '1' || c == '2' || c == '3' || c == '4' || c == '5' || c == '6' || c == '7'
        || c == '8' || c == '9'
}

/// Numeric value of a digit character.
pub open spec fn digit_val(c: char) -> nat {
    if c == '0' {
        0
    } else if c == '1' {
        1
    } else if c == '2' {
        2
    } else if c == '3' {
        3
    } else if c == '4' {
        4
    } else if c == '5' {
        5
    } else if c == '6' {
        6
    } else if c == '7' {
        7
    } else if c == '8' {
        8
    } else {
        9
    }
}

/// The digit character of a value below ten.
pub open spec fn digit_char(d: nat) -> char {
    if d == 0 {
        '0'
    } else if d == 1 {
        '1'
    } else if d == 2 {
        '2'
    } else if d == 3 {
        '3'
    } else if d == 4 {
        '4'
    } else if d == 5 {
        '5'
    } else if d == 6 {
        '6'
    } else if d == 7 {
        '7'
    } else if d == 8 {
        '8'
    } else {
        '9'
    }
}

/// Every character of `s` is a digit.
pub open spec fn all_digits(s: Seq<char>) -> bool {
    forall|i: int| 0 <= i < s.len() ==> is_digit(s[i])
}

/// The number a digit string denotes, most significant digit first.
pub open spec fn digits_val(s: Seq<char>) -> nat
    decreases s.len(),
{
    if s.len() == 0 {
        0
    } else {
        digits_val(s.drop_last()) * 10 + digit_val(s.last())
    }
}

/// Length of the maximal digit run at the front of `s`.
pub open spec fn digit_prefix_len(s: Seq<char>) -> int
    decreases s.len(),
{
    if s.len() == 0 || !is_digit(s[0]) {
        0
    } else {
        1 + digit_prefix_len(s.drop_first())
    }
}

/// The code a unit renders as.
pub open spec fn unit_code(u: QuantityUnit) -> Seq<char> {
    match u {
        QuantityUnit::Tablespoon => seq!['T'],
        QuantityUnit::Teaspoon => seq!['t'],
        QuantityUnit::Cup => seq!['c'],
        QuantityUnit::Gram => seq!['g'],
        QuantityUnit::Count => seq!['c', 't'],
        QuantityUnit::Pound => seq!['l', 'b'],
    }
}

/// The unit a code denotes, if any.
pub open spec fn code_unit(s: Seq<char>) -> Option<QuantityUnit> {
    if s == seq!['t'] {
        Some(QuantityUnit::Teaspoon)
    } else if s == seq!['T'] {
        Some(QuantityUnit::Tablespoon)
    } else if s == seq!['c'] {
        Some(QuantityUnit::Cup)
    } else if s == seq!['g'] {
        Some(QuantityUnit::Gram)
    } else if s == seq!['c', 't'] {
        Some(QuantityUnit::Count)
    } else if s == seq!['l', 'b'] {
        Some(QuantityUnit::Pound)
    } else {
        None
    }
}

/// Last step of parsing: the trailing unit code, and the bounds the numbers
/// must meet so the quantity fits its representation.
pub open spec fn spec_parse_finish(num: nat, den: nat, tail: Seq<char>) -> Option<QuantityView> {
    match code_unit(tail) {
        Some(u) => if num <= i64::MAX && 1 <= den <= i64::MAX {
            Some(qv_norm(num as int, den as int, u))
        } else {
            None
        },
        None => None,
    }
}

/// Parsing after the numerator: an optional `/denominator`, then the unit.
pub open spec fn spec_parse_tail(num: nat, rest: Seq<char>) -> Option<QuantityView> {
    if rest.len() > 0 && rest[0] == '/' {
        let dp = digit_prefix_len(rest.drop_first());
        if dp == 0 {
            None
        } else {
            spec_parse_finish(
                num,
                digits_val(rest.drop_first().subrange(0, dp)),
                rest.drop_first().subrange(dp, rest.drop_first().len() as int),
            )
        }
    } else {
        spec_parse_finish(num, 1, rest)
    }
}

/// What a quantity token denotes: the canonical quantity, or nothing when
/// the token does not match the grammar or its numbers do not fit.
pub open spec fn spec_parse(s: Seq<char>) -> Option<QuantityView> {
    let np = digit_prefix_len(s);
    if np == 0 {
        None
    } else {
        spec_parse_tail(digits_val(s.subrange(0, np)), s.subrange(np, s.len() as int))
    }
}

/// The decimal digit string of a number, without leading zeros.
pub open spec fn dec_digits(n: nat) -> Seq<char>
    decreases n,
{
    if n < 10 {
        seq![digit_char(n)]
    } else {
        dec_digits(n / 10).push(digit_char(n % 10))
    }
}

/// How a quantity renders: optional sign, numerator, `/denominator` unless
/// the denominator is one, then the unit code.
pub open spec fn spec_render(q: QuantityView) -> Seq<char> {
    let sign: Seq<char> = if q.num < 0 {
        seq!['-']
    } else {
        Seq::empty()
    };
    let frac: Seq<char> = if q.den == 1 {
        Seq::empty()
    } else {
        seq!['/'] + dec_digits(q.den as nat)
    };
    sign + dec_digits(abs_i(q.num)) + frac + unit_code(q.unit)
}

/// The digit string of `n` reads back as `n`.
pub proof fn lemma_dec_digits(n: nat)
    ensures
        all_digits(dec_digits(n)),
        digits_val(dec_digits(n)) == n,
        dec_digits(n).len() >= 1,
    decreases n,
{
    if n < 10 {
        assert(dec_digits(n) =~= Seq::empty().push(digit_char(n)));
        assert(dec_digits(n).drop_last() =~= Seq::<char>::empty());
        assert(digits_val(Seq::<char>::empty()) == 0);
        assert(dec_digits(n).last() == digit_char(n));
        assert(digit_val(digit_char(n)) == n);
    } else {
        lemma_dec_digits(n / 10);
        let s = dec_digits(n);
        assert(s.drop_last() =~= dec_digits(n / 10));
        assert(s.last() == digit_char(n % 10));
        assert(digits_val(s) == (n / 10) * 10 + digit_val(digit_char(n % 10)));
        assert(digit_val(digit_char(n % 10)) == n % 10);
        vstd::arithmetic::div_mod::lemma_fundamental_div_mod(n as int, 10);
    }
}

/// The digit run at the front of a digit string followed by a non-digit is
/// the whole digit string.
pub proof fn lemma_digit_prefix_of_concat(a: Seq<char>, b: Seq<char>)
    requires
        all_digits(a),
        b.len() == 0 || !is_digit(b[0]),
    ensures
        digit_prefix_len(a + b) == a.len(),
    decreases a.len(),
{
    if a.len() == 0 {
        assert(a + b =~= b);
    } else {
        assert((a + b)[0] == a[0]);
        assert((a + b).drop_first() =~= a.drop_first() + b);
        lemma_digit_prefix_of_concat(a.drop_first(), b);
    }
}

/// A parsed quantity is well formed, fits the representation, and is not
/// negative.
pub proof fn lemma_parse_wf(s: Seq<char>)
    requires
        spec_parse(s) is Some,
    ensures
        qv_wf(spec_parse(s)->Some_0),
        qv_fits(spec_parse(s)->Some_0),
        spec_parse(s)->Some_0.num >= 0,
{
    let np = digit_prefix_len(s);
    let num = digits_val(s.subrange(0, np));
    let rest = s.subrange(np, s.len() as int);
    if rest.len() > 0 && rest[0] == '/' {
        let dp = digit_prefix_len(rest.drop_first());
        let den = digits_val(rest.drop_first().subrange(0, dp));
        lemma_norm(num as int, den as int);
    } else {
        lemma_norm(num as int, 1);
    }
}

/// Rendering a parsed, hence canonical, non-negative quantity and parsing
/// it again gives the very same quantity: the round trip is exact.
pub proof fn lemma_render_parse(q: QuantityView)
    requires
        qv_wf(q),
        qv_fits(q),
        q.num >= 0,
    ensures
        spec_parse(spec_render(q)) == Some(q),
{
    let nd = dec_digits(abs_i(q.num));
    let frac: Seq<char> = if q.den == 1 {
        Seq::empty()
    } else {
        seq!['/'] + dec_digits(q.den as nat)
    };
    let tail = frac + unit_code(q.unit);
    let s = spec_render(q);
    lemma_dec_digits(abs_i(q.num));
    lemma_dec_digits(q.den as nat);
    assert(s =~= nd + tail);
    assert(!is_digit(unit_code(q.unit)[0]));
    assert(tail.len() > 0 && !is_digit(tail[0]));
    lemma_digit_prefix_of_concat(nd, tail);
    assert(digit_prefix_len(s) == nd.len());
    assert(s.subrange(0, nd.len() as int) =~= nd);
    assert(abs_i(q.num) == q.num as nat);
    let rest = s.subrange(nd.len() as int, s.len() as int);
    assert(rest =~= tail);
    lemma_qv_norm_self(q);
    if q.den == 1 {
        assert(rest =~= unit_code(q.unit));
        assert(code_unit(unit_code(q.unit)) == Some(q.unit)) by {
            lemma_unit_codes_distinct(q.unit);
        }
        assert(spec_parse_tail(q.num as nat, rest) == Some(q));
    } else {
        let dd = dec_digits(q.den as nat);
        assert(rest[0] == '/');
        assert(rest.drop_first() =~= dd + unit_code(q.unit));
        lemma_digit_prefix_of_concat(dd, unit_code(q.unit));
        let dp = digit_prefix_len(rest.drop_first());
        assert(dp == dd.len());
        assert(rest.drop_first().subrange(0, dp) =~= dd);
        assert(rest.drop_first().subrange(dp, rest.drop_first().len() as int) =~= unit_code(
            q.unit,
        ));
        assert(code_unit(unit_code(q.unit)) == Some(q.unit)) by {
            lemma_unit_codes_distinct(q.unit);
        }
        assert(spec_parse_tail(q.num as nat, rest) == Some(q));
    }
}

/// Each unit code reads back as its own unit.
proof fn lemma_unit_codes_distinct(u: QuantityUnit)
    ensures
        code_unit(unit_code(u)) == Some(u),
{
    let c = unit_code(u);
    match u {
        QuantityUnit::Tablespoon => {
            assert(c[0] == 'T' && c.len() == 1);
            assert(c != seq!['t'] && c == seq!['T']);
        },
        QuantityUnit::Teaspoon => {
            assert(c == seq!['t']);
        },
        QuantityUnit::Cup => {
            assert(c[0] == 'c' && c.len() == 1);
            assert(c != seq!['t'] && c != seq!['T'] && c == seq!['c']);
        },
        QuantityUnit::Gram => {
            assert(c[0] == 'g' && c.len() == 1);
            assert(c != seq!['t'] && c != seq!['T'] && c != seq!['c'] && c == seq!['g']);
        },
        QuantityUnit::Count => {
            assert(c.len() == 2 && c[0] == 'c' && c[1] == 't');
            assert(c != seq!['t'] && c != seq!['T'] && c != seq!['c'] && c != seq!['g']);
            assert(c == seq!['c', 't']);
        },
        QuantityUnit::Pound => {
            assert(c.len() == 2 && c[0] == 'l' && c[1] == 'b');
            assert(c != seq!['t'] && c != seq!['T'] && c != seq!['c'] && c != seq!['g']);
            assert(c != seq!['c', 't'] && c == seq!['l', 'b']);
        },
    }
}

/// Quantity tokens round-trip: a token that parses, rendered from what it
/// parsed to and parsed again, denotes the very same rational and unit.
pub proof fn lemma_parse_render_roundtrip(s: Seq<char>)
    requires
        spec_parse(s) is Some,
    ensures
        spec_parse(spec_render(spec_parse(s)->Some_0)) == spec_parse(s),
{
    lemma_parse_wf(s);
    lemma_render_parse(spec_parse(s)->Some_0);
}

/// The digit value of a character, executable.
pub fn digit_of(c: char) -> (r: Option<u8>)
    ensures
        match r {
            Some(d) => is_digit(c) && d as nat == digit_val(c) && d < 10,
            None => !is_digit(c),
        },
{
    match c {
        '0' => Some(0),
        '1' => Some(1),
        '2' => Some(2),
        '3' => Some(3),
        '4' => Some(4),
        '5' => Some(5),
        '6' => Some(6),
        '7' => Some(7),
        '8' => Some(8),
        '9' => Some(9),
        _ => None,
    }
}

/// Scan the digit run of `s` starting at `from`: report where it ends and
/// its value, or `None` for the value when it exceeds `i64::MAX`.
pub fn scan_number(s: &str, from: usize, len: usize) -> (r: (usize, Option<u64>))
    requires
        len == s@.len(),
        from <= len,
    ensures
        from <= r.0 <= len,
        r.0 - from == digit_prefix_len(s@.subrange(from as int, len as int)),
        match r.1 {
            Some(v) => v as nat == digits_val(s@.subrange(from as int, r.0 as int)) && v
                <= i64::MAX,
            None => digits_val(s@.subrange(from as int, r.0 as int)) > i64::MAX,
        },
{
    let mut i: usize = from;
    let mut val: u64 = 0;
    let mut over: bool = false;
    let mut stop: bool = false;
    while !stop && i < len
        invariant
            from <= i <= len == s@.len(),
            digit_prefix_len(s@.subrange(from as int, len as int)) == i - from
                + digit_prefix_len(s@.subrange(i as int, len as int)),
            stop ==> digit_prefix_len(s@.subrange(i as int, len as int)) == 0,
            !over ==> val as nat == digits_val(s@.subrange(from as int, i as int)) && val
                <= i64::MAX,
            over ==> digits_val(s@.subrange(from as int, i as int)) > i64::MAX,
        decreases len - i, (if stop { 0int } else { 1int }),
    {
        let c = s.get_char(i);
        proof {
            assert(s@.subrange(i as int, len as int)[0] == s@[i as int]);
        }
        match digit_of(c) {
            None => {
                stop = true;
            },
            Some(d) => {
                proof {
                    assert(s@.subrange(i as int, len as int).drop_first() =~= s@.subrange(
                        i + 1,
                        len as int,
                    ));
                    assert(s@.subrange(from as int, i + 1).drop_last() =~= s@.subrange(
                        from as int,
                        i as int,
                    ));
                    assert(s@.subrange(from as int, i + 1).last() == s@[i as int]);
                }
                let wide: u128 = (val as u128) * 10 + (d as u128);
                if over || wide > i64::MAX as u128 {
                    over = true;
                    val = 0;
                    proof {
                        let prev = digits_val(s@.subrange(from as int, i as int));
                        assert(digits_val(s@.subrange(from as int, i + 1)) == prev * 10
                            + digit_val(s@[i as int]));
                        assert(prev > i64::MAX ==> prev * 10 + digit_val(s@[i as int])
                            > i64::MAX) by (nonlinear_arith);
                    }
                } else {
                    val = wide as u64;
                }
                i += 1;
            },
        }
    }
    proof {
        if !stop {
            assert(s@.subrange(i as int, len as int).len() == 0);
            assert(digit_prefix_len(s@.subrange(i as int, len as int)) == 0);
        }
    }
    if over {
        (i, None)
    } else {
        (i, Some(val))
    }
}

/// Read the trailing unit code of `s` beginning at `from`.
pub fn read_unit(s: &str, from: usize, len: usize) -> (r: Option<QuantityUnit>)
    requires
        len == s@.len(),
        from <= len,
    ensures
        r == code_unit(s@.subrange(from as int, len as int)),
{
    let tail_len = len - from;
    let ghost t = s@.subrange(from as int, len as int);
    if tail_len == 1 {
        let c = s.get_char(from);
        proof {
            assert(t.len() == 1 && t[0] == s@[from as int]);
            assert(t =~= seq![s@[from as int]]);
        }
        match c {
            't' => Some(QuantityUnit::Teaspoon),
            'T' => Some(QuantityUnit::Tablespoon),
            'c' => Some(QuantityUnit::Cup),
            'g' => Some(QuantityUnit::Gram),
            _ => {
                proof {
                    lemma_len1_code(t);
                }
                None
            },
        }
    } else if tail_len == 2 {
        let c0 = s.get_char(from);
        let c1 = s.get_char(from + 1);
        proof {
            assert(t.len() == 2 && t[0] == s@[from as int] && t[1] == s@[from + 1]);
            assert(t =~= seq![s@[from as int], s@[from + 1]]);
            lemma_len2_code(t);
        }
        if c0 == 'c' && c1 == 't' {
            Some(QuantityUnit::Count)
        } else if c0 == 'l' && c1 == 'b' {
            Some(QuantityUnit::Pound)
        } else {
            None
        }
    } else {
        proof {
            lemma_odd_len_code(t);
        }
        None
    }
}

/// A one-character code other than the four single-letter units denotes
/// nothing.
proof fn lemma_len1_code(t: Seq<char>)
    requires
        t.len() == 1,
        t[0] != 't',
        t[0] != 'T',
        t[0] != 'c',
        t[0] != 'g',
    ensures
        code_unit(t) is None,
{
    assert(t != seq!['t'] && t != seq!['T'] && t != seq!['c'] && t != seq!['g']);
    assert(t.len() != 2);
    assert(t != seq!['c', 't'] && t != seq!['l', 'b']);
}

/// A two-character code is `ct` or `lb` or denotes nothing.
proof fn lemma_len2_code(t: Seq<char>)
    requires
        t.len() == 2,
    ensures
        t[0] == 'c' && t[1] == 't' ==> code_unit(t) == Some(QuantityUnit::Count),
        t[0] == 'l' && t[1] == 'b' ==> code_unit(t) == Some(QuantityUnit::Pound),
        !(t[0] == 'c' && t[1] == 't') && !(t[0] == 'l' && t[1] == 'b') ==> code_unit(t) is None,
{
    assert(t != seq!['t'] && t != seq!['T'] && t != seq!['c'] && t != seq!['g']);
    if t[0] == 'c' && t[1] == 't' {
        assert(t =~= seq!['c', 't']);
    } else if t[0] == 'l' && t[1] == 'b' {
        assert(t =~= seq!['l', 'b']);
    } else {
        assert(t != seq!['c', 't'] && t != seq!['l', 'b']);
    }
}

/// A code that is empty or longer than two characters denotes nothing.
proof fn lemma_odd_len_code(t: Seq<char>)
    requires
        t.len() == 0 || t.len() > 2,
    ensures
        code_unit(t) is None,
{
    assert(t != seq!['t'] && t != seq!['T'] && t != seq!['c'] && t != seq!['g']);
    assert(t != seq!['c', 't'] && t != seq!['l', 'b']);
}

/// The code a unit renders as, executable.
pub fn unit_str(u: QuantityUnit) -> (s: &'static str)
    ensures
        s@ == unit_code(u),
{
    proof {
        reveal_strlit("T");
        reveal_strlit("t");
        reveal_strlit("c");
        reveal_strlit("g");
        reveal_strlit("ct");
        reveal_strlit("lb");
        assert("T"@ =~= seq!['T']);
        assert("t"@ =~= seq!['t']);
        assert("c"@ =~= seq!['c']);
        assert("g"@ =~= seq!['g']);
        assert("ct"@ =~= seq!['c', 't']);
        assert("lb"@ =~= seq!['l', 'b']);
    }
    match u {
        QuantityUnit::Tablespoon => "T",
        QuantityUnit::Teaspoon => "t",
        QuantityUnit::Cup => "c",
        QuantityUnit::Gram => "g",
        QuantityUnit::Count => "ct",
        QuantityUnit::Pound => "lb",
    }
}

/// Append the digit character of a value below ten.
pub fn append_digit(out: &mut String, d: u64)
    requires
        d < 10,
    ensures
        final(out)@ == old(out)@ + seq![digit_char(d as nat)],
{
    proof {
        reveal_strlit("0");
        reveal_strlit("1");
        reveal_strlit("2");
        reveal_strlit("3");
        reveal_strlit("4");
        reveal_strlit("5");
        reveal_strlit("6");
        reveal_strlit("7");
        reveal_strlit("8");
        reveal_strlit("9");
    }
    let s: &str = if d == 0 {
        "0"
    } else if d == 1 {
        "1"
    } else if d == 2 {
        "2"
    } else if d == 3 {
        "3"
    } else if d == 4 {
        "4"
    } else if d == 5 {
        "5"
    } else if d == 6 {
        "6"
    } else if d == 7 {
        "7"
    } else if d == 8 {
        "8"
    } else {
        "9"
    };
    proof {
        assert(s@ =~= seq![digit_char(d as nat)]);
    }
    out.append(s);
}

/// Append the decimal digit string of a number.
pub fn push_digits(n: u64, out: &mut String)
    ensures
        final(out)@ == old(out)@ + dec_digits(n as nat),
    decreases n,
{
    if n >= 10 {
        push_digits(n / 10, out);
        append_digit(out, n % 10);
        proof {
            assert(dec_digits((n / 10) as nat) == dec_digits(n as nat / 10));
            assert(out@ =~= old(out)@ + dec_digits(n as nat));
        }
    } else {
        append_digit(out, n);
        proof {
            assert(out@ =~= old(out)@ + dec_digits(n as nat));
        }
    }
}

} // verus!
