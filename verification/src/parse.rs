//! Tolerant parsing of provider candle rows.
//!
//! The wire format delivers each candle as a fixed-position array whose
//! numeric fields may arrive either as native numbers or as numeric
//! strings; both are accepted, and a field that fails to parse falls back
//! to zero instead of aborting the page.

use vstd::prelude::*;
use vstd::string::StrSliceExecFns;
use crate::num::{SCALE, VAL_LIMIT};

verus! {

/// One wire field of a candle row.
#[derive(Clone, Debug)]
pub enum RawField {
    /// A native JSON number, carried as its decimal text.
    Number(String),
    /// A string field.
    Text(String),
    /// Any other shape (null, object, array, boolean).
    Other,
}

/// An ASCII decimal digit.
pub open spec fn is_digit(c: char) -> bool {
    '0' <= c && c <= '9'
}

/// Numeric value of a digit character.
pub open spec fn digit_val(c: char) -> int {
    c as int - '0' as int
}

/// Every character is a digit.
pub open spec fn all_digits(s: Seq<char>) -> bool {
    forall|i: int| 0 <= i < s.len() ==> is_digit(#[trigger] s[i])
}

/// Value of a digit string, most significant first.
pub open spec fn digits_val(s: Seq<char>) -> int
    decreases s.len(),
{
    if s.len() == 0 {
        0
    } else {
        digits_val(s.drop_last()) * 10 + digit_val(s.last())
    }
}

/// Powers of ten.
pub open spec fn pow10(n: nat) -> int
    decreases n,
{
    if n == 0 {
        1
    } else {
        10 * pow10((n - 1) as nat)
    }
}

/// A digit string has a non-negative value.
pub proof fn lemma_digits_val_nonneg(s: Seq<char>)
    requires
        all_digits(s),
    ensures
        0 <= digits_val(s),
    decreases s.len(),
{
    if s.len() > 0 {
        lemma_digits_val_nonneg(s.drop_last());
        assert(digits_val(s.drop_last()) * 10 >= 0) by (nonlinear_arith)
            requires
                digits_val(s.drop_last()) >= 0,
        {}
    }
}

/// Powers of ten are positive.
pub proof fn lemma_pow10_pos(n: nat)
    ensures
        pow10(n) >= 1,
    decreases n,
{
    if n > 0 {
        lemma_pow10_pos((n - 1) as nat);
    }
}

/// A digit string of length `l` has value below `10^l`.
pub proof fn lemma_digits_val_upper(s: Seq<char>)
    requires
        all_digits(s),
    ensures
        digits_val(s) < pow10(s.len()),
    decreases s.len(),
{
    if s.len() == 0 {
    } else {
        lemma_digits_val_upper(s.drop_last());
        let p = pow10((s.len() - 1) as nat);
        lemma_pow10_pos((s.len() - 1) as nat);
        assert(digits_val(s.drop_last()) * 10 + digit_val(s.last()) < 10 * p) by (nonlinear_arith)
            requires
                digits_val(s.drop_last()) < p,
                digit_val(s.last()) <= 9,
                0 < p,
        {}
    }
}

/// Extending a digit string on the right never shrinks its value.
pub proof fn lemma_digits_val_prefix_le(s: Seq<char>, k: int)
    requires
        all_digits(s),
        0 <= k <= s.len(),
    ensures
        digits_val(s.take(k)) <= digits_val(s),
    decreases s.len() - k,
{
    if k < s.len() {
        lemma_digits_val_prefix_le(s, k + 1);
        assert(s.take(k + 1).drop_last() =~= s.take(k));
        assert(s.take(k + 1).last() == s[k]);
        assert(is_digit(s[k]));
        lemma_digits_val_nonneg(s.take(k));
        assert(digits_val(s.take(k)) * 10 + digit_val(s[k]) >= digits_val(s.take(k)))
            by (nonlinear_arith)
            requires
                digits_val(s.take(k)) >= 0,
                digit_val(s[k]) >= 0,
        {}
    } else {
        assert(s.take(k) =~= s);
    }
}

/// The fractional digits weighted to eight places: the first eight digits
/// of `fp`, padded with zeros on the right.
pub open spec fn frac_val(fp: Seq<char>) -> int {
    digits_val(pad8(fp))
}

/// The first eight characters, padded with `'0'` to length eight.
pub open spec fn pad8(fp: Seq<char>) -> Seq<char> {
    if fp.len() >= 8 {
        fp.take(8)
    } else {
        fp + Seq::new((8 - fp.len()) as nat, |i: int| '0')
    }
}

/// The eight weighted fractional digits stay below one whole unit.
pub proof fn lemma_frac_val_bounds(fp: Seq<char>)
    requires
        all_digits(fp),
    ensures
        0 <= frac_val(fp) < SCALE,
{
    assert(all_digits(pad8(fp)));
    assert(pad8(fp).len() == 8);
    lemma_digits_val_upper(pad8(fp));
    lemma_digits_val_nonneg(pad8(fp));
    assert(pow10(0) == 1);
    assert(pow10(1) == 10);
    assert(pow10(2) == 100);
    assert(pow10(3) == 1000);
    assert(pow10(4) == 10000);
    assert(pow10(5) == 100000);
    assert(pow10(6) == 1000000);
    assert(pow10(7) == 10000000);
    assert(pow10(8) == 100000000);
}

/// Index of the first `'.'` in `s`, or `s.len()` when there is none.
pub open spec fn dot_index(s: Seq<char>) -> int
    decreases s.len(),
{
    if s.len() == 0 {
        0
    } else if s[0] == '.' {
        0
    } else {
        1 + dot_index(s.drop_first())
    }
}

/// `dot_index` names the first dot: everything before it is not a dot,
/// and the index carries a dot unless it is the length.
pub proof fn lemma_dot_index(s: Seq<char>)
    ensures
        0 <= dot_index(s) <= s.len(),
        forall|i: int| 0 <= i < dot_index(s) ==> s[i] != '.',
        dot_index(s) < s.len() ==> s[dot_index(s)] == '.',
    decreases s.len(),
{
    if s.len() == 0 {
    } else if s[0] == '.' {
    } else {
        lemma_dot_index(s.drop_first());
        assert(forall|i: int| 1 <= i < dot_index(s) ==> s[i] == s.drop_first()[i - 1]);
        if dot_index(s) < s.len() {
            assert(s[dot_index(s)] == s.drop_first()[dot_index(s) - 1]);
        }
    }
}

/// The fixed-point value of a decimal literal: an optional leading minus,
/// one or more integer digits, optionally a dot and one or more
/// fractional digits (of which the first eight places count). `None` when
/// the text has any other shape or the magnitude exceeds `VAL_LIMIT`.
pub open spec fn spec_parse_fixed(s: Seq<char>) -> Option<int> {
    let neg = s.len() >= 1 && s[0] == '-';
    let body = if neg {
        s.drop_first()
    } else {
        s
    };
    let d = dot_index(body);
    let ip = body.take(d);
    let rest = body.skip(d);
    let fp = if rest.len() >= 1 {
        rest.drop_first()
    } else {
        rest
    };
    if ip.len() >= 1 && all_digits(ip) && (rest.len() == 0 || (rest.len() >= 2 && all_digits(fp)))
        && digits_val(ip) * (SCALE as int) + frac_val(fp) <= VAL_LIMIT {
        let mag = digits_val(ip) * (SCALE as int) + frac_val(fp);
        if neg {
            Option::Some(-mag)
        } else {
            Option::Some(mag)
        }
    } else {
        Option::None
    }
}

/// The value of a whole-number literal: one or more digits, no sign, no
/// dot; `None` on any other shape or past the `u64` range.
pub open spec fn spec_parse_u64(s: Seq<char>) -> Option<int> {
    if s.len() >= 1 && all_digits(s) && digits_val(s) <= u64::MAX {
        Option::Some(digits_val(s))
    } else {
        Option::None
    }
}

/// The characters of a string slice, in order.
pub fn chars_vec(s: &str) -> (r: Vec<char>)
    ensures
        r@ == s@,
{
    let n = s.unicode_len();
    let mut r: Vec<char> = Vec::new();
    let mut i: usize = 0;
    while i < n
        invariant
            i <= n,
            n == s@.len(),
            r@ == s@.take(i as int),
        decreases n - i,
    {
        r.push(s.get_char(i));
        proof {
            assert(r@ =~= s@.take(i as int + 1));
        }
        i = i + 1;
    }
    proof {
        assert(s@.take(n as int) =~= s@);
    }
    r
}

/// Value of the digit run `cs[from..to]`, with early exit once the value
/// can no longer stay within `cap`.
fn digits_value_capped(cs: &Vec<char>, from: usize, to: usize, cap: u64) -> (r: Option<u64>)
    requires
        from <= to <= cs@.len(),
        forall|i: int| from <= i < to ==> is_digit(#[trigger] cs@[i]),
    ensures
        match r {
            Option::Some(v) => v as int == digits_val(cs@.subrange(from as int, to as int)) && v
                <= cap,
            Option::None => digits_val(cs@.subrange(from as int, to as int)) > cap,
        },
{
    let ghost digits = cs@.subrange(from as int, to as int);
    proof {
        assert(all_digits(digits));
        assert(digits.take(0) =~= Seq::<char>::empty());
    }
    let mut acc: u64 = 0;
    let mut i = from;
    while i < to
        invariant
            from <= i <= to <= cs@.len(),
            digits == cs@.subrange(from as int, to as int),
            all_digits(digits),
            forall|j: int| from <= j < to ==> is_digit(#[trigger] cs@[j]),
            acc as int == digits_val(digits.take(i - from)),
            acc <= cap,
        decreases to - i,
    {
        let c = cs[i];
        proof {
            assert(cs@[i as int] == digits[i - from]);
            assert(digits.take(i - from + 1).drop_last() =~= digits.take(i - from));
            assert(digits.take(i - from + 1).last() == digits[i - from]);
        }
        let d: u64 = (c as u32 - '0' as u32) as u64;
        let wide: u128 = (acc as u128) * 10 + (d as u128);
        if wide > cap as u128 {
            proof {
                lemma_digits_val_prefix_le(digits, i - from + 1);
            }
            return None;
        }
        acc = wide as u64;
        i = i + 1;
    }
    proof {
        assert(digits.take(to - from) =~= digits);
    }
    Some(acc)
}

/// Parse a decimal literal to a fixed-point value, exactly as
/// `spec_parse_fixed` defines it.
pub fn parse_fixed(s: &str) -> (r: Option<i64>)
    ensures
        match r {
            Option::Some(v) => spec_parse_fixed(s@) == Option::Some(v as int) && -VAL_LIMIT <= v
                <= VAL_LIMIT,
            Option::None => spec_parse_fixed(s@) is None,
        },
{
    let cs = chars_vec(s);
    let n = cs.len();
    let neg = n >= 1 && cs[0] == '-';
    let start: usize = if neg {
        1
    } else {
        0
    };
    let ghost body = if neg {
        s@.drop_first()
    } else {
        s@
    };
    proof {
        assert(body =~= cs@.subrange(start as int, n as int));
        lemma_dot_index(body);
    }
    // First dot at or after the start.
    let mut dot: usize = start;
    while dot < n && cs[dot] != '.'
        invariant
            start <= dot <= n,
            n == cs@.len(),
            body == cs@.subrange(start as int, n as int),
            forall|j: int| start <= j < dot ==> cs@[j] != '.',
        decreases n - dot,
    {
        dot = dot + 1;
    }
    proof {
        if dot < n {
            assert(dot_index(body) == dot - start) by {
                assert(body[dot - start] == '.');
                assert(forall|k: int| 0 <= k < dot - start ==> body[k] != '.');
                if dot_index(body) < dot - start {
                    assert(body[dot_index(body)] == '.');
                }
            }
        } else {
            assert(dot_index(body) == body.len()) by {
                if dot_index(body) < body.len() {
                    assert(body[dot_index(body)] == '.');
                    assert(cs@[dot_index(body) + start] == '.');
                }
            }
        }
    }
    let ghost d = dot_index(body);
    let ghost ip = body.take(d);
    let ghost rest = body.skip(d);
    let ghost fp = if rest.len() >= 1 {
        rest.drop_first()
    } else {
        rest
    };
    let frac_start: usize = if dot < n {
        dot + 1
    } else {
        n
    };
    proof {
        assert(ip =~= cs@.subrange(start as int, dot as int));
        assert(fp =~= cs@.subrange(frac_start as int, n as int));
    }
    if dot == start {
        // No integer digits.
        return None;
    }
    // Integer digits.
    let mut i = start;
    while i < dot
        invariant
            start <= i <= dot <= n,
            n == cs@.len(),
            cs@ == s@,
            neg == (s@.len() >= 1 && s@[0] == '-'),
            start == if neg { 1int } else { 0int },
            body == (if neg { s@.drop_first() } else { s@ }),
            d == dot_index(body),
            d == dot - start,
            ip == body.take(d),
            rest == body.skip(d),
            fp == (if rest.len() >= 1 { rest.drop_first() } else { rest }),
            ip == cs@.subrange(start as int, dot as int),
            forall|j: int| start <= j < i ==> is_digit(#[trigger] cs@[j]),
        decreases dot - i,
    {
        let c = cs[i];
        if !(c >= '0' && c <= '9') {
            proof {
                assert(ip[i - start] == cs@[i as int]);
                assert(!all_digits(ip));
            }
            return None;
        }
        i = i + 1;
    }
    proof {
        assert(all_digits(ip)) by {
            assert(forall|k: int| 0 <= k < ip.len() ==> ip[k] == cs@[k + start]);
        }
    }
    // Fractional digits, if a dot is present.
    if dot < n {
        if frac_start >= n {
            // A dot with nothing after it.
            proof {
                assert(rest.len() == 1);
            }
            return None;
        }
        let mut j = frac_start;
        while j < n
            invariant
                frac_start <= j <= n,
                n == cs@.len(),
                dot < n,
                frac_start == dot + 1,
                cs@ == s@,
                neg == (s@.len() >= 1 && s@[0] == '-'),
                start == if neg { 1int } else { 0int },
                body == (if neg { s@.drop_first() } else { s@ }),
                d == dot_index(body),
                d == dot - start,
                ip == body.take(d),
                rest == body.skip(d),
                fp == (if rest.len() >= 1 { rest.drop_first() } else { rest }),
                fp == cs@.subrange(frac_start as int, n as int),
                forall|k: int| frac_start <= k < j ==> is_digit(#[trigger] cs@[k]),
            decreases n - j,
        {
            let c = cs[j];
            if !(c >= '0' && c <= '9') {
                proof {
                    assert(fp[j - frac_start] == cs@[j as int]);
                    assert(!all_digits(fp));
                    assert(rest.len() >= 1);
                }
                return None;
            }
            j = j + 1;
        }
        proof {
            assert(all_digits(fp)) by {
                assert(forall|k: int| 0 <= k < fp.len() ==> fp[k] == cs@[k + frac_start]);
            }
            assert(rest.len() >= 2);
        }
    } else {
        proof {
            assert(rest.len() == 0);
            assert(fp.len() == 0);
            assert(all_digits(fp));
        }
    }
    proof {
        lemma_frac_val_bounds(fp);
        lemma_digits_val_nonneg(ip);
    }
    // Integer part, bailing out beyond the representable range.
    let ipv = match digits_value_capped(&cs, start, dot, 10_000_000) {
        Some(v) => v,
        None => {
            proof {
                assert(digits_val(ip) * (SCALE as int) > VAL_LIMIT) by (nonlinear_arith)
                    requires
                        digits_val(ip) > 10_000_000,
                {}
            }
            return None;
        },
    };
    // Fractional part: the first eight digit places, padded with zeros.
    let ghost padded = pad8(fp);
    proof {
        assert(padded.len() == 8);
        assert(all_digits(padded));
        assert(padded.take(0) =~= Seq::<char>::empty());
        assert(forall|t: int|
            0 <= t < 8 ==> #[trigger] padded[t] == if t < fp.len() {
                fp[t]
            } else {
                '0'
            });
    }
    let mut fv: u64 = 0;
    let mut k: usize = 0;
    while k < 8
        invariant
            k <= 8,
            n == cs@.len(),
            frac_start <= n,
            fp == cs@.subrange(frac_start as int, n as int),
            all_digits(fp),
            all_digits(padded),
            padded == pad8(fp),
            padded.len() == 8,
            forall|t: int|
                0 <= t < 8 ==> #[trigger] padded[t] == if t < fp.len() {
                    fp[t]
                } else {
                    '0'
                },
            fv as int == digits_val(padded.take(k as int)),
            0 <= fv <= 99_999_999,
        decreases 8 - k,
    {
        let d8: u64 = if k < n - frac_start {
            let c = cs[frac_start + k];
            proof {
                assert(fp[k as int] == cs@[frac_start + k]);
                assert(is_digit(fp[k as int]));
            }
            (c as u32 - '0' as u32) as u64
        } else {
            0
        };
        proof {
            assert(padded.take(k as int + 1).drop_last() =~= padded.take(k as int));
            assert(padded.take(k as int + 1).last() == padded[k as int]);
            assert(digit_val(padded[k as int]) == d8 as int);
            lemma_digits_val_upper(padded.take(k as int + 1));
            assert(pow10(0) == 1);
            assert(pow10(1) == 10);
            assert(pow10(2) == 100);
            assert(pow10(3) == 1000);
            assert(pow10(4) == 10000);
            assert(pow10(5) == 100000);
            assert(pow10(6) == 1000000);
            assert(pow10(7) == 10000000);
            assert(pow10(8) == 100000000);
            assert(pow10(padded.take(k as int + 1).len()) <= 100000000);
        }
        fv = fv * 10 + d8;
        k = k + 1;
    }
    proof {
        assert(padded.take(8) =~= padded);
        assert(fv as int == frac_val(fp));
    }
    let mag: u64 = ipv * (SCALE as u64) + fv;
    proof {
        assert(mag as int == digits_val(ip) * (SCALE as int) + frac_val(fp)) by (nonlinear_arith)
            requires
                mag as int == ipv as int * (SCALE as int) + fv as int,
                ipv as int == digits_val(ip),
                fv as int == frac_val(fp),
        {}
    }
    if mag > VAL_LIMIT as u64 {
        return None;
    }
    if neg {
        Some(-(mag as i64))
    } else {
        Some(mag as i64)
    }
}

/// Parse a whole-number literal, exactly as `spec_parse_u64` defines it.
pub fn parse_u64(s: &str) -> (r: Option<u64>)
    ensures
        match r {
            Option::Some(v) => spec_parse_u64(s@) == Option::Some(v as int),
            Option::None => spec_parse_u64(s@) is None,
        },
{
    let cs = chars_vec(s);
    let n = cs.len();
    if n == 0 {
        return None;
    }
    let mut i: usize = 0;
    while i < n
        invariant
            i <= n,
            n == cs@.len(),
            cs@ == s@,
            forall|j: int| 0 <= j < i ==> is_digit(#[trigger] cs@[j]),
        decreases n - i,
    {
        let c = cs[i];
        if !(c >= '0' && c <= '9') {
            return None;
        }
        i = i + 1;
    }
    proof {
        assert(cs@.subrange(0, n as int) =~= cs@);
    }
    match digits_value_capped(&cs, 0, n, u64::MAX) {
        Some(v) => Some(v),
        None => None,
    }
}

} // verus!

verus! {

/// A provider field as a fixed-point value: numeric strings and native
/// numbers both parse by the decimal grammar; any other shape, and any
/// value outside the representable range, falls back to zero rather than
/// aborting the page.
pub open spec fn spec_field_fixed(f: RawField) -> int {
    match f {
        RawField::Number(s) => match spec_parse_fixed(s@) {
            Option::Some(v) => v,
            Option::None => 0,
        },
        RawField::Text(s) => match spec_parse_fixed(s@) {
            Option::Some(v) => v,
            Option::None => 0,
        },
        RawField::Other => 0,
    }
}

/// A provider time field as epoch milliseconds: a whole number, as a
/// native number or a numeric string; anything else falls back to zero.
pub open spec fn spec_field_u64(f: RawField) -> int {
    match f {
        RawField::Number(s) => match spec_parse_u64(s@) {
            Option::Some(v) => v,
            Option::None => 0,
        },
        RawField::Text(s) => match spec_parse_u64(s@) {
            Option::Some(v) => v,
            Option::None => 0,
        },
        RawField::Other => 0,
    }
}

/// Parse one price or volume field, falling back to zero.
pub fn field_to_fixed(f: &RawField) -> (r: i64)
    ensures
        r as int == spec_field_fixed(*f),
        -VAL_LIMIT <= r <= VAL_LIMIT,
{
    match f {
        RawField::Number(s) => match parse_fixed(s.as_str()) {
            Some(v) => v,
            None => 0,
        },
        RawField::Text(s) => match parse_fixed(s.as_str()) {
            Some(v) => v,
            None => 0,
        },
        RawField::Other => 0,
    }
}

/// Parse one time field, falling back to zero.
pub fn field_to_u64(f: &RawField) -> (r: u64)
    ensures
        r as int == spec_field_u64(*f),
{
    match f {
        RawField::Number(s) => match parse_u64(s.as_str()) {
            Some(v) => v,
            None => 0,
        },
        RawField::Text(s) => match parse_u64(s.as_str()) {
            Some(v) => v,
            None => 0,
        },
        RawField::Other => 0,
    }
}

/// The candle a row of at least six fields denotes: open time, open,
/// high, low, close, volume in fixed positions.
pub open spec fn row_candle(row: Seq<RawField>) -> crate::candle::Candle
    recommends
        row.len() >= 6,
{
    crate::candle::Candle {
        open_time: spec_field_u64(row[0]) as u64,
        open: spec_field_fixed(row[1]) as i64,
        high: spec_field_fixed(row[2]) as i64,
        low: spec_field_fixed(row[3]) as i64,
        close: spec_field_fixed(row[4]) as i64,
        volume: spec_field_fixed(row[5]) as i64,
    }
}

/// The candles of a page: rows in order, skipping rows shorter than six
/// fields.
pub open spec fn rows_candles(rows: Seq<Vec<RawField>>) -> Seq<crate::candle::Candle>
    decreases rows.len(),
{
    if rows.len() == 0 {
        Seq::empty()
    } else {
        let rest = rows_candles(rows.drop_last());
        if rows.last()@.len() >= 6 {
            rest.push(row_candle(rows.last()@))
        } else {
            rest
        }
    }
}

/// Convert one page of provider rows into candles, keeping field order
/// and skipping malformed short rows.
pub fn convert_rows(rows: &Vec<Vec<RawField>>) -> (out: Vec<crate::candle::Candle>)
    ensures
        out@ == rows_candles(rows@),
        out@.len() <= rows@.len(),
        crate::candle::all_wf(out@),
{
    let mut out: Vec<crate::candle::Candle> = Vec::new();
    let mut i: usize = 0;
    while i < rows.len()
        invariant
            i <= rows@.len(),
            out@ == rows_candles(rows@.take(i as int)),
            out@.len() <= i,
            crate::candle::all_wf(out@),
        decreases rows@.len() - i,
    {
        proof {
            assert(rows@.take(i as int + 1).drop_last() =~= rows@.take(i as int));
            assert(rows@.take(i as int + 1).last() == rows@[i as int]);
        }
        let row = &rows[i];
        if row.len() >= 6 {
            let c = crate::candle::Candle {
                open_time: field_to_u64(&row[0]),
                open: field_to_fixed(&row[1]),
                high: field_to_fixed(&row[2]),
                low: field_to_fixed(&row[3]),
                close: field_to_fixed(&row[4]),
                volume: field_to_fixed(&row[5]),
            };
            out.push(c);
        }
        i = i + 1;
    }
    proof {
        assert(rows@.take(rows@.len() as int) =~= rows@);
    }
    out
}

/// The close time a page hands pagination: field six of the last row, or
/// `None` when the page is empty or its last row is too short to carry
/// one.
pub open spec fn spec_last_close_time(rows: Seq<Vec<RawField>>) -> Option<u64> {
    if rows.len() >= 1 && rows.last()@.len() > 6 {
        Option::Some(spec_field_u64(rows.last()@[6]) as u64)
    } else {
        Option::None
    }
}

/// Close time of a page's last row, for the pagination cursor.
pub fn last_close_time(rows: &Vec<Vec<RawField>>) -> (r: Option<u64>)
    ensures
        r == spec_last_close_time(rows@),
{
    if rows.len() == 0 {
        return None;
    }
    let row = &rows[rows.len() - 1];
    if row.len() > 6 {
        Some(field_to_u64(&row[6]))
    } else {
        None
    }
}

} // verus!
