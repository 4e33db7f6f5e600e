//! Verified text utilities: decimal rendering of fixed-point values,
//! substring search, trimming, and size-bounded chunking of delivery
//! text.

use vstd::prelude::*;
use vstd::string::{StrSliceExecFns, StringExecFns};
use crate::num::SCALE;

verus! {

/// The digit character for a value in `0..=9`.
pub open spec fn digit_char(d: int) -> char {
    if d == 0 {
        '0'
    } else if d == 1 {
        '1'
    } else if d == 2 {
        '2'
    } else if d == 3 {
        '3'
    } else if d == 4 {
        '4'
    } else if d == 5 {
        '5'
    } else if d == 6 {
        '6'
    } else if d == 7 {
        '7'
    } else if d == 8 {
        '8'
    } else {
        '9'
    }
}

/// Decimal digits of a non-negative integer, most significant first.
pub open spec fn dec_digits(v: int) -> Seq<char>
    decreases v,
{
    if v < 10 {
        seq![digit_char(v)]
    } else {
        dec_digits(v / 10).push(digit_char(v % 10))
    }
}

/// Append one digit character.
fn push_digit(out: &mut String, d: u64)
    requires
        d <= 9,
    ensures
        final(out)@ == old(out)@ + seq![digit_char(d as int)],
{
    proof {
        reveal_strlit("0");
        reveal_strlit("1");
        reveal_strlit("2");
        reveal_strlit("3");
        reveal_strlit("4");
        reveal_strlit("5");
        reveal_strlit("6");
        reveal_strlit("7");
        reveal_strlit("8");
        reveal_strlit("9");
    }
    if d == 0 {
        out.append("0");
    } else if d == 1 {
        out.append("1");
    } else if d == 2 {
        out.append("2");
    } else if d == 3 {
        out.append("3");
    } else if d == 4 {
        out.append("4");
    } else if d == 5 {
        out.append("5");
    } else if d == 6 {
        out.append("6");
    } else if d == 7 {
        out.append("7");
    } else if d == 8 {
        out.append("8");
    } else {
        out.append("9");
    }
    proof {
        assert(final(out)@ =~= old(out)@ + seq![digit_char(d as int)]);
    }
}

/// Append the decimal digits of `v`.
fn append_u128(out: &mut String, v: u128)
    ensures
        final(out)@ == old(out)@ + dec_digits(v as int),
    decreases v,
{
    if v < 10 {
        push_digit(out, v as u64);
    } else {
        append_u128(out, v / 10);
        push_digit(out, (v % 10) as u64);
        proof {
            assert(final(out)@ =~= old(out)@ + dec_digits(v as int));
        }
    }
}

/// Render a non-negative integer in decimal.
pub fn fmt_u64(v: u64) -> (r: String)
    ensures
        r@ == dec_digits(v as int),
{
    let mut out = String::new();
    append_u128(&mut out, v as u128);
    proof {
        assert(out@ =~= dec_digits(v as int));
    }
    out
}

/// The rendering of a fixed-point value with two decimal places,
/// truncated toward zero: sign, whole units, a dot, and two digits.
pub open spec fn spec_fmt_fixed2(v: int) -> Seq<char> {
    let mag = if v < 0 {
        -v
    } else {
        v
    };
    let units = mag / (SCALE as int);
    let cents = (mag % (SCALE as int)) / 1_000_000;
    let body = dec_digits(units) + seq!['.'] + seq![digit_char(cents / 10)] + seq![
        digit_char(cents % 10),
    ];
    if v < 0 {
        seq!['-'] + body
    } else {
        body
    }
}

/// Render a wide fixed-point value with two decimal places.
pub fn fmt_fixed2_wide(v: i128) -> (r: String)
    ensures
        r@ == spec_fmt_fixed2(v as int),
{
    let mut out = String::new();
    proof {
        reveal_strlit("-");
        reveal_strlit(".");
    }
    let mag: u128 = if v < 0 {
        out.append("-");
        if v == i128::MIN {
            0x8000_0000_0000_0000_0000_0000_0000_0000u128
        } else {
            (-v) as u128
        }
    } else {
        v as u128
    };
    let units: u128 = mag / (SCALE as u128);
    let cents: u64 = ((mag % (SCALE as u128)) / 1_000_000) as u64;
    append_u128(&mut out, units);
    out.append(".");
    push_digit(&mut out, cents / 10);
    push_digit(&mut out, cents % 10);
    proof {
        assert(out@ =~= spec_fmt_fixed2(v as int));
    }
    out
}

/// Render a fixed-point value with two decimal places.
pub fn fmt_fixed2(v: i64) -> (r: String)
    ensures
        r@ == spec_fmt_fixed2(v as int),
{
    fmt_fixed2_wide(v as i128)
}

/// First index at or after `i` where `pat` occurs in `hay`, or `-1`.
pub open spec fn find_from(hay: Seq<char>, pat: Seq<char>, i: int) -> int
    recommends
        0 <= i,
    decreases hay.len() - i + 1,
{
    if i < 0 || i + pat.len() > hay.len() {
        -1
    } else if hay.subrange(i, i + pat.len()) == pat {
        i
    } else {
        find_from(hay, pat, i + 1)
    }
}

/// What `find_from` names: a real occurrence, before which there is none.
pub proof fn lemma_find_from(hay: Seq<char>, pat: Seq<char>, i: int)
    requires
        0 <= i,
    ensures
        find_from(hay, pat, i) == -1 || (i <= find_from(hay, pat, i) && find_from(hay, pat, i)
            + pat.len() <= hay.len() && hay.subrange(
            find_from(hay, pat, i),
            find_from(hay, pat, i) + pat.len(),
        ) == pat),
    decreases hay.len() - i + 1,
{
    if i + pat.len() > hay.len() {
    } else if hay.subrange(i, i + pat.len()) == pat {
    } else {
        lemma_find_from(hay, pat, i + 1);
    }
}

/// Find the first occurrence of `pat` in `hay`, by character index.
pub fn find_chars(hay: &Vec<char>, pat: &Vec<char>) -> (r: Option<usize>)
    ensures
        match r {
            Option::Some(i) => find_from(hay@, pat@, 0) == i,
            Option::None => find_from(hay@, pat@, 0) == -1,
        },
{
    let n = hay.len();
    let m = pat.len();
    if m > n {
        return None;
    }
    let mut i: usize = 0;
    while i <= n - m
        invariant
            m <= n,
            n == hay@.len(),
            m == pat@.len(),
            i <= n - m + 1,
            find_from(hay@, pat@, 0) == find_from(hay@, pat@, i as int),
        decreases n - i,
    {
        let mut k: usize = 0;
        let mut ok = true;
        while k < m
            invariant
                i + m <= n,
                n == hay@.len(),
                m == pat@.len(),
                k <= m,
                ok <==> hay@.subrange(i as int, i + k) =~= pat@.take(k as int),
            decreases m - k,
        {
            proof {
                assert(hay@.subrange(i as int, i + k + 1).drop_last() =~= hay@.subrange(
                    i as int,
                    i + k,
                ));
                assert(pat@.take(k as int + 1).drop_last() =~= pat@.take(k as int));
                assert(hay@.subrange(i as int, i + k + 1).last() == hay@[i + k]);
                assert(pat@.take(k as int + 1).last() == pat@[k as int]);
            }
            if hay[i + k] != pat[k] {
                ok = false;
                proof {
                    assert(hay@.subrange(i as int, i + m)[k as int] != pat@[k as int]);
                }
                k = m;
            } else {
                proof {
                    if ok {
                        assert(hay@.subrange(i as int, i + k + 1) =~= pat@.take(k as int + 1));
                    }
                }
                k = k + 1;
            }
        }
        proof {
            if ok {
                assert(pat@.take(m as int) =~= pat@);
                assert(hay@.subrange(i as int, i + m) == pat@);
            }
        }
        if ok {
            return Some(i);
        }
        proof {
            assert(hay@.subrange(i as int, i + m) != pat@);
        }
        i = i + 1;
    }
    proof {
        assert(find_from(hay@, pat@, (n - m + 1) as int) == -1);
    }
    None
}

/// An ASCII whitespace character.
pub open spec fn is_space(c: char) -> bool {
    c == ' ' || c == '\n' || c == '\t' || c == '\r'
}

/// `s` without leading ASCII whitespace.
pub open spec fn trim_start(s: Seq<char>) -> Seq<char>
    decreases s.len(),
{
    if s.len() > 0 && is_space(s[0]) {
        trim_start(s.drop_first())
    } else {
        s
    }
}

/// `s` without trailing ASCII whitespace.
pub open spec fn trim_end(s: Seq<char>) -> Seq<char>
    decreases s.len(),
{
    if s.len() > 0 && is_space(s.last()) {
        trim_end(s.drop_last())
    } else {
        s
    }
}

/// `s` without leading or trailing ASCII whitespace.
pub open spec fn trimmed(s: Seq<char>) -> Seq<char> {
    trim_end(trim_start(s))
}

} // verus!

verus! {

/// Trim ASCII whitespace from both ends.
pub fn trim_str<'a>(s: &'a str) -> (r: &'a str)
    ensures
        r@ == trimmed(s@),
{
    let cs = crate::parse::chars_vec(s);
    let n = cs.len();
    proof {
        assert(s@.skip(0) =~= s@);
    }
    let mut a: usize = 0;
    while a < n && (cs[a] == ' ' || cs[a] == '\n' || cs[a] == '\t' || cs[a] == '\r')
        invariant
            a <= n,
            n == s@.len(),
            cs@ == s@,
            trim_start(s@) == trim_start(s@.skip(a as int)),
        decreases n - a,
    {
        proof {
            assert(is_space(s@.skip(a as int)[0]));
            assert(s@.skip(a as int).drop_first() =~= s@.skip(a as int + 1));
        }
        a = a + 1;
    }
    let ghost t = s@.skip(a as int);
    proof {
        assert(trim_start(s@) == t);
        assert(t.take(n as int - a as int) =~= t);
    }
    let mut b: usize = n - a;
    while b > 0 && (cs[a + b - 1] == ' ' || cs[a + b - 1] == '\n' || cs[a + b - 1] == '\t' || cs[a
        + b - 1] == '\r')
        invariant
            b <= n - a,
            a <= n,
            n == s@.len(),
            cs@ == s@,
            t == s@.skip(a as int),
            trim_end(t) == trim_end(t.take(b as int)),
        decreases b,
    {
        proof {
            assert(t.take(b as int).last() == s@[a + b - 1]);
            assert(is_space(t.take(b as int).last()));
            assert(t.take(b as int).drop_last() =~= t.take(b as int - 1));
        }
        b = b - 1;
    }
    proof {
        if b > 0 {
            assert(t.take(b as int).last() == s@[a + b - 1]);
        }
        assert(trim_end(t.take(b as int)) == t.take(b as int));
        assert(t.take(b as int) =~= s@.subrange(a as int, a as int + b as int));
    }
    s.substring_char(a, a + b)
}

/// The concatenation of a list of strings.
pub open spec fn concat_strs(ss: Seq<String>) -> Seq<char>
    decreases ss.len(),
{
    if ss.len() == 0 {
        Seq::empty()
    } else {
        concat_strs(ss.drop_last()) + ss.last()@
    }
}

/// Split delivery text into chunks of at most `max_chunk` characters,
/// preferring to break at the last newline of a full window when that
/// newline is not within the first hundred characters. The chunks
/// concatenate back to the original text, in order.
pub fn split_for_delivery(s: &str, max_chunk: usize) -> (r: Vec<String>)
    requires
        1 <= max_chunk,
    ensures
        concat_strs(r@) == s@,
        forall|i: int| 0 <= i < r@.len() ==> (#[trigger] r@[i])@.len() <= max_chunk,
{
    let cs = crate::parse::chars_vec(s);
    let total = cs.len();
    let mut out: Vec<String> = Vec::new();
    proof {
        assert(concat_strs(out@) =~= s@.take(0));
    }
    let mut position: usize = 0;
    while position < total
        invariant
            position <= total,
            total == s@.len(),
            cs@ == s@,
            1 <= max_chunk,
            concat_strs(out@) == s@.take(position as int),
            forall|i: int| 0 <= i < out@.len() ==> (#[trigger] out@[i])@.len() <= max_chunk,
        decreases total - position,
    {
        let remaining = total - position;
        let csize: usize = if remaining < max_chunk {
            remaining
        } else {
            // Last newline within the next full window, if any.
            let mut ln: usize = 0;
            let mut j: usize = 0;
            while j < max_chunk
                invariant
                    j <= max_chunk,
                    max_chunk <= remaining,
                    remaining == total - position,
                    position <= total,
                    total == s@.len(),
                    cs@ == s@,
                    ln < max_chunk,
                decreases max_chunk - j,
            {
                if cs[position + j] == '\n' {
                    ln = j;
                }
                j = j + 1;
            }
            if ln > 100 {
                ln
            } else {
                max_chunk
            }
        };
        let chunk = s.substring_char(position, position + csize);
        let piece = String::from_str(chunk);
        let ghost prev = out@;
        out.push(piece);
        proof {
            assert(out@.drop_last() =~= prev);
            assert(concat_strs(out@) == concat_strs(prev) + out@.last()@);
            assert(concat_strs(out@) =~= s@.take(position as int + csize as int));
        }
        position = position + csize;
    }
    proof {
        assert(s@.take(total as int) =~= s@);
    }
    out
}

} // verus!
