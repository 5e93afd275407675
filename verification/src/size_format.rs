//! Human-readable sizes: formatting byte counts, percentages, and
//! parsing size strings such as "1.5MB", all in exact integer
//! arithmetic.

use vstd::prelude::*;
use crate::strutil;

verus! {

// ---------------------------------------------------------------------------
// Decimal digits
// ---------------------------------------------------------------------------

/// The decimal digit character of a value below ten.
pub open spec fn dec_digit(n: int) -> char {
    if n == 0 { '0' } else if n == 1 { '1' } else if n == 2 { '2' } else if n == 3 { '3' }
    else if n == 4 { '4' } else if n == 5 { '5' } else if n == 6 { '6' } else if n == 7 { '7' }
    else if n == 8 { '8' } else { '9' }
}

/// The decimal digits of a number, most significant first.
pub open spec fn dec_spec(n: nat) -> Seq<char>
    decreases n,
{
    if n < 10 {
        seq![dec_digit(n as int)]
    } else {
        dec_spec(n / 10).push(dec_digit((n % 10) as int))
    }
}

fn dec_digit_exec(n: u128) -> (r: char)
    requires
        n < 10,
    ensures
        r == dec_digit(n as int),
{
    if n == 0 { '0' } else if n == 1 { '1' } else if n == 2 { '2' } else if n == 3 { '3' }
    else if n == 4 { '4' } else if n == 5 { '5' } else if n == 6 { '6' } else if n == 7 { '7' }
    else if n == 8 { '8' } else { '9' }
}

/// The decimal digits of a number as characters.
pub fn format_u128(n: u128) -> (r: Vec<char>)
    ensures
        r@ == dec_spec(n as nat),
{
    if n < 10 {
        let mut r: Vec<char> = Vec::new();
        r.push(dec_digit_exec(n));
        proof {
            assert(r@ =~= dec_spec(n as nat));
        }
        return r;
    }
    let mut tmp: Vec<char> = Vec::new();
    let ghost mut acc: Seq<char> = Seq::empty();
    let mut m: u128 = n;
    while m > 0
        invariant
            m > 0 ==> dec_spec(n as nat) == dec_spec(m as nat) + acc,
            m == 0 ==> dec_spec(n as nat) == acc,
            tmp@.len() == acc.len(),
            forall|j: int| 0 <= j < tmp@.len() ==> tmp@[j] == acc[acc.len() - 1 - j],
        decreases m,
    {
        let d = m % 10;
        tmp.push(dec_digit_exec(d));
        proof {
            acc = seq![dec_digit(d as int)] + acc;
            if m >= 10 {
                assert(dec_spec(m as nat) == dec_spec((m as nat) / 10).push(
                    dec_digit(((m as nat) % 10) as int),
                ));
                assert(dec_spec((m as nat) / 10) + (seq![dec_digit(d as int)] + acc.skip(1))
                    =~= dec_spec(m as nat) + acc.skip(1));
            } else {
                assert(dec_spec(m as nat) =~= seq![dec_digit(d as int)]);
            }
        }
        m = m / 10;
    }
    let mut r: Vec<char> = Vec::new();
    let mut j: usize = 0;
    while j < tmp.len()
        invariant
            j <= tmp.len(),
            tmp@.len() == acc.len(),
            forall|k: int| 0 <= k < tmp@.len() ==> tmp@[k] == acc[acc.len() - 1 - k],
            r@ =~= acc.take(j as int),
        decreases tmp.len() - j,
    {
        r.push(tmp[tmp.len() - 1 - j]);
        proof {
            assert(r@ =~= acc.take(j + 1));
        }
        j = j + 1;
    }
    proof {
        assert(acc.take(acc.len() as int) =~= acc);
    }
    r
}

// ---------------------------------------------------------------------------
// format_size
// ---------------------------------------------------------------------------

/// How many binary-kilobyte steps the value takes, at most five.
pub open spec fn unit_count(b: nat) -> int
    decreases b,
{
    if b < 1024 {
        0
    } else {
        1 + unit_count(b / 1024)
    }
}

pub proof fn lemma_unit_count_nonneg(b: nat)
    ensures
        unit_count(b) >= 0,
    decreases b,
{
    if b >= 1024 {
        lemma_unit_count_nonneg(b / 1024);
    }
}

pub open spec fn unit_idx(b: nat) -> int {
    if unit_count(b) < 5 {
        unit_count(b)
    } else {
        5
    }
}

pub open spec fn pow1024(k: int) -> nat
    decreases k,
{
    if k <= 0 {
        1
    } else {
        1024 * pow1024(k - 1)
    }
}

/// Rounding to the nearest integer, ties to the even neighbour.
pub open spec fn round_half_even(num: nat, den: nat) -> nat
    recommends
        den > 0,
{
    let q = num / den;
    let r = num % den;
    if 2 * r > den {
        q + 1
    } else if 2 * r < den {
        q
    } else if q % 2 == 1 {
        q + 1
    } else {
        q
    }
}

pub open spec fn unit_name(k: int) -> Seq<char> {
    if k == 0 { "B"@ } else if k == 1 { "KB"@ } else if k == 2 { "MB"@ } else if k == 3 {
        "GB"@
    } else if k == 4 { "TB"@ } else { "PB"@ }
}

/// The formatted size: the value scaled into its unit, with two
/// decimal places rounded to nearest, and the unit name.
pub open spec fn spec_format_size(bytes: nat) -> Seq<char> {
    let k = unit_idx(bytes);
    let h = round_half_even(bytes * 100, pow1024(k));
    dec_spec(h / 100) + seq!['.', dec_digit(((h / 10) % 10) as int), dec_digit((h % 10) as int)]
        + seq![' '] + unit_name(k)
}

/// Formats a byte count as "1.50 MB".
pub fn format_size(bytes: u64) -> (r: String)
    ensures
        r@ == spec_format_size(bytes as nat),
{
    let mut sz: u64 = bytes;
    let mut idx: u32 = 0;
    while sz >= 1024 && idx < 5
        invariant
            idx <= 5,
            unit_idx(bytes as nat) == (if idx + unit_count(sz as nat) < 5 {
                idx + unit_count(sz as nat)
            } else {
                5int
            }),
        decreases sz,
    {
        sz = sz / 1024;
        idx = idx + 1;
    }
    proof {
        lemma_unit_count_nonneg(sz as nat);
        if sz < 1024 {
            assert(unit_count(sz as nat) == 0);
        }
        assert(unit_idx(bytes as nat) == idx as int);
    }
    let factor: u128 = if idx == 0 {
        1
    } else if idx == 1 {
        1024
    } else if idx == 2 {
        1048576
    } else if idx == 3 {
        1073741824
    } else if idx == 4 {
        1099511627776
    } else {
        1125899906842624
    };
    proof {
        assert(pow1024(0) == 1);
        assert(pow1024(1) == 1024);
        assert(pow1024(2) == 1048576);
        assert(pow1024(3) == 1073741824);
        assert(pow1024(4) == 1099511627776);
        assert(pow1024(5) == 1125899906842624);
        assert(factor as nat == pow1024(idx as int));
    }
    let num: u128 = (bytes as u128) * 100;
    let q: u128 = num / factor;
    let rem: u128 = num % factor;
    let h: u128 = if 2 * rem > factor {
        q + 1
    } else if 2 * rem < factor {
        q
    } else if q % 2 == 1 {
        q + 1
    } else {
        q
    };
    proof {
        assert(h as nat == round_half_even((bytes as nat) * 100, pow1024(idx as int)));
    }
    let mut out = format_u128(h / 100);
    out.push('.');
    out.push(dec_digit_exec((h / 10) % 10));
    out.push(dec_digit_exec(h % 10));
    out.push(' ');
    let unit: &str = if idx == 0 {
        "B"
    } else if idx == 1 {
        "KB"
    } else if idx == 2 {
        "MB"
    } else if idx == 3 {
        "GB"
    } else if idx == 4 {
        "TB"
    } else {
        "PB"
    };
    let unit_chars = strutil::to_chars(unit);
    let mut j: usize = 0;
    let ghost mid = out@;
    while j < unit_chars.len()
        invariant
            j <= unit_chars.len(),
            out@ =~= mid + unit_chars@.take(j as int),
        decreases unit_chars.len() - j,
    {
        out.push(unit_chars[j]);
        proof {
            assert(out@ =~= mid + unit_chars@.take(j + 1));
        }
        j = j + 1;
    }
    proof {
        assert(unit_chars@.take(unit_chars@.len() as int) =~= unit_chars@);
        assert(unit_chars@ == unit_name(idx as int));
        assert(out@ =~= spec_format_size(bytes as nat));
    }
    strutil::from_chars(&out)
}

// ---------------------------------------------------------------------------
// format_percentage
// ---------------------------------------------------------------------------

/// The integer percentage string: "0%" when the total is zero.
pub open spec fn spec_format_percentage(part: nat, total: nat) -> Seq<char> {
    if total == 0 {
        "0%"@
    } else {
        dec_spec(part * 100 / total) + seq!['%']
    }
}

/// Formats the share of `part` in `total` as a whole percentage.
pub fn format_percentage(part: u64, total: u64) -> (r: String)
    ensures
        r@ == spec_format_percentage(part as nat, total as nat),
{
    if total == 0 {
        proof {
            reveal_strlit("0%");
        }
        let z = strutil::to_chars("0%");
        return strutil::from_chars(&z);
    }
    let v: u128 = (part as u128) * 100 / (total as u128);
    let mut out = format_u128(v);
    out.push('%');
    proof {
        assert(out@ =~= spec_format_percentage(part as nat, total as nat));
    }
    strutil::from_chars(&out)
}

// ---------------------------------------------------------------------------
// parse_size_string
// ---------------------------------------------------------------------------

pub open spec fn all_digits(s: Seq<char>) -> bool {
    forall|i: int| 0 <= i < s.len() ==> strutil::is_digit_char(#[trigger] s[i])
}

/// The value of a string of decimal digits.
pub open spec fn digits_val(s: Seq<char>) -> nat
    decreases s.len(),
{
    if s.len() == 0 {
        0
    } else {
        (digits_val(s.drop_last()) * 10 + strutil::digit_val(s.last())) as nat
    }
}

pub open spec fn pow10(k: int) -> nat
    decreases k,
{
    if k <= 0 {
        1
    } else {
        10 * pow10(k - 1)
    }
}

/// Every occurrence of `pat` replaced by `sub`, left to right.
pub open spec fn replace_all(s: Seq<char>, pat: Seq<char>, sub: Seq<char>) -> Seq<char>
    decreases s.len(),
{
    if pat.len() == 0 || s.len() == 0 {
        s
    } else if strutil::prefix_of(pat, s) {
        sub + replace_all(s.skip(pat.len() as int), pat, sub)
    } else {
        seq![s[0]] + replace_all(s.skip(1), pat, sub)
    }
}

pub open spec fn is_alnum(c: char) -> bool {
    strutil::is_digit_char(c) || (97 <= c as u32 && c as u32 <= 122) || (65 <= c as u32 && c
        as u32 <= 90)
}

/// Characters that are not ASCII alphanumeric, stripped from both ends.
pub open spec fn strip_nonalnum_start(s: Seq<char>) -> Seq<char>
    decreases s.len(),
{
    if s.len() > 0 && !is_alnum(s[0]) {
        strip_nonalnum_start(s.skip(1))
    } else {
        s
    }
}

pub open spec fn strip_nonalnum_end(s: Seq<char>) -> Seq<char>
    decreases s.len(),
{
    if s.len() > 0 && !is_alnum(s.last()) {
        strip_nonalnum_end(s.drop_last())
    } else {
        s
    }
}

pub open spec fn strip_nonalnum(s: Seq<char>) -> Seq<char> {
    strip_nonalnum_end(strip_nonalnum_start(s))
}

/// The multiplier a unit string denotes, when it is known.
pub open spec fn unit_factor(u: Seq<char>) -> Option<nat> {
    if u =~= Seq::<char>::empty() || u =~= "b"@ {
        Some(1 as nat)
    } else if u =~= "k"@ || u =~= "kb"@ || u =~= "kib"@ {
        Some(1024 as nat)
    } else if u =~= "m"@ || u =~= "mb"@ || u =~= "mib"@ {
        Some(1048576 as nat)
    } else if u =~= "g"@ || u =~= "gb"@ || u =~= "gib"@ {
        Some(1073741824 as nat)
    } else if u =~= "t"@ || u =~= "tb"@ || u =~= "tib"@ {
        Some(1099511627776 as nat)
    } else if u =~= "p"@ || u =~= "pb"@ || u =~= "pib"@ {
        Some(1125899906842624 as nat)
    } else {
        None
    }
}

/// The longest leading run of digits, dots and commas: the number part
/// of a size written without a space.
pub open spec fn number_prefix_len(v: Seq<char>) -> int
    decreases v.len(),
{
    number_prefix_len_from(v, 0)
}

pub open spec fn number_prefix_len_from(v: Seq<char>, i: int) -> int
    decreases v.len() - i,
{
    if 0 <= i < v.len() && (strutil::is_digit_char(v[i]) || v[i] == '.' || v[i] == ',') {
        number_prefix_len_from(v, i + 1)
    } else {
        i
    }
}

/// The concatenation of all tokens after the first.
pub open spec fn joined_rest(tokens: Seq<Seq<char>>) -> Seq<char>
    decreases tokens.len(),
{
    if tokens.len() <= 1 {
        Seq::empty()
    } else {
        joined_rest(tokens.drop_last()) + tokens.last()
    }
}

/// The number text and the unit text of a trimmed size string.
pub open spec fn spec_number_and_unit(t: Seq<char>) -> (Seq<char>, Seq<char>) {
    let tokens = strutil::ws_tokens(t);
    if tokens.len() == 0 {
        (Seq::empty(), Seq::empty())
    } else {
        let rest = joined_rest(tokens);
        if rest.len() == 0 {
            let first = tokens[0];
            let n = number_prefix_len(first);
            (first.take(n), first.skip(n))
        } else {
            (tokens[0], rest)
        }
    }
}

/// Commas read as decimal dots.
pub open spec fn commas_to_dots(s: Seq<char>) -> Seq<char> {
    s.map_values(|c: char| if c == ',' { '.' } else { c })
}

/// The integer and fraction digit runs of a number text, when it is a
/// plain decimal with at least one digit.
pub open spec fn spec_decimal_parts(n: Seq<char>) -> Option<(Seq<char>, Seq<char>)> {
    let pieces = strutil::split_spec(n, '.');
    if pieces.len() == 1 && pieces[0].len() > 0 && all_digits(pieces[0]) {
        Some((pieces[0], Seq::<char>::empty()))
    } else if pieces.len() == 2 && pieces[0].len() + pieces[1].len() > 0 && all_digits(pieces[0])
        && all_digits(pieces[1]) {
        Some((pieces[0], pieces[1]))
    } else {
        None
    }
}

/// The fraction contribution, rounded half away from zero; only the
/// first nine fraction digits weigh in.
pub open spec fn spec_frac_value(frac: Seq<char>, factor: nat) -> nat {
    let f9 = if frac.len() <= 9 {
        frac
    } else {
        frac.take(9)
    };
    if f9.len() == 0 {
        0
    } else {
        (2 * digits_val(f9) * factor + pow10(f9.len() as int)) / (2 * pow10(f9.len() as int))
    }
}

/// The parsed byte count of a size string: the number scaled by its
/// unit, rounded to the nearest byte, saturated at the largest count.
pub open spec fn spec_parse_size(s: Seq<char>) -> Option<nat> {
    let t = strutil::trim_spec(s);
    if t.len() == 0 {
        None
    } else {
        let nu = spec_number_and_unit(t);
        let number = commas_to_dots(nu.0);
        let unit = strip_nonalnum(
            replace_all(
                replace_all(strutil::lower_seq(strutil::trim_spec(nu.1)), "bytes"@, "b"@),
                "byte"@,
                "b"@,
            ),
        );
        match spec_decimal_parts(number) {
            None => None,
            Some(parts) => match unit_factor(unit) {
                None => None,
                Some(factor) => {
                    let exact = digits_val(parts.0) * factor + spec_frac_value(parts.1, factor);
                    if exact > u64::MAX {
                        Some(u64::MAX as nat)
                    } else {
                        Some(exact)
                    }
                }
            },
        }
    }
}

fn replace_all_exec(s: &Vec<char>, pat: &Vec<char>, sub: &Vec<char>) -> (r: Vec<char>)
    requires
        pat.len() > 0,
    ensures
        r@ == replace_all(s@, pat@, sub@),
    decreases s.len(),
{
    let mut out: Vec<char> = Vec::new();
    let mut i: usize = 0;
    proof {
        assert(s@.skip(0) =~= s@);
    }
    while i < s.len()
        invariant
            i <= s.len(),
            pat@.len() > 0,
            replace_all(s@, pat@, sub@) == out@ + replace_all(s@.skip(i as int), pat@, sub@),
        decreases s.len() - i,
    {
        proof {
            assert(s@.skip(i as int)[0] == s@[i as int]);
            assert(s@.skip(i as int).skip(1) =~= s@.skip(i + 1));
        }
        let mut matched = pat.len() <= s.len() - i;
        if matched {
            let mut k: usize = 0;
            while k < pat.len() && matched
                invariant
                    k <= pat.len(),
                    i + pat.len() <= s.len(),
                    matched ==> forall|j: int| 0 <= j < k ==> s@[i + j] == pat@[j],
                    !matched ==> exists|j: int|
                        0 <= j < pat@.len() && s@[i + j] != (#[trigger] pat@[j]),
                decreases pat.len() - k + (if matched { 1int } else { 0int }),
            {
                if s[i + k] != pat[k] {
                    proof {
                        assert(s@[i + k as int] != pat@[k as int]);
                    }
                    matched = false;
                } else {
                    k = k + 1;
                }
            }
            proof {
                if !matched {
                    let j = choose|j: int|
                        0 <= j < pat@.len() && s@[i + j] != (#[trigger] pat@[j]);
                    assert(s@.skip(i as int).subrange(0, pat@.len() as int)[j] == s@[i + j]);
                    assert(!strutil::prefix_of(pat@, s@.skip(i as int)));
                }
            }
        } else {
            proof {
                assert(!strutil::prefix_of(pat@, s@.skip(i as int)));
            }
        }
        if matched {
            proof {
                assert(s@.skip(i as int).subrange(0, pat@.len() as int) =~= pat@);
                assert(strutil::prefix_of(pat@, s@.skip(i as int)));
                assert(s@.skip(i as int).skip(pat@.len() as int) =~= s@.skip(
                    i + pat@.len(),
                ));
            }
            let ghost pre = out@;
            let mut k: usize = 0;
            while k < sub.len()
                invariant
                    k <= sub.len(),
                    out@ =~= pre + sub@.take(k as int),
                decreases sub.len() - k,
            {
                out.push(sub[k]);
                proof {
                    assert(out@ =~= pre + sub@.take(k + 1));
                }
                k = k + 1;
            }
            proof {
                assert(sub@.take(sub@.len() as int) =~= sub@);
            }
            i = i + pat.len();
        } else {
            out.push(s[i]);
            i = i + 1;
        }
    }
    proof {
        assert(s@.skip(s@.len() as int) =~= Seq::<char>::empty());
        assert(out@ + Seq::<char>::empty() =~= out@);
    }
    out
}

fn is_alnum_exec(c: char) -> (r: bool)
    ensures
        r == is_alnum(c),
{
    let u = c as u32;
    strutil::is_digit(c) || (97 <= u && u <= 122) || (65 <= u && u <= 90)
}

proof fn lemma_strip_nonalnum_start_at(s: Seq<char>, a: int)
    requires
        0 <= a <= s.len(),
        forall|j: int| 0 <= j < a ==> !is_alnum(s[j]),
        a == s.len() || is_alnum(s[a]),
    ensures
        strip_nonalnum_start(s) == s.skip(a),
    decreases a,
{
    if a == 0 {
        assert(s.skip(0) =~= s);
    } else {
        lemma_strip_nonalnum_start_at(s.skip(1), a - 1);
        assert(s.skip(1).skip(a - 1) =~= s.skip(a));
    }
}

proof fn lemma_strip_nonalnum_end_at(s: Seq<char>, b: int)
    requires
        0 <= b <= s.len(),
        forall|j: int| b <= j < s.len() ==> !is_alnum(s[j]),
        b == 0 || is_alnum(s[b - 1]),
    ensures
        strip_nonalnum_end(s) == s.take(b),
    decreases s.len() - b,
{
    if b == s.len() {
        assert(s.take(b) =~= s);
    } else {
        lemma_strip_nonalnum_end_at(s.drop_last(), b);
        assert(s.drop_last().take(b) =~= s.take(b));
    }
}

fn strip_nonalnum_exec(s: &Vec<char>) -> (r: Vec<char>)
    ensures
        r@ == strip_nonalnum(s@),
{
    let mut a: usize = 0;
    while a < s.len() && !is_alnum_exec(s[a])
        invariant
            a <= s.len(),
            forall|j: int| 0 <= j < a ==> !is_alnum(s@[j]),
        decreases s.len() - a,
    {
        a = a + 1;
    }
    let mut b: usize = s.len();
    while b > a && !is_alnum_exec(s[b - 1])
        invariant
            a <= b <= s.len(),
            forall|j: int| 0 <= j < a ==> !is_alnum(s@[j]),
            forall|j: int| b <= j < s.len() ==> !is_alnum(s@[j]),
        decreases b,
    {
        b = b - 1;
    }
    let mut r: Vec<char> = Vec::new();
    let mut i: usize = a;
    while i < b
        invariant
            a <= i <= b <= s.len(),
            r@ =~= s@.subrange(a as int, i as int),
        decreases b - i,
    {
        r.push(s[i]);
        proof {
            assert(r@ =~= s@.subrange(a as int, i + 1));
        }
        i = i + 1;
    }
    proof {
        lemma_strip_nonalnum_start_at(s@, a as int);
        if b == a {
            lemma_strip_nonalnum_end_at(s@.skip(a as int), 0);
        } else {
            lemma_strip_nonalnum_end_at(s@.skip(a as int), b - a);
        }
        assert(s@.skip(a as int).take(b - a) =~= s@.subrange(a as int, b as int));
        assert(r@ =~= strip_nonalnum(s@));
    }
    r
}

proof fn lemma_digits_lower_bound(s: Seq<char>)
    requires
        s.len() >= 1,
        strutil::digit_val(s[0]) >= 1,
        all_digits(s),
    ensures
        digits_val(s) >= pow10(s.len() - 1),
    decreases s.len(),
{
    if s.len() == 1 {
        assert(strutil::is_digit_char(s[0]));
    } else {
        assert(s.drop_last()[0] == s[0]);
        assert(all_digits(s.drop_last())) by {
            assert(forall|j: int| 0 <= j < s.len() - 1 ==> s.drop_last()[j] == s[j]);
        }
        lemma_digits_lower_bound(s.drop_last());
    }
}

fn digits_to_u128_exact(v: &Vec<char>, start: usize) -> (r: u128)
    requires
        all_digits(v@),
        start <= v.len(),
        v.len() - start <= 21,
    ensures
        r == digits_val(v@.subrange(start as int, v@.len() as int)),
{
    let mut acc: u128 = 0;
    let mut i: usize = start;
    proof {
        assert(v@.subrange(start as int, start as int) =~= Seq::<char>::empty());
    }
    while i < v.len()
        invariant
            start <= i <= v.len(),
            v.len() - start <= 21,
            all_digits(v@),
            acc == digits_val(v@.subrange(start as int, i as int)),
        decreases v.len() - i,
    {
        proof {
            assert(v@.subrange(start as int, i + 1).drop_last() =~= v@.subrange(
                start as int,
                i as int,
            ));
            assert(v@.subrange(start as int, i + 1).last() == v@[i as int]);
            assert(strutil::is_digit_char(v@[i as int]));
            lemma_digits_small(v@.subrange(start as int, i as int));
            lemma_pow10_mono(i - start, 20);
            lemma_pow10_21();
        }
        let d: u128 = (v[i] as u32 as u128) - 48;
        acc = acc * 10 + d;
        i = i + 1;
    }
    acc
}

proof fn lemma_pow10_mono(a: int, b: int)
    requires
        a <= b,
    ensures
        pow10(a) <= pow10(b),
    decreases b,
{
    if a < b && b > 0 {
        lemma_pow10_mono(a, b - 1);
    }
}

proof fn lemma_pow10_21()
    ensures
        pow10(21) == 1000000000000000000000,
        pow10(21) < 0x1_0000_0000_0000_0000_0000_0000,
        pow10(20) == 100000000000000000000,
        pow10(9) == 1000000000,
        pow10(20) > u64::MAX,
{
    assert(pow10(0) == 1);
    assert(pow10(1) == 10);
    assert(pow10(2) == 100);
    assert(pow10(3) == 1000);
    assert(pow10(4) == 10000);
    assert(pow10(5) == 100000);
    assert(pow10(6) == 1000000);
    assert(pow10(7) == 10000000);
    assert(pow10(8) == 100000000);
    assert(pow10(9) == 1000000000);
    assert(pow10(10) == 10000000000);
    assert(pow10(11) == 100000000000);
    assert(pow10(12) == 1000000000000);
    assert(pow10(13) == 10000000000000);
    assert(pow10(14) == 100000000000000);
    assert(pow10(15) == 1000000000000000);
    assert(pow10(16) == 10000000000000000);
    assert(pow10(17) == 100000000000000000);
    assert(pow10(18) == 1000000000000000000);
    assert(pow10(19) == 10000000000000000000);
    assert(pow10(20) == 100000000000000000000);
    assert(pow10(21) == 1000000000000000000000);
}

/// A digit string's value stays below the power of ten of its length.
proof fn lemma_digits_small(s: Seq<char>)
    requires
        all_digits(s),
    ensures
        digits_val(s) < pow10(s.len() as int),
    decreases s.len(),
{
    if s.len() == 0 {
    } else {
        assert(all_digits(s.drop_last())) by {
            assert(forall|j: int| 0 <= j < s.len() - 1 ==> s.drop_last()[j] == s[j]);
        }
        lemma_digits_small(s.drop_last());
        assert(strutil::is_digit_char(s.last()));
        assert(strutil::digit_val(s.last()) <= 9);
    }
}

fn copy_range(v: &Vec<char>, a: usize, b: usize) -> (r: Vec<char>)
    requires
        a <= b <= v.len(),
    ensures
        r@ == v@.subrange(a as int, b as int),
{
    let mut r: Vec<char> = Vec::new();
    let mut i: usize = a;
    while i < b
        invariant
            a <= i <= b <= v.len(),
            r@ =~= v@.subrange(a as int, i as int),
        decreases b - i,
    {
        r.push(v[i]);
        proof {
            assert(r@ =~= v@.subrange(a as int, i + 1));
        }
        i = i + 1;
    }
    r
}

proof fn lemma_digits_strip_zero(s: Seq<char>)
    requires
        s.len() > 0,
        strutil::digit_val(s[0]) == 0,
    ensures
        digits_val(s) == digits_val(s.skip(1)),
    decreases s.len(),
{
    if s.len() == 1 {
        assert(s.skip(1) =~= Seq::<char>::empty());
        assert(digits_val(s) == digits_val(s.drop_last()) * 10 + strutil::digit_val(s.last()));
    } else {
        assert(s.drop_last()[0] == s[0]);
        lemma_digits_strip_zero(s.drop_last());
        assert(s.drop_last().skip(1) =~= s.skip(1).drop_last());
        assert(s.skip(1).last() == s.last());
    }
}

/// Parses a size string such as "1.5MB" or "2 GiB" into bytes; an
/// unknown unit or a malformed number yields nothing, and a value past
/// the largest byte count saturates there.
#[verifier::rlimit(60)]
pub fn parse_size_string(value: &str) -> (r: Option<u64>)
    ensures
        match r {
            Some(n) => spec_parse_size(value@) == Some(n as nat),
            None => spec_parse_size(value@) is None,
        },
{
    let chars = strutil::to_chars(value);
    let t = strutil::trim(&chars);
    if t.len() == 0 {
        return None;
    }
    let tokens = strutil::split_ws(&t);
    let ghost toks = strutil::seqs_of(tokens@);
    if tokens.len() == 0 {
        // cannot occur for a non-empty trimmed string, but the split
        // answers it anyway: no number text, so no value
        proof {
            strutil::lemma_split_len(Seq::<char>::empty(), '.');
            assert(strutil::split_spec(Seq::<char>::empty(), '.') =~= seq![
                Seq::<char>::empty(),
            ]);
        }
        return None;
    }
    // The concatenation of the tokens after the first.
    let mut rest: Vec<char> = Vec::new();
    let mut k: usize = 1;
    proof {
        assert(toks.take(1).len() <= 1);
        assert(rest@ =~= joined_rest(toks.take(1)));
    }
    while k < tokens.len()
        invariant
            1 <= k <= tokens.len(),
            toks == strutil::seqs_of(tokens@),
            rest@ == joined_rest(toks.take(k as int)),
        decreases tokens.len() - k,
    {
        proof {
            assert(toks.take(k + 1).drop_last() =~= toks.take(k as int));
            assert(toks.take(k + 1).last() == toks[k as int]);
            assert(toks[k as int] == tokens@[k as int]@);
        }
        let ghost pre = rest@;
        let n = tokens[k].len();
        let mut j: usize = 0;
        while j < n
            invariant
                j <= n,
                k < tokens.len(),
                n == tokens@[k as int]@.len(),
                rest@ =~= pre + tokens@[k as int]@.take(j as int),
            decreases n - j,
        {
            let c = tokens[k][j];
            rest.push(c);
            proof {
                assert(rest@ =~= pre + tokens@[k as int]@.take(j + 1));
            }
            j = j + 1;
        }
        proof {
            let ghost tk = tokens@[k as int]@;
            assert(tk.take(tk.len() as int) =~= tk);
            assert(rest@ =~= joined_rest(toks.take(k + 1)));
        }
        k = k + 1;
    }
    proof {
        assert(toks.take(toks.len() as int) =~= toks);
    }
    let first = copy_range(&tokens[0], 0, tokens[0].len());
    proof {
        assert(first@ =~= tokens@[0]@);
        assert(toks[0] == tokens@[0]@);
    }
    let (number_raw, unit_raw): (Vec<char>, Vec<char>) = if rest.len() == 0 {
        // A single token: the leading digits, dots and commas are the
        // number, the rest is the unit.
        let mut j: usize = 0;
        while j < first.len() && (strutil::is_digit(first[j]) || first[j] == '.' || first[j]
            == ',')
            invariant
                j <= first.len(),
                number_prefix_len(first@) == number_prefix_len_from(first@, j as int),
            decreases first.len() - j,
        {
            j = j + 1;
        }
        proof {
            assert(number_prefix_len(first@) == j as int);
        }
        let num = copy_range(&first, 0, j);
        let un = copy_range(&first, j, first.len());
        proof {
            assert(num@ =~= first@.take(j as int));
            assert(un@ =~= first@.skip(j as int));
        }
        (num, un)
    } else {
        (first, rest)
    };
    let ghost nu = spec_number_and_unit(t@);
    proof {
        assert(number_raw@ == nu.0);
        assert(unit_raw@ == nu.1);
    }
    // Commas become dots.
    let mut number: Vec<char> = Vec::new();
    let mut j: usize = 0;
    proof {
        assert(number@ =~= number_raw@.take(0).map_values(
            |c: char| if c == ',' { '.' } else { c },
        ));
    }
    while j < number_raw.len()
        invariant
            j <= number_raw.len(),
            number@ == number_raw@.take(j as int).map_values(
                |c: char| if c == ',' { '.' } else { c },
            ),
        decreases number_raw.len() - j,
    {
        let c = number_raw[j];
        let c2: char = if c == ',' {
            '.'
        } else {
            c
        };
        number.push(c2);
        proof {
            assert(number_raw@.take(j + 1).map_values(|c: char| if c == ',' { '.' } else { c })
                =~= number_raw@.take(j as int).map_values(
                |c: char| if c == ',' { '.' } else { c },
            ).push(if number_raw@[j as int] == ',' { '.' } else { number_raw@[j as int] }));
            assert(number@ =~= number_raw@.take(j + 1).map_values(
                |c: char| if c == ',' { '.' } else { c },
            ));
        }
        j = j + 1;
    }
    proof {
        assert(number_raw@.take(number_raw@.len() as int) =~= number_raw@);
        assert(number@ =~= commas_to_dots(nu.0));
    }
    // Normalize the unit text.
    let unit0 = strutil::trim(&unit_raw);
    let unit1 = strutil::to_ascii_lower(&unit0);
    let bytes_pat = strutil::to_chars("bytes");
    let byte_pat = strutil::to_chars("byte");
    let b_sub = strutil::to_chars("b");
    proof {
        reveal_strlit("bytes");
        reveal_strlit("byte");
        assert(bytes_pat@.len() == 5);
        assert(byte_pat@.len() == 4);
    }
    let unit2 = replace_all_exec(&unit1, &bytes_pat, &b_sub);
    let unit3 = replace_all_exec(&unit2, &byte_pat, &b_sub);
    let unit = strip_nonalnum_exec(&unit3);
    // The decimal parts of the number.
    let pieces = strutil::split_chars(&number, '.');
    proof {
        strutil::lemma_split_len(number@, '.');
    }
    let (int_digits, frac_digits): (Vec<char>, Vec<char>) = if pieces.len() == 1 {
        proof {
            assert(strutil::seqs_of(pieces@)[0] == pieces@[0]@);
        }
        let a = copy_range(&pieces[0], 0, pieces[0].len());
        proof {
            assert(a@ =~= strutil::split_spec(number@, '.')[0]);
        }
        (a, Vec::new())
    } else if pieces.len() == 2 {
        proof {
            assert(strutil::seqs_of(pieces@)[0] == pieces@[0]@);
            assert(strutil::seqs_of(pieces@)[1] == pieces@[1]@);
        }
        let a = copy_range(&pieces[0], 0, pieces[0].len());
        let b = copy_range(&pieces[1], 0, pieces[1].len());
        proof {
            assert(a@ =~= strutil::split_spec(number@, '.')[0]);
            assert(b@ =~= strutil::split_spec(number@, '.')[1]);
        }
        (a, b)
    } else {
        proof {
            assert(strutil::seqs_of(pieces@).len() == pieces@.len());
            assert(strutil::split_spec(number@, '.').len() == pieces@.len());
            assert(spec_decimal_parts(number@) is None);
        }
        return None;
    };
    proof {
        assert(strutil::seqs_of(pieces@).len() == pieces@.len());
        assert(strutil::split_spec(number@, '.').len() == pieces@.len());
    }
    if int_digits.len() == 0 && frac_digits.len() == 0 {
        proof {
            assert(spec_decimal_parts(number@) is None);
        }
        return None;
    }
    // Both parts must be all digits.
    if !check_all_digits(&int_digits) {
        proof {
            assert(spec_decimal_parts(number@) is None);
        }
        return None;
    }
    if !check_all_digits(&frac_digits) {
        proof {
            assert(spec_decimal_parts(number@) is None);
        }
        return None;
    }
    proof {
        assert(all_digits(int_digits@));
        assert(all_digits(frac_digits@));
        if pieces.len() == 1 {
            assert(spec_decimal_parts(number@) == Some((int_digits@, frac_digits@)));
        } else {
            assert(spec_decimal_parts(number@) == Some((int_digits@, frac_digits@)));
        }
    }
    // The unit's factor.
    let factor: u128 = if unit.len() == 0 {
        proof {
            assert(unit@ =~= Seq::<char>::empty());
        }
        1
    } else if eq_lit(&unit, "b") {
        1
    } else if eq_lit(&unit, "k") || eq_lit(&unit, "kb") || eq_lit(&unit, "kib") {
        1024
    } else if eq_lit(&unit, "m") || eq_lit(&unit, "mb") || eq_lit(&unit, "mib") {
        1048576
    } else if eq_lit(&unit, "g") || eq_lit(&unit, "gb") || eq_lit(&unit, "gib") {
        1073741824
    } else if eq_lit(&unit, "t") || eq_lit(&unit, "tb") || eq_lit(&unit, "tib") {
        1099511627776
    } else if eq_lit(&unit, "p") || eq_lit(&unit, "pb") || eq_lit(&unit, "pib") {
        1125899906842624
    } else {
        proof {
            assert(unit_factor(unit@) is None);
        }
        return None;
    };
    proof {
        assert(unit_factor(unit@) == Some(factor as nat));
    }
    // Strip leading zero digits of the integer part.
    let mut z: usize = 0;
    while z < int_digits.len() && (int_digits[z] as u32) == 48
        invariant
            z <= int_digits.len(),
            all_digits(int_digits@),
            digits_val(int_digits@) == digits_val(int_digits@.skip(z as int)),
        decreases int_digits.len() - z,
    {
        proof {
            assert(strutil::digit_val(int_digits@.skip(z as int)[0]) == 0);
            lemma_digits_strip_zero(int_digits@.skip(z as int));
            assert(int_digits@.skip(z as int).skip(1) =~= int_digits@.skip(z + 1));
        }
        z = z + 1;
    }
    let stripped_len = int_digits.len() - z;
    let ghost stripped = int_digits@.skip(z as int);
    proof {
        assert(forall|i2: int|
            0 <= i2 < stripped.len() ==> stripped[i2] == int_digits@[z + i2]);
        assert(all_digits(stripped));
    }
    let ghost exact = (digits_val(int_digits@) * (factor as nat) + spec_frac_value(
        frac_digits@,
        factor as nat,
    )) as nat;
    if stripped_len > 20 {
        proof {
            assert(strutil::digit_val(stripped[0]) >= 1);
            lemma_digits_lower_bound(stripped);
            lemma_pow10_mono(20, stripped.len() - 1);
            lemma_pow10_21();
            assert(digits_val(stripped) > u64::MAX);
            assert(digits_val(int_digits@) * (factor as nat) >= digits_val(int_digits@) * 1) by (
            nonlinear_arith)
                requires
                    factor >= 1,
            ;
            assert(exact > u64::MAX);
        }
        return Some(u64::MAX);
    }
    let iv = digits_to_u128_exact(&int_digits, z);
    proof {
        assert(int_digits@.subrange(z as int, int_digits@.len() as int) =~= stripped);
        lemma_digits_small(stripped);
        lemma_pow10_mono(stripped.len() as int, 20);
        lemma_pow10_21();
        assert(iv < pow10(20));
    }
    // The fraction: only the first nine digits weigh in.
    let frac_take: usize = if frac_digits.len() <= 9 {
        frac_digits.len()
    } else {
        9
    };
    let frac9 = copy_range(&frac_digits, 0, frac_take);
    proof {
        if frac_digits@.len() <= 9 {
            assert(frac9@ =~= frac_digits@);
        } else {
            assert(frac9@ =~= frac_digits@.take(9));
        }
        assert(forall|i2: int| 0 <= i2 < frac9@.len() ==> frac9@[i2] == frac_digits@[i2]);
        assert(all_digits(frac9@));
    }
    let fv = digits_to_u128_exact(&frac9, 0);
    proof {
        assert(frac9@.subrange(0, frac9@.len() as int) =~= frac9@);
        lemma_digits_small(frac9@);
        lemma_pow10_mono(frac9@.len() as int, 9);
        lemma_pow10_21();
        assert(fv < pow10(9));
    }
    let p: u128 = if frac_take == 0 {
        1
    } else if frac_take == 1 {
        10
    } else if frac_take == 2 {
        100
    } else if frac_take == 3 {
        1000
    } else if frac_take == 4 {
        10000
    } else if frac_take == 5 {
        100000
    } else if frac_take == 6 {
        1000000
    } else if frac_take == 7 {
        10000000
    } else if frac_take == 8 {
        100000000
    } else {
        1000000000
    };
    proof {
        lemma_pow10_21();
        assert(pow10(0) == 1);
        assert(pow10(1) == 10);
        assert(pow10(2) == 100);
        assert(pow10(3) == 1000);
        assert(pow10(4) == 10000);
        assert(pow10(5) == 100000);
        assert(pow10(6) == 1000000);
        assert(pow10(7) == 10000000);
        assert(pow10(8) == 100000000);
        assert(p as nat == pow10(frac_take as int));
    }
    let fcontrib: u128 = if frac_take == 0 {
        0
    } else {
        proof {
            lemma_pow10_21();
            assert(2 * fv * factor + p < 10000000000000000000000000) by (nonlinear_arith)
                requires
                    fv < 1000000000,
                    factor <= 1125899906842624,
                    p <= 1000000000,
            ;
        }
        (2 * fv * factor + p) / (2 * p)
    };
    proof {
        assert(fcontrib as nat == spec_frac_value(frac_digits@, factor as nat));
        if frac_take > 0 {
            assert(fcontrib <= 2 * fv * factor + p);
        }
    }
    proof {
        lemma_pow10_21();
        assert(iv * factor <= 100000000000000000000 * 1125899906842624) by (nonlinear_arith)
            requires
                iv <= 100000000000000000000,
                factor <= 1125899906842624,
        ;
    }
    let total: u128 = iv * factor + fcontrib;
    proof {
        assert(total as nat == exact);
    }
    if total > 0xFFFF_FFFF_FFFF_FFFF {
        return Some(u64::MAX);
    }
    Some(total as u64)
}

fn check_all_digits(v: &Vec<char>) -> (r: bool)
    ensures
        r == all_digits(v@),
{
    let mut j: usize = 0;
    while j < v.len()
        invariant
            j <= v.len(),
            forall|i2: int| 0 <= i2 < j ==> strutil::is_digit_char(#[trigger] v@[i2]),
        decreases v.len() - j,
    {
        if !strutil::is_digit(v[j]) {
            return false;
        }
        j = j + 1;
    }
    true
}

fn eq_lit(v: &Vec<char>, lit: &str) -> (r: bool)
    ensures
        r == (v@ == lit@),
{
    let l = strutil::to_chars(lit);
    strutil::chars_eq(v, &l)
}

// ---------------------------------------------------------------------------
// Journal disk usage
// ---------------------------------------------------------------------------

/// Trailing dots and commas removed, as punctuation after a size token.
pub open spec fn strip_end_punct(s: Seq<char>) -> Seq<char>
    decreases s.len(),
{
    if s.len() > 0 && (s.last() == '.' || s.last() == ',') {
        strip_end_punct(s.drop_last())
    } else {
        s
    }
}

proof fn lemma_strip_end_punct_at(s: Seq<char>, b: int)
    requires
        0 <= b <= s.len(),
        forall|j: int| b <= j < s.len() ==> s[j] == '.' || s[j] == ',',
        b == 0 || !(s[b - 1] == '.' || s[b - 1] == ','),
    ensures
        strip_end_punct(s) == s.take(b),
    decreases s.len() - b,
{
    if b == s.len() {
        assert(s.take(b) =~= s);
    } else {
        lemma_strip_end_punct_at(s.drop_last(), b);
        assert(s.drop_last().take(b) =~= s.take(b));
    }
}

fn strip_end_punct_exec(s: &Vec<char>) -> (r: Vec<char>)
    ensures
        r@ == strip_end_punct(s@),
{
    let mut b: usize = s.len();
    while b > 0 && (s[b - 1] == '.' || s[b - 1] == ',')
        invariant
            b <= s.len(),
            forall|j: int| b <= j < s.len() ==> s@[j] == '.' || s@[j] == ',',
        decreases b,
    {
        b = b - 1;
    }
    let mut r: Vec<char> = Vec::new();
    let mut i: usize = 0;
    while i < b
        invariant
            i <= b <= s.len(),
            r@ =~= s@.take(i as int),
        decreases b - i,
    {
        r.push(s[i]);
        proof {
            assert(r@ =~= s@.take(i + 1));
        }
        i = i + 1;
    }
    proof {
        lemma_strip_end_punct_at(s@, b as int);
    }
    r
}

pub open spec fn is_ascii_letter(c: char) -> bool {
    (97 <= c as u32 && c as u32 <= 122) || (65 <= c as u32 && c as u32 <= 90)
}

/// A token that can carry a size: it holds a digit and a letter.
pub open spec fn journal_token_ok(t: Seq<char>) -> bool {
    (exists|i: int| 0 <= i < t.len() && strutil::is_digit_char(#[trigger] t[i])) && (exists|i: int|
        0 <= i < t.len() && is_ascii_letter(#[trigger] t[i]))
}

/// The first size-like token of the usage line, parsed; nothing when no
/// token parses.
pub open spec fn spec_parse_journal(tokens: Seq<Seq<char>>) -> Option<nat>
    decreases tokens.len(),
{
    if tokens.len() == 0 {
        None
    } else {
        let t = strip_end_punct(tokens[0]);
        if journal_token_ok(t) && spec_parse_size(t) is Some {
            spec_parse_size(t)
        } else {
            spec_parse_journal(tokens.skip(1))
        }
    }
}

fn journal_token_ok_exec(t: &Vec<char>) -> (r: bool)
    ensures
        r == journal_token_ok(t@),
{
    let mut has_digit = false;
    let mut has_letter = false;
    let mut i: usize = 0;
    while i < t.len()
        invariant
            i <= t.len(),
            has_digit ==> exists|j: int|
                0 <= j < t@.len() && strutil::is_digit_char(#[trigger] t@[j]),
            !has_digit ==> forall|j: int| 0 <= j < i ==> !strutil::is_digit_char(#[trigger] t@[j]),
            has_letter ==> exists|j: int| 0 <= j < t@.len() && is_ascii_letter(#[trigger] t@[j]),
            !has_letter ==> forall|j: int| 0 <= j < i ==> !is_ascii_letter(#[trigger] t@[j]),
        decreases t.len() - i,
    {
        let u = t[i] as u32;
        if strutil::is_digit(t[i]) {
            has_digit = true;
        }
        if (97 <= u && u <= 122) || (65 <= u && u <= 90) {
            has_letter = true;
        }
        i = i + 1;
    }
    has_digit && has_letter
}

/// Reads the size out of a `journalctl --disk-usage` line: the first
/// token holding a digit and a letter that parses as a size.
pub fn parse_journal_size(output: &str) -> (r: Option<u64>)
    ensures
        match r {
            Some(n) => spec_parse_journal(strutil::ws_tokens(output@)) == Some(n as nat),
            None => spec_parse_journal(strutil::ws_tokens(output@)) is None,
        },
{
    let chars = strutil::to_chars(output);
    let tokens = strutil::split_ws(&chars);
    let ghost toks = strutil::seqs_of(tokens@);
    let mut k: usize = 0;
    proof {
        assert(toks.skip(0) =~= toks);
    }
    while k < tokens.len()
        invariant
            k <= tokens.len(),
            toks == strutil::seqs_of(tokens@),
            toks == strutil::ws_tokens(chars@),
            chars@ == output@,
            spec_parse_journal(toks) == spec_parse_journal(toks.skip(k as int)),
        decreases tokens.len() - k,
    {
        proof {
            assert(toks.skip(k as int)[0] == toks[k as int]);
            assert(toks.skip(k as int).skip(1) =~= toks.skip(k + 1));
            assert(toks[k as int] == tokens@[k as int]@);
        }
        let t = strip_end_punct_exec(&tokens[k]);
        if journal_token_ok_exec(&t) {
            let ts = strutil::from_chars(&t);
            if let Some(size) = parse_size_string(ts.as_str()) {
                return Some(size);
            }
        }
        k = k + 1;
    }
    proof {
        assert(toks.skip(toks.len() as int) =~= Seq::<Seq<char>>::empty());
    }
    None
}

} // verus!
