//! Verified utilities over character sequences: predicates, trimming,
//! splitting and conversions shared by the parsers and matchers.

use vstd::prelude::*;
use vstd::string::StrSliceExecFns;
use vstd::string::StringExecFns;

verus! {

// ---------------------------------------------------------------------------
// Character classes
// ---------------------------------------------------------------------------

/// Whitespace as the parsers understand it: the ASCII space-like characters.
pub open spec fn is_space_char(c: char) -> bool {
    c == ' ' || c == '\t' || c == '\n' || c == '\r' || c == '\u{b}' || c == '\u{c}'
}

pub fn is_space(c: char) -> (b: bool)
    ensures
        b == is_space_char(c),
{
    c == ' ' || c == '\t' || c == '\n' || c == '\r' || c == '\u{b}' || c == '\u{c}'
}

pub open spec fn is_digit_char(c: char) -> bool {
    48 <= c as u32 && c as u32 <= 57
}

pub fn is_digit(c: char) -> (b: bool)
    ensures
        b == is_digit_char(c),
{
    let u = c as u32;
    48 <= u && u <= 57
}

/// The numeric value of a decimal digit character.
pub open spec fn digit_val(c: char) -> int {
    c as u32 - 48
}

/// Lower-casing of a single ASCII character; other characters are kept.
pub open spec fn lower_char(c: char) -> char {
    if c == 'A' { 'a' } else if c == 'B' { 'b' } else if c == 'C' { 'c' }
    else if c == 'D' { 'd' } else if c == 'E' { 'e' } else if c == 'F' { 'f' }
    else if c == 'G' { 'g' } else if c == 'H' { 'h' } else if c == 'I' { 'i' }
    else if c == 'J' { 'j' } else if c == 'K' { 'k' } else if c == 'L' { 'l' }
    else if c == 'M' { 'm' } else if c == 'N' { 'n' } else if c == 'O' { 'o' }
    else if c == 'P' { 'p' } else if c == 'Q' { 'q' } else if c == 'R' { 'r' }
    else if c == 'S' { 's' } else if c == 'T' { 't' } else if c == 'U' { 'u' }
    else if c == 'V' { 'v' } else if c == 'W' { 'w' } else if c == 'X' { 'x' }
    else if c == 'Y' { 'y' } else if c == 'Z' { 'z' } else { c }
}

/// Lower-casing of one character, executable form.
pub fn lower_char_exec(c: char) -> (r: char)
    ensures
        r == lower_char(c),
{
    if c == 'A' { 'a' } else if c == 'B' { 'b' } else if c == 'C' { 'c' }
    else if c == 'D' { 'd' } else if c == 'E' { 'e' } else if c == 'F' { 'f' }
    else if c == 'G' { 'g' } else if c == 'H' { 'h' } else if c == 'I' { 'i' }
    else if c == 'J' { 'j' } else if c == 'K' { 'k' } else if c == 'L' { 'l' }
    else if c == 'M' { 'm' } else if c == 'N' { 'n' } else if c == 'O' { 'o' }
    else if c == 'P' { 'p' } else if c == 'Q' { 'q' } else if c == 'R' { 'r' }
    else if c == 'S' { 's' } else if c == 'T' { 't' } else if c == 'U' { 'u' }
    else if c == 'V' { 'v' } else if c == 'W' { 'w' } else if c == 'X' { 'x' }
    else if c == 'Y' { 'y' } else if c == 'Z' { 'z' } else { c }
}

/// ASCII lower-casing of a character sequence.
pub open spec fn lower_seq(s: Seq<char>) -> Seq<char> {
    s.map_values(|c: char| lower_char(c))
}

// ---------------------------------------------------------------------------
// Prefix, suffix, containment
// ---------------------------------------------------------------------------

/// `p` is a prefix of `s`.
pub open spec fn prefix_of(p: Seq<char>, s: Seq<char>) -> bool {
    p.len() <= s.len() && s.subrange(0, p.len() as int) == p
}

/// `p` is a suffix of `s`.
pub open spec fn suffix_of(p: Seq<char>, s: Seq<char>) -> bool {
    p.len() <= s.len() && s.subrange(s.len() - p.len(), s.len() as int) == p
}

/// `sub` occurs contiguously somewhere in `s`.
pub open spec fn contains_seq(s: Seq<char>, sub: Seq<char>) -> bool {
    exists|k: int|
        0 <= k && k + sub.len() <= s.len() && #[trigger] s.subrange(k, k + sub.len()) == sub
}

/// `c` occurs in `s`.
pub open spec fn contains_char(s: Seq<char>, c: char) -> bool {
    exists|k: int| 0 <= k < s.len() && s[k] == c
}

pub fn chars_eq(a: &Vec<char>, b: &Vec<char>) -> (r: bool)
    ensures
        r == (a@ == b@),
{
    if a.len() != b.len() {
        return false;
    }
    let mut i: usize = 0;
    while i < a.len()
        invariant
            i <= a.len(),
            a.len() == b.len(),
            forall|j: int| 0 <= j < i ==> a@[j] == b@[j],
        decreases a.len() - i,
    {
        if a[i] != b[i] {
            return false;
        }
        i = i + 1;
    }
    proof {
        assert(a@ =~= b@);
    }
    true
}

pub fn starts_with(s: &Vec<char>, p: &Vec<char>) -> (r: bool)
    ensures
        r == prefix_of(p@, s@),
{
    if p.len() > s.len() {
        return false;
    }
    let mut i: usize = 0;
    while i < p.len()
        invariant
            i <= p.len() <= s.len(),
            forall|j: int| 0 <= j < i ==> s@[j] == p@[j],
        decreases p.len() - i,
    {
        if s[i] != p[i] {
            proof {
                assert(s@.subrange(0, p@.len() as int)[i as int] == s@[i as int]);
            }
            return false;
        }
        i = i + 1;
    }
    proof {
        assert(s@.subrange(0, p@.len() as int) =~= p@);
    }
    true
}

pub fn ends_with(s: &Vec<char>, p: &Vec<char>) -> (r: bool)
    ensures
        r == suffix_of(p@, s@),
{
    if p.len() > s.len() {
        return false;
    }
    let off: usize = s.len() - p.len();
    let mut i: usize = 0;
    while i < p.len()
        invariant
            i <= p.len() <= s.len(),
            off == s.len() - p.len(),
            forall|j: int| 0 <= j < i ==> s@[off + j] == p@[j],
        decreases p.len() - i,
    {
        if s[off + i] != p[i] {
            proof {
                assert(s@.subrange(s@.len() - p@.len(), s@.len() as int)[i as int]
                    == s@[off + i]);
            }
            return false;
        }
        i = i + 1;
    }
    proof {
        assert(s@.subrange(s@.len() - p@.len(), s@.len() as int) =~= p@);
    }
    true
}

/// Whether `sub` matches `s` at offset `k`.
fn matches_at(s: &Vec<char>, k: usize, sub: &Vec<char>) -> (r: bool)
    requires
        k + sub.len() <= s.len(),
    ensures
        r == (s@.subrange(k as int, k + sub@.len()) == sub@),
{
    let mut i: usize = 0;
    while i < sub.len()
        invariant
            i <= sub.len(),
            k + sub.len() <= s.len(),
            forall|j: int| 0 <= j < i ==> s@[k + j] == sub@[j],
        decreases sub.len() - i,
    {
        if s[k + i] != sub[i] {
            proof {
                assert(s@.subrange(k as int, k + sub@.len())[i as int] == s@[k + i]);
            }
            return false;
        }
        i = i + 1;
    }
    proof {
        assert(s@.subrange(k as int, k + sub@.len()) =~= sub@);
    }
    true
}

/// A match at one offset witnesses containment.
proof fn lemma_contains_at(s: Seq<char>, sub: Seq<char>, k: int)
    requires
        0 <= k,
        k + sub.len() <= s.len(),
        s.subrange(k, k + sub.len()) == sub,
    ensures
        contains_seq(s, sub),
{
}

pub fn contains(s: &Vec<char>, sub: &Vec<char>) -> (r: bool)
    ensures
        r == contains_seq(s@, sub@),
{
    if sub.len() == 0 {
        proof {
            assert(s@.subrange(0, 0) =~= sub@);
            lemma_contains_at(s@, sub@, 0);
        }
        return true;
    }
    if sub.len() > s.len() {
        return false;
    }
    let last: usize = s.len() - sub.len();
    let mut k: usize = 0;
    loop
        invariant
            k <= last + 1,
            1 <= sub.len() <= s.len(),
            last == s.len() - sub.len(),
            forall|j: int| 0 <= j < k ==> #[trigger] s@.subrange(j, j + sub@.len()) != sub@,
        decreases last + 1 - k,
    {
        if k > last {
            return false;
        }
        if matches_at(s, k, sub) {
            proof {
                lemma_contains_at(s@, sub@, k as int);
            }
            return true;
        }
        k = k + 1;
    }
}

pub fn has_char(s: &Vec<char>, c: char) -> (r: bool)
    ensures
        r == contains_char(s@, c),
{
    let mut i: usize = 0;
    while i < s.len()
        invariant
            i <= s.len(),
            forall|j: int| 0 <= j < i ==> s@[j] != c,
        decreases s.len() - i,
    {
        if s[i] == c {
            return true;
        }
        i = i + 1;
    }
    false
}

// ---------------------------------------------------------------------------
// Trimming
// ---------------------------------------------------------------------------

pub open spec fn trim_start_spec(s: Seq<char>) -> Seq<char>
    decreases s.len(),
{
    if s.len() > 0 && is_space_char(s[0]) {
        trim_start_spec(s.skip(1))
    } else {
        s
    }
}

pub open spec fn trim_end_spec(s: Seq<char>) -> Seq<char>
    decreases s.len(),
{
    if s.len() > 0 && is_space_char(s.last()) {
        trim_end_spec(s.drop_last())
    } else {
        s
    }
}

/// Both-ends trimming, as `str::trim` does for ASCII whitespace.
pub open spec fn trim_spec(s: Seq<char>) -> Seq<char> {
    trim_end_spec(trim_start_spec(s))
}

proof fn lemma_trim_start_at(s: Seq<char>, a: int)
    requires
        0 <= a <= s.len(),
        forall|j: int| 0 <= j < a ==> is_space_char(s[j]),
        a == s.len() || !is_space_char(s[a]),
    ensures
        trim_start_spec(s) == s.skip(a),
    decreases a,
{
    if a == 0 {
        assert(s.skip(0) =~= s);
    } else {
        lemma_trim_start_at(s.skip(1), a - 1);
        assert(s.skip(1).skip(a - 1) =~= s.skip(a));
    }
}

proof fn lemma_trim_end_at(s: Seq<char>, b: int)
    requires
        0 <= b <= s.len(),
        forall|j: int| b <= j < s.len() ==> is_space_char(s[j]),
        b == 0 || !is_space_char(s[b - 1]),
    ensures
        trim_end_spec(s) == s.take(b),
    decreases s.len() - b,
{
    if b == s.len() {
        assert(s.take(b) =~= s);
    } else {
        lemma_trim_end_at(s.drop_last(), b);
        assert(s.drop_last().take(b) =~= s.take(b));
    }
}

pub fn trim(s: &Vec<char>) -> (r: Vec<char>)
    ensures
        r@ == trim_spec(s@),
{
    let mut a: usize = 0;
    while a < s.len() && is_space(s[a])
        invariant
            a <= s.len(),
            forall|j: int| 0 <= j < a ==> is_space_char(s@[j]),
        decreases s.len() - a,
    {
        a = a + 1;
    }
    let mut b: usize = s.len();
    while b > a && is_space(s[b - 1])
        invariant
            a <= b <= s.len(),
            forall|j: int| 0 <= j < a ==> is_space_char(s@[j]),
            forall|j: int| b <= j < s.len() ==> is_space_char(s@[j]),
        decreases b,
    {
        b = b - 1;
    }
    let mut r: Vec<char> = Vec::new();
    let mut i: usize = a;
    while i < b
        invariant
            a <= i <= b <= s.len(),
            r@ =~= s@.subrange(a as int, i as int),
        decreases b - i,
    {
        r.push(s[i]);
        proof {
            assert(r@ =~= s@.subrange(a as int, i + 1));
        }
        i = i + 1;
    }
    proof {
        lemma_trim_start_at(s@, a as int);
        if b == a {
            lemma_trim_end_at(s@.skip(a as int), 0);
        } else {
            lemma_trim_end_at(s@.skip(a as int), b - a);
        }
        assert(s@.skip(a as int).take(b - a) =~= s@.subrange(a as int, b as int));
        assert(r@ =~= trim_spec(s@));
    }
    r
}

// ---------------------------------------------------------------------------
// Splitting
// ---------------------------------------------------------------------------

/// The views of a sequence of character vectors.
pub open spec fn seqs_of(v: Seq<Vec<char>>) -> Seq<Seq<char>> {
    Seq::new(v.len(), |i: int| v[i]@)
}

/// The views of a sequence of strings.
pub open spec fn strs_of(v: Seq<String>) -> Seq<Seq<char>> {
    Seq::new(v.len(), |i: int| v[i]@)
}

/// Splitting at every occurrence of `c`, keeping empty pieces, as
/// `str::split` does.
pub open spec fn split_spec(s: Seq<char>, c: char) -> Seq<Seq<char>>
    decreases s.len(),
{
    if s.len() == 0 {
        seq![Seq::<char>::empty()]
    } else {
        let rest = split_spec(s.drop_last(), c);
        if s.last() == c {
            rest.push(Seq::<char>::empty())
        } else {
            rest.update(rest.len() - 1, rest.last().push(s.last()))
        }
    }
}

pub proof fn lemma_split_len(s: Seq<char>, c: char)
    ensures
        split_spec(s, c).len() >= 1,
    decreases s.len(),
{
    if s.len() > 0 {
        lemma_split_len(s.drop_last(), c);
    }
}

pub fn split_chars(v: &Vec<char>, c: char) -> (r: Vec<Vec<char>>)
    ensures
        seqs_of(r@) == split_spec(v@, c),
{
    let mut done: Vec<Vec<char>> = Vec::new();
    let mut cur: Vec<char> = Vec::new();
    let mut i: usize = 0;
    proof {
        assert(seqs_of(done@).push(cur@) =~= split_spec(v@.take(0), c));
    }
    while i < v.len()
        invariant
            i <= v.len(),
            seqs_of(done@).push(cur@) =~= split_spec(v@.take(i as int), c),
        decreases v.len() - i,
    {
        proof {
            lemma_split_len(v@.take(i as int), c);
            assert(v@.take(i + 1).drop_last() =~= v@.take(i as int));
            assert(v@.take(i + 1).last() == v@[i as int]);
        }
        if v[i] == c {
            done.push(cur);
            cur = Vec::new();
            proof {
                assert(seqs_of(done@).push(cur@) =~= split_spec(v@.take(i + 1), c));
            }
        } else {
            cur.push(v[i]);
            proof {
                let prev = split_spec(v@.take(i as int), c);
                assert(seqs_of(done@).push(cur@) =~= prev.update(
                    prev.len() - 1,
                    prev.last().push(v@[i as int]),
                ));
            }
        }
        i = i + 1;
    }
    proof {
        assert(v@.take(v@.len() as int) =~= v@);
    }
    done.push(cur);
    proof {
        assert(seqs_of(done@) =~= split_spec(v@, c));
    }
    done
}

/// Whitespace-separated tokens, as `str::split_whitespace` does: no
/// empty tokens, runs of whitespace collapse.
pub open spec fn ws_tokens(s: Seq<char>) -> Seq<Seq<char>>
    decreases s.len(),
{
    if s.len() == 0 {
        Seq::empty()
    } else {
        let rest = ws_tokens(s.drop_last());
        if is_space_char(s.last()) {
            rest
        } else if s.len() >= 2 && !is_space_char(s[s.len() - 2]) {
            rest.update(rest.len() - 1, rest.last().push(s.last()))
        } else {
            rest.push(seq![s.last()])
        }
    }
}

proof fn lemma_ws_tokens_nonempty(s: Seq<char>)
    requires
        s.len() > 0,
        !is_space_char(s.last()),
    ensures
        ws_tokens(s).len() >= 1,
    decreases s.len(),
{
    if s.len() >= 2 && !is_space_char(s[s.len() - 2]) {
        lemma_ws_tokens_nonempty(s.drop_last());
    }
}

pub fn split_ws(v: &Vec<char>) -> (r: Vec<Vec<char>>)
    ensures
        seqs_of(r@) == ws_tokens(v@),
{
    let mut done: Vec<Vec<char>> = Vec::new();
    let mut cur: Vec<char> = Vec::new();
    let mut i: usize = 0;
    while i < v.len()
        invariant
            i <= v.len(),
            cur.len() > 0 <==> (i > 0 && !is_space_char(v@[i - 1])),
            (if cur.len() > 0 {
                seqs_of(done@).push(cur@)
            } else {
                seqs_of(done@)
            }) =~= ws_tokens(v@.take(i as int)),
        decreases v.len() - i,
    {
        proof {
            assert(v@.take(i + 1).drop_last() =~= v@.take(i as int));
            assert(v@.take(i + 1).last() == v@[i as int]);
            if i >= 1 {
                assert(v@.take(i + 1)[i - 1] == v@[i - 1]);
            }
            if v@.take(i + 1).len() >= 1 && !is_space_char(v@.take(i + 1).last()) {
                lemma_ws_tokens_nonempty(v@.take(i + 1));
            }
        }
        if is_space(v[i]) {
            if cur.len() > 0 {
                done.push(cur);
                cur = Vec::new();
            }
            proof {
                assert(seqs_of(done@) =~= ws_tokens(v@.take(i + 1)));
            }
        } else {
            if cur.len() > 0 {
                cur.push(v[i]);
                proof {
                    let prev = ws_tokens(v@.take(i as int));
                    assert(seqs_of(done@).push(cur@) =~= prev.update(
                        prev.len() - 1,
                        prev.last().push(v@[i as int]),
                    ));
                }
            } else {
                cur.push(v[i]);
                proof {
                    assert(cur@ =~= seq![v@[i as int]]);
                    assert(seqs_of(done@).push(cur@) =~= ws_tokens(v@.take(i as int)).push(
                        seq![v@[i as int]],
                    ));
                }
            }
        }
        i = i + 1;
    }
    proof {
        assert(v@.take(v@.len() as int) =~= v@);
    }
    if cur.len() > 0 {
        done.push(cur);
    }
    proof {
        assert(seqs_of(done@) =~= ws_tokens(v@));
    }
    done
}

// ---------------------------------------------------------------------------
// Lines
// ---------------------------------------------------------------------------

/// One trailing carriage return is removed, as `str::lines` does for
/// `\r\n` endings.
pub open spec fn strip_cr(s: Seq<char>) -> Seq<char> {
    if s.len() > 0 && s.last() == '\r' {
        s.drop_last()
    } else {
        s
    }
}

/// The lines of `s`, as `str::lines` produces them: pieces between
/// newlines, a final newline optional, `\r\n` treated as one ending.
pub open spec fn lines_spec(s: Seq<char>) -> Seq<Seq<char>> {
    if s.len() == 0 {
        Seq::empty()
    } else {
        let raw = split_spec(s, '\n');
        if s.last() == '\n' {
            raw.drop_last().map_values(|p: Seq<char>| strip_cr(p))
        } else {
            raw.take(raw.len() - 1).map_values(|p: Seq<char>| strip_cr(p)).push(raw.last())
        }
    }
}

fn strip_cr_exec(p: Vec<char>) -> (r: Vec<char>)
    ensures
        r@ == strip_cr(p@),
{
    let mut p = p;
    if p.len() > 0 && p[p.len() - 1] == '\r' {
        let _ = p.pop();
    }
    p
}

pub fn split_lines_chars(v: &Vec<char>) -> (r: Vec<Vec<char>>)
    ensures
        seqs_of(r@) == lines_spec(v@),
{
    if v.len() == 0 {
        let r: Vec<Vec<char>> = Vec::new();
        proof {
            assert(seqs_of(r@) =~= lines_spec(v@));
        }
        return r;
    }
    let mut raw = split_chars(v, '\n');
    proof {
        lemma_split_len(v@, '\n');
    }
    let ends_nl = v[v.len() - 1] == '\n';
    let mut keep: usize = raw.len() - 1;
    let mut out: Vec<Vec<char>> = Vec::new();
    let mut i: usize = 0;
    // Move the kept pieces out of `raw` front to back.
    let last_piece = if ends_nl {
        None
    } else {
        Some(raw.pop().unwrap())
    };
    while i < keep
        invariant
            i <= keep,
            keep <= raw.len(),
            seqs_of(raw@) == (if ends_nl {
                split_spec(v@, '\n')
            } else {
                split_spec(v@, '\n').drop_last()
            }),
            keep == split_spec(v@, '\n').len() - 1,
            out@.len() == i,
            forall|j: int| 0 <= j < i ==> out@[j]@ == strip_cr(split_spec(v@, '\n')[j]),
        decreases keep - i,
    {
        let piece = raw[i].clone();
        proof {
            assert(seqs_of(raw@)[i as int] == raw@[i as int]@);
        }
        let stripped = strip_cr_exec(piece);
        out.push(stripped);
        i = i + 1;
    }
    match last_piece {
        Some(p) => {
            out.push(p);
            proof {
                let raw_s = split_spec(v@, '\n');
                assert(seqs_of(out@) =~= raw_s.take(raw_s.len() - 1).map_values(
                    |p: Seq<char>| strip_cr(p),
                ).push(raw_s.last()));
            }
        }
        None => {
            proof {
                let raw_s = split_spec(v@, '\n');
                assert(seqs_of(out@) =~= raw_s.drop_last().map_values(
                    |p: Seq<char>| strip_cr(p),
                ));
            }
        }
    }
    out
}

// ---------------------------------------------------------------------------
// Conversions between `String` and `Vec<char>`
// ---------------------------------------------------------------------------

pub fn to_chars(s: &str) -> (r: Vec<char>)
    ensures
        r@ == s@,
{
    let n = s.unicode_len();
    let mut r: Vec<char> = Vec::new();
    let mut i: usize = 0;
    while i < n
        invariant
            i <= n,
            n == s@.len(),
            r@ =~= s@.take(i as int),
        decreases n - i,
    {
        r.push(s.get_char(i));
        proof {
            assert(r@ =~= s@.take(i + 1));
        }
        i = i + 1;
    }
    proof {
        assert(s@.take(n as int) =~= s@);
    }
    r
}

/// Relies on `String`'s `FromIterator` impl: collecting an iterator of
/// characters yields the string of exactly those characters in order.
#[verifier::external_body]
pub fn from_chars(v: &Vec<char>) -> (r: String)
    ensures
        r@ == v@,
{
    v.iter().collect()
}

pub fn str_eq(a: &str, b: &str) -> (r: bool)
    ensures
        r == (a@ == b@),
{
    let na = a.unicode_len();
    let nb = b.unicode_len();
    if na != nb {
        return false;
    }
    let mut i: usize = 0;
    while i < na
        invariant
            i <= na,
            na == a@.len(),
            na == b@.len(),
            forall|j: int| 0 <= j < i ==> a@[j] == b@[j],
        decreases na - i,
    {
        if a.get_char(i) != b.get_char(i) {
            return false;
        }
        i = i + 1;
    }
    proof {
        assert(a@ =~= b@);
    }
    true
}

pub fn copy_strings(v: &Vec<String>) -> (r: Vec<String>)
    ensures
        r@ == v@,
{
    let mut r: Vec<String> = Vec::new();
    let mut i: usize = 0;
    while i < v.len()
        invariant
            i <= v.len(),
            r@ =~= v@.take(i as int),
        decreases v.len() - i,
    {
        r.push(v[i].clone());
        proof {
            assert(r@ =~= v@.take(i + 1));
        }
        i = i + 1;
    }
    proof {
        assert(v@.take(v@.len() as int) =~= v@);
    }
    r
}

pub fn to_ascii_lower(v: &Vec<char>) -> (r: Vec<char>)
    ensures
        r@ == lower_seq(v@),
{
    let mut r: Vec<char> = Vec::new();
    let mut i: usize = 0;
    while i < v.len()
        invariant
            i <= v.len(),
            r@ =~= v@.take(i as int).map_values(|c: char| lower_char(c)),
        decreases v.len() - i,
    {
        let lc = lower_char_exec(v[i]);
        r.push(lc);
        proof {
            assert(v@.take(i + 1).map_values(|c: char| lower_char(c)) =~= v@.take(
                i as int,
            ).map_values(|c: char| lower_char(c)).push(lower_char(v@[i as int])));
            assert(r@ =~= v@.take(i + 1).map_values(|c: char| lower_char(c)));
        }
        i = i + 1;
    }
    proof {
        assert(v@.take(v@.len() as int) =~= v@);
    }
    r
}

} // verus!
