//! Verified glob matching: `*` matches any run of characters, `?` one
//! character, everything else itself; the whole text must match.

use vstd::prelude::*;
use crate::strutil;

verus! {

/// The meaning of a glob pattern, matched against the whole text.
pub open spec fn glob_matches(p: Seq<char>, t: Seq<char>) -> bool
    decreases p.len() + t.len(),
{
    if p.len() == 0 {
        t.len() == 0
    } else if p[0] == '*' {
        glob_matches(p.skip(1), t) || (t.len() > 0 && glob_matches(p, t.skip(1)))
    } else {
        t.len() > 0 && (p[0] == '?' || p[0] == t[0]) && glob_matches(p.skip(1), t.skip(1))
    }
}

fn glob_match_at(p: &Vec<char>, t: &Vec<char>, i: usize, j: usize) -> (r: bool)
    requires
        i <= p.len(),
        j <= t.len(),
    ensures
        r == glob_matches(p@.skip(i as int), t@.skip(j as int)),
    decreases p.len() - i + t.len() - j,
{
    proof {
        if i < p.len() {
            assert(p@.skip(i as int)[0] == p@[i as int]);
            assert(p@.skip(i as int).skip(1) =~= p@.skip(i + 1));
        }
        if j < t.len() {
            assert(t@.skip(j as int)[0] == t@[j as int]);
            assert(t@.skip(j as int).skip(1) =~= t@.skip(j + 1));
        }
    }
    if i == p.len() {
        proof {
            assert(p@.skip(i as int) =~= Seq::<char>::empty());
        }
        j == t.len()
    } else if p[i] == '*' {
        if glob_match_at(p, t, i + 1, j) {
            true
        } else if j < t.len() {
            glob_match_at(p, t, i, j + 1)
        } else {
            false
        }
    } else if j < t.len() && (p[i] == '?' || p[i] == t[j]) {
        glob_match_at(p, t, i + 1, j + 1)
    } else {
        false
    }
}

/// Whole-text glob matching.
pub fn glob_match(pattern: &Vec<char>, text: &Vec<char>) -> (r: bool)
    ensures
        r == glob_matches(pattern@, text@),
{
    let r = glob_match_at(pattern, text, 0, 0);
    proof {
        assert(pattern@.skip(0) =~= pattern@);
        assert(text@.skip(0) =~= text@);
    }
    r
}

/// A bare `*` matches every text.
pub proof fn lemma_star_matches_all(t: Seq<char>)
    ensures
        glob_matches(seq!['*'], t),
    decreases t.len(),
{
    let p = seq!['*'];
    assert(p.len() == 1 && p[0] == '*');
    if t.len() == 0 {
        assert(p.skip(1) =~= Seq::<char>::empty());
        assert(glob_matches(p.skip(1), t));
    } else {
        lemma_star_matches_all(t.skip(1));
        assert(t.len() > 0 && glob_matches(p, t.skip(1)));
    }
}

/// A pattern of literal characters followed by one `*` matches exactly
/// the texts that begin with those characters.
pub proof fn lemma_glob_prefix_star(prefix: Seq<char>, t: Seq<char>)
    requires
        forall|i: int| 0 <= i < prefix.len() ==> prefix[i] != '*' && prefix[i] != '?',
        strutil::prefix_of(prefix, t),
    ensures
        glob_matches(prefix.push('*'), t),
    decreases prefix.len(),
{
    let p = prefix.push('*');
    if prefix.len() == 0 {
        assert(p =~= seq!['*']);
        lemma_star_matches_all(t);
    } else {
        assert(t.subrange(0, prefix.len() as int)[0] == t[0]);
        assert(p[0] == prefix[0]);
        assert(prefix[0] == t[0]);
        let prefix2 = prefix.skip(1);
        let t2 = t.skip(1);
        assert(t2.subrange(0, prefix2.len() as int) =~= prefix2) by {
            assert forall|k: int| 0 <= k < prefix2.len() implies t2.subrange(
                0,
                prefix2.len() as int,
            )[k] == prefix2[k] by {
                assert(t2.subrange(0, prefix2.len() as int)[k] == t[k + 1]);
                assert(t.subrange(0, prefix.len() as int)[k + 1] == t[k + 1]);
                assert(prefix2[k] == prefix[k + 1]);
            }
        }
        lemma_glob_prefix_star(prefix2, t2);
        assert(p.skip(1) =~= prefix2.push('*'));
        assert(glob_matches(p.skip(1), t.skip(1)));
        assert(t.len() > 0 && (p[0] == '?' || p[0] == t[0]));
    }
}

} // verus!
