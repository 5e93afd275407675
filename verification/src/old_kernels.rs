//! Old-kernel discovery: which installed kernel packages belong to
//! versions that may be removed, keeping the running kernel and the
//! most recent versions.

use vstd::prelude::*;
use vstd::string::StringExecFns;
use crate::checksum;
use crate::models::{CleanupCategory, CleanupItem, CleanupSource};
use crate::strutil;

verus! {

// ---------------------------------------------------------------------------
// Version extraction
// ---------------------------------------------------------------------------

/// A version-like tail: holds a digit and a dot or dash separator.
pub open spec fn version_like_spec(v: Seq<char>) -> bool {
    (exists|i: int| 0 <= i < v.len() && strutil::is_digit_char(#[trigger] v[i]))
        && (strutil::contains_char(v, '.') || strutil::contains_char(v, '-'))
}

/// Whether the value looks like a kernel version.
pub fn is_version_like(value: &str) -> (r: bool)
    ensures
        r == version_like_spec(value@),
{
    let v = strutil::to_chars(value);
    let mut has_digit = false;
    let mut i: usize = 0;
    while i < v.len()
        invariant
            i <= v.len(),
            has_digit ==> exists|j: int|
                0 <= j < v@.len() && strutil::is_digit_char(#[trigger] v@[j]),
            !has_digit ==> forall|j: int| 0 <= j < i ==> !strutil::is_digit_char(#[trigger] v@[j]),
        decreases v.len() - i,
    {
        if strutil::is_digit(v[i]) {
            has_digit = true;
        }
        i = i + 1;
    }
    has_digit && (strutil::has_char(&v, '.') || strutil::has_char(&v, '-'))
}

/// The version a package name denotes: the tail after the first listed
/// prefix that leaves a version-like remainder.
pub open spec fn extract_version_spec(pkg: Seq<char>, prefixes: Seq<Seq<char>>) -> Option<Seq<char>>
    decreases prefixes.len(),
{
    if prefixes.len() == 0 {
        None
    } else if strutil::prefix_of(prefixes[0], pkg) && version_like_spec(
        pkg.skip(prefixes[0].len() as int),
    ) {
        Some(pkg.skip(prefixes[0].len() as int))
    } else {
        extract_version_spec(pkg, prefixes.skip(1))
    }
}

/// Extracts the kernel version from a package name; meta packages
/// without a version-like tail yield nothing.
pub fn extract_kernel_version(package: &str, prefixes: &Vec<String>) -> (r: Option<String>)
    ensures
        match r {
            Some(v) => Some(v@) == extract_version_spec(package@, strutil::strs_of(prefixes@)),
            None => extract_version_spec(package@, strutil::strs_of(prefixes@)) is None,
        },
{
    let pkg = strutil::to_chars(package);
    let ghost ps = strutil::strs_of(prefixes@);
    let mut i: usize = 0;
    proof {
        assert(ps.skip(0) =~= ps);
    }
    while i < prefixes.len()
        invariant
            i <= prefixes.len(),
            pkg@ == package@,
            ps == strutil::strs_of(prefixes@),
            extract_version_spec(package@, ps) == extract_version_spec(
                package@,
                ps.skip(i as int),
            ),
        decreases prefixes.len() - i,
    {
        proof {
            assert(ps.skip(i as int)[0] == ps[i as int]);
            assert(ps.skip(i as int).skip(1) =~= ps.skip(i + 1));
            assert(ps[i as int] == prefixes@[i as int]@);
        }
        let pre = strutil::to_chars(prefixes[i].as_str());
        if strutil::starts_with(&pkg, &pre) {
            // The remainder after the prefix.
            let mut rest: Vec<char> = Vec::new();
            let mut j: usize = pre.len();
            while j < pkg.len()
                invariant
                    pre.len() <= j <= pkg.len(),
                    rest@ =~= pkg@.subrange(pre@.len() as int, j as int),
                decreases pkg.len() - j,
            {
                rest.push(pkg[j]);
                proof {
                    assert(rest@ =~= pkg@.subrange(pre@.len() as int, j + 1));
                }
                j = j + 1;
            }
            proof {
                assert(pkg@.subrange(pre@.len() as int, pkg@.len() as int) =~= pkg@.skip(
                    pre@.len() as int,
                ));
            }
            let rest_s = strutil::from_chars(&rest);
            if is_version_like(rest_s.as_str()) {
                return Some(rest_s);
            }
        }
        i = i + 1;
    }
    proof {
        assert(ps.skip(ps.len() as int) =~= Seq::<Seq<char>>::empty());
    }
    None
}

// ---------------------------------------------------------------------------
// Kernel package list parsing
// ---------------------------------------------------------------------------

/// The lines `rpm -q kernel...` prints for installed packages: trimmed,
/// non-empty, and not a "not installed" notice.
pub open spec fn rpm_kernel_lines_spec(ls: Seq<Seq<char>>) -> Seq<Seq<char>>
    decreases ls.len(),
{
    if ls.len() == 0 {
        Seq::empty()
    } else {
        let rest = rpm_kernel_lines_spec(ls.drop_last());
        let t = strutil::trim_spec(ls.last());
        if t.len() > 0 && !strutil::contains_seq(t, "not installed"@) {
            rest.push(t)
        } else {
            rest
        }
    }
}

/// Parses `rpm -q` output for kernel packages.
pub fn parse_rpm_kernel_packages(output: &str) -> (r: Vec<String>)
    ensures
        strutil::strs_of(r@) == rpm_kernel_lines_spec(strutil::lines_spec(output@)),
{
    let chars = strutil::to_chars(output);
    let lines = strutil::split_lines_chars(&chars);
    let marker = strutil::to_chars("not installed");
    let mut r: Vec<String> = Vec::new();
    let mut i: usize = 0;
    proof {
        assert(strutil::seqs_of(lines@).take(0) =~= Seq::<Seq<char>>::empty());
        assert(strutil::strs_of(r@) =~= rpm_kernel_lines_spec(strutil::seqs_of(lines@).take(0)));
    }
    while i < lines.len()
        invariant
            i <= lines.len(),
            marker@ == "not installed"@,
            strutil::seqs_of(lines@) == strutil::lines_spec(output@),
            strutil::strs_of(r@) == rpm_kernel_lines_spec(
                strutil::seqs_of(lines@).take(i as int),
            ),
        decreases lines.len() - i,
    {
        proof {
            assert(strutil::seqs_of(lines@).take(i + 1).drop_last() =~= strutil::seqs_of(
                lines@,
            ).take(i as int));
            assert(strutil::seqs_of(lines@).take(i + 1).last() == strutil::seqs_of(lines@)[
                i as int
            ]);
            assert(strutil::seqs_of(lines@)[i as int] == lines@[i as int]@);
        }
        let t = strutil::trim(&lines[i]);
        if t.len() > 0 && !strutil::contains(&t, &marker) {
            let ghost pre = strutil::strs_of(r@);
            let ts = strutil::from_chars(&t);
            r.push(ts);
            proof {
                assert(strutil::strs_of(r@) =~= pre.push(t@));
                assert(strutil::strs_of(r@) =~= rpm_kernel_lines_spec(
                    strutil::seqs_of(lines@).take(i + 1),
                ));
            }
        } else {
            proof {
                assert(strutil::strs_of(r@) =~= rpm_kernel_lines_spec(
                    strutil::seqs_of(lines@).take(i + 1),
                ));
            }
        }
        i = i + 1;
    }
    proof {
        assert(strutil::seqs_of(lines@).take(lines@.len() as int) =~= strutil::seqs_of(lines@));
    }
    r
}

/// The installed image packages of `dpkg -l`: the second token of every
/// trimmed line beginning with `ii`.
pub open spec fn apt_kernel_lines_spec(ls: Seq<Seq<char>>) -> Seq<Seq<char>>
    decreases ls.len(),
{
    if ls.len() == 0 {
        Seq::empty()
    } else {
        let rest = apt_kernel_lines_spec(ls.drop_last());
        let t = strutil::trim_spec(ls.last());
        if strutil::prefix_of("ii"@, t) && strutil::ws_tokens(t).len() >= 2 {
            rest.push(strutil::ws_tokens(t)[1])
        } else {
            rest
        }
    }
}

/// Parses `dpkg -l` output for kernel image packages.
pub fn parse_apt_kernel_packages(output: &str) -> (r: Vec<String>)
    ensures
        strutil::strs_of(r@) == apt_kernel_lines_spec(strutil::lines_spec(output@)),
{
    let chars = strutil::to_chars(output);
    let lines = strutil::split_lines_chars(&chars);
    let header = strutil::to_chars("ii");
    let mut r: Vec<String> = Vec::new();
    let mut i: usize = 0;
    proof {
        assert(strutil::seqs_of(lines@).take(0) =~= Seq::<Seq<char>>::empty());
        assert(strutil::strs_of(r@) =~= apt_kernel_lines_spec(strutil::seqs_of(lines@).take(0)));
    }
    while i < lines.len()
        invariant
            i <= lines.len(),
            header@ == "ii"@,
            strutil::seqs_of(lines@) == strutil::lines_spec(output@),
            strutil::strs_of(r@) == apt_kernel_lines_spec(
                strutil::seqs_of(lines@).take(i as int),
            ),
        decreases lines.len() - i,
    {
        proof {
            assert(strutil::seqs_of(lines@).take(i + 1).drop_last() =~= strutil::seqs_of(
                lines@,
            ).take(i as int));
            assert(strutil::seqs_of(lines@).take(i + 1).last() == strutil::seqs_of(lines@)[
                i as int
            ]);
            assert(strutil::seqs_of(lines@)[i as int] == lines@[i as int]@);
        }
        let t = strutil::trim(&lines[i]);
        let mut pushed = false;
        if strutil::starts_with(&t, &header) {
            let tokens = strutil::split_ws(&t);
            if tokens.len() >= 2 {
                let ghost pre = strutil::strs_of(r@);
                proof {
                    assert(strutil::seqs_of(tokens@)[1] == tokens@[1]@);
                }
                let ts = strutil::from_chars(&tokens[1]);
                r.push(ts);
                pushed = true;
                proof {
                    assert(strutil::strs_of(r@) =~= pre.push(strutil::ws_tokens(t@)[1]));
                    assert(strutil::strs_of(r@) =~= apt_kernel_lines_spec(
                        strutil::seqs_of(lines@).take(i + 1),
                    ));
                }
            }
        }
        if !pushed {
            proof {
                assert(strutil::strs_of(r@) =~= apt_kernel_lines_spec(
                    strutil::seqs_of(lines@).take(i + 1),
                ));
            }
        }
        i = i + 1;
    }
    proof {
        assert(strutil::seqs_of(lines@).take(lines@.len() as int) =~= strutil::seqs_of(lines@));
    }
    r
}

// ---------------------------------------------------------------------------
// Version retention
// ---------------------------------------------------------------------------

/// Rank order of `(version, modification time)` pairs: newer first, and
/// at equal times the byte-wise greater version first.
pub open spec fn ranks_before(a: (Seq<char>, int), b: (Seq<char>, int)) -> bool {
    a.1 > b.1 || (a.1 == b.1 && checksum::bytes_lt(
        vstd::utf8::encode_utf8(b.0),
        vstd::utf8::encode_utf8(a.0),
    ))
}

/// Stable insertion into a rank-sorted list.
pub open spec fn insert_by_rank(s: Seq<(Seq<char>, int)>, e: (Seq<char>, int)) -> Seq<
    (Seq<char>, int),
>
    decreases s.len(),
{
    if s.len() == 0 {
        seq![e]
    } else if ranks_before(e, s[0]) {
        seq![e] + s
    } else {
        seq![s[0]] + insert_by_rank(s.skip(1), e)
    }
}

/// Stable insertion sort by rank, best-kept first.
pub open spec fn sort_by_rank(s: Seq<(Seq<char>, int)>) -> Seq<(Seq<char>, int)>
    decreases s.len(),
{
    if s.len() == 0 {
        Seq::empty()
    } else {
        insert_by_rank(sort_by_rank(s.drop_last()), s.last())
    }
}

pub open spec fn version_models(v: Seq<(String, i64)>) -> Seq<(Seq<char>, int)> {
    Seq::new(v.len(), |i: int| (v[i].0@, v[i].1 as int))
}

/// Whether a version string stands in the list.
pub open spec fn contains_str(v: Seq<String>, s: Seq<char>) -> bool {
    exists|j: int| 0 <= j < v.len() && (#[trigger] v[j])@ == s
}

/// The versions that survive: the current kernel's, when known, and the
/// most recent `keep_recent` versions by rank.
pub open spec fn spec_kept_version(
    sorted: Seq<(Seq<char>, int)>,
    current: Seq<char>,
    keep_recent: int,
    s: Seq<char>,
) -> bool {
    (current.len() > 0 && s == current) || exists|i: int|
        0 <= i < sorted.len() && i < keep_recent && (#[trigger] sorted[i]).0 == s
}

fn contains_string(v: &Vec<String>, s: &str) -> (r: bool)
    ensures
        r == contains_str(v@, s@),
{
    let mut i: usize = 0;
    while i < v.len()
        invariant
            i <= v.len(),
            forall|j: int| 0 <= j < i ==> (#[trigger] v@[j])@ != s@,
        decreases v.len() - i,
    {
        if strutil::str_eq(v[i].as_str(), s) {
            return true;
        }
        i = i + 1;
    }
    false
}

fn ranks_before_exec(av: &String, at: i64, bv: &String, bt: i64) -> (r: bool)
    ensures
        r == ranks_before((av@, at as int), (bv@, bt as int)),
{
    if at > bt {
        true
    } else if at < bt {
        false
    } else {
        let ab = av.as_str().as_bytes_vec();
        let bb = bv.as_str().as_bytes_vec();
        checksum::bytes_less(&bb, &ab)
    }
}

proof fn lemma_insert_by_rank_at(s: Seq<(Seq<char>, int)>, e: (Seq<char>, int), k: int)
    requires
        0 <= k <= s.len(),
        forall|j: int| 0 <= j < k ==> !ranks_before(e, #[trigger] s[j]),
        k == s.len() || ranks_before(e, s[k]),
    ensures
        insert_by_rank(s, e) == s.insert(k, e),
    decreases s.len(),
{
    if s.len() == 0 {
        assert(insert_by_rank(s, e) =~= s.insert(0, e));
    } else if k == 0 {
        assert(insert_by_rank(s, e) =~= s.insert(0, e));
    } else {
        lemma_insert_by_rank_at(s.skip(1), e, k - 1);
        assert(seq![s[0]] + s.skip(1).insert(k - 1, e) =~= s.insert(k, e));
    }
}

/// The first position whose entry the new pair outranks.
fn find_rank_pos(out: &Vec<(String, i64)>, ev: &String, et: i64) -> (k: usize)
    ensures
        k <= out.len(),
        forall|j: int|
            0 <= j < k ==> !ranks_before((ev@, et as int), #[trigger] version_models(out@)[j]),
        k < out.len() ==> ranks_before((ev@, et as int), version_models(out@)[k as int]),
{
    let mut k: usize = 0;
    while k < out.len()
        invariant
            k <= out.len(),
            forall|j: int|
                0 <= j < k ==> !ranks_before((ev@, et as int), #[trigger] version_models(out@)[j]),
        decreases out.len() - k,
    {
        proof {
            assert(version_models(out@)[k as int] == (out@[k as int].0@, out@[k as int].1 as int));
        }
        if ranks_before_exec(ev, et, &out[k].0, out[k].1) {
            return k;
        }
        k = k + 1;
    }
    k
}

fn sort_versions(versions: &Vec<(String, i64)>) -> (r: Vec<(String, i64)>)
    ensures
        version_models(r@) == sort_by_rank(version_models(versions@)),
{
    let mut out: Vec<(String, i64)> = Vec::new();
    let mut i: usize = 0;
    proof {
        assert(version_models(versions@).take(0) =~= Seq::<(Seq<char>, int)>::empty());
        assert(version_models(out@) =~= sort_by_rank(version_models(versions@).take(0)));
    }
    while i < versions.len()
        invariant
            i <= versions.len(),
            version_models(out@) == sort_by_rank(version_models(versions@).take(i as int)),
        decreases versions.len() - i,
    {
        let ev = versions[i].0.clone();
        let et = versions[i].1;
        let k = find_rank_pos(&out, &ev, et);
        proof {
            lemma_insert_by_rank_at(version_models(out@), (ev@, et as int), k as int);
        }
        out.insert(k, (ev, et));
        proof {
            assert(version_models(versions@).take(i + 1).drop_last() =~= version_models(
                versions@,
            ).take(i as int));
            assert(version_models(versions@).take(i + 1).last() == version_models(versions@)[
                i as int
            ]);
            assert(version_models(out@) =~= sort_by_rank(
                version_models(versions@).take(i as int),
            ).insert(k as int, version_models(versions@)[i as int]));
        }
        i = i + 1;
    }
    proof {
        assert(version_models(versions@).take(versions@.len() as int) =~= version_models(
            versions@,
        ));
    }
    out
}

/// The versions to keep: the running kernel's version, when known, and
/// the `keep_recent` most recent versions by modification time; each
/// listed once.
pub fn select_versions_to_keep(versions: Vec<(String, i64)>, current: &str, keep_recent: usize) -> (r: Vec<
    String,
>)
    ensures
        forall|j1: int, j2: int| 0 <= j1 < j2 < r@.len() ==> (#[trigger] r@[j1])@ != (
        #[trigger] r@[j2])@,
        forall|s: Seq<char>|
            #[trigger] contains_str(r@, s) <==> spec_kept_version(
                sort_by_rank(version_models(versions@)),
                current@,
                keep_recent as int,
                s,
            ),
{
    let ghost sorted_spec = sort_by_rank(version_models(versions@));
    let sorted = sort_versions(&versions);
    let mut r: Vec<String> = Vec::new();
    if !current.is_empty() {
        r.push(current.to_owned());
    }
    let mut i: usize = 0;
    proof {
        assert forall|s: Seq<char>| #[trigger] contains_str(r@, s) implies ((current@.len() > 0
            && s == current@) || exists|j: int|
            0 <= j < 0 && j < keep_recent && (#[trigger] sorted_spec[j]).0 == s) by {
            let w = choose|j: int| 0 <= j < r@.len() && (#[trigger] r@[j])@ == s;
            assert(r@[w]@ == current@);
        }
        if current@.len() > 0 {
            assert(r@[0]@ == current@);
            assert(contains_str(r@, current@));
        }
    }
    while i < sorted.len() && i < keep_recent
        invariant
            i <= sorted.len(),
            version_models(sorted@) == sorted_spec,
            forall|j1: int, j2: int| 0 <= j1 < j2 < r@.len() ==> (#[trigger] r@[j1])@ != (
            #[trigger] r@[j2])@,
            forall|s: Seq<char>|
                #[trigger] contains_str(r@, s) <==> ((current@.len() > 0 && s == current@)
                    || exists|j: int|
                    0 <= j < i && j < keep_recent && (#[trigger] sorted_spec[j]).0 == s),
        decreases sorted.len() - i,
    {
        proof {
            assert(version_models(sorted@)[i as int] == (sorted@[i as int].0@, sorted@[
                i as int
            ].1 as int));
        }
        let v = &sorted[i].0;
        if !contains_string(&r, v.as_str()) {
            let ghost pre = r@;
            r.push(v.clone());
            proof {
                assert(r@[r@.len() - 1]@ == sorted_spec[i as int].0);
                assert forall|s: Seq<char>| #[trigger] contains_str(r@, s) implies ((current@.len()
                    > 0 && s == current@) || exists|j: int|
                    0 <= j < i + 1 && j < keep_recent && (#[trigger] sorted_spec[j]).0 == s) by {
                    let w = choose|j: int| 0 <= j < r@.len() && (#[trigger] r@[j])@ == s;
                    if w < pre.len() {
                        assert(contains_str(pre, s));
                    } else {
                        assert(sorted_spec[i as int].0 == s);
                    }
                }
                assert forall|s: Seq<char>|
                    ((current@.len() > 0 && s == current@) || exists|j: int|
                        0 <= j < i + 1 && j < keep_recent && (#[trigger] sorted_spec[j]).0
                            == s) implies #[trigger] contains_str(r@, s) by {
                    if current@.len() > 0 && s == current@ {
                        assert(contains_str(pre, s));
                        let w = choose|j: int| 0 <= j < pre.len() && (#[trigger] pre[j])@ == s;
                        assert(r@[w]@ == s);
                    } else {
                        let j = choose|j: int|
                            0 <= j < i + 1 && j < keep_recent && (#[trigger] sorted_spec[j]).0
                                == s;
                        if j < i {
                            assert(contains_str(pre, s));
                            let w = choose|w: int| 0 <= w < pre.len() && (#[trigger] pre[w])@ == s;
                            assert(r@[w]@ == s);
                        } else {
                            assert(r@[r@.len() - 1]@ == s);
                        }
                    }
                }
            }
        } else {
            proof {
                assert forall|s: Seq<char>|
                    ((current@.len() > 0 && s == current@) || exists|j: int|
                        0 <= j < i + 1 && j < keep_recent && (#[trigger] sorted_spec[j]).0
                            == s) implies #[trigger] contains_str(r@, s) by {
                    if !(current@.len() > 0 && s == current@) {
                        let j = choose|j: int|
                            0 <= j < i + 1 && j < keep_recent && (#[trigger] sorted_spec[j]).0
                                == s;
                        if j == i {
                            assert(contains_str(r@, sorted_spec[i as int].0));
                        }
                    }
                }
            }
        }
        i = i + 1;
    }
    proof {
        assert forall|s: Seq<char>|
            #[trigger] contains_str(r@, s) <==> spec_kept_version(
                sorted_spec,
                current@,
                keep_recent as int,
                s,
            ) by {}
    }
    r
}

// ---------------------------------------------------------------------------
// Grouping and item construction
// ---------------------------------------------------------------------------

/// Appends a package under its version key: an existing entry grows, a
/// new key lands at the end.
pub open spec fn upsert(
    g: Seq<(Seq<char>, Seq<Seq<char>>)>,
    v: Seq<char>,
    pkg: Seq<char>,
) -> Seq<(Seq<char>, Seq<Seq<char>>)>
    decreases g.len(),
{
    if g.len() == 0 {
        seq![(v, seq![pkg])]
    } else if g[0].0 == v {
        seq![(g[0].0, g[0].1.push(pkg))] + g.skip(1)
    } else {
        seq![g[0]] + upsert(g.skip(1), v, pkg)
    }
}

/// The packages grouped by extracted version, keys in first-seen order;
/// names without a version are dropped.
pub open spec fn groups_spec(
    pkgs: Seq<Seq<char>>,
    prefixes: Seq<Seq<char>>,
) -> Seq<(Seq<char>, Seq<Seq<char>>)>
    decreases pkgs.len(),
{
    if pkgs.len() == 0 {
        Seq::empty()
    } else {
        let g = groups_spec(pkgs.drop_last(), prefixes);
        match extract_version_spec(pkgs.last(), prefixes) {
            None => g,
            Some(ver) => upsert(g, ver, pkgs.last()),
        }
    }
}

pub open spec fn group_models(v: Seq<(String, Vec<String>)>) -> Seq<(Seq<char>, Seq<Seq<char>>)> {
    Seq::new(v.len(), |i: int| (v[i].0@, strutil::strs_of(v[i].1@)))
}

proof fn lemma_upsert_found(g: Seq<(Seq<char>, Seq<Seq<char>>)>, v: Seq<char>, pkg: Seq<char>, idx: int)
    requires
        0 <= idx < g.len(),
        forall|j: int| 0 <= j < idx ==> (#[trigger] g[j]).0 != v,
        g[idx].0 == v,
    ensures
        upsert(g, v, pkg) == g.update(idx, (g[idx].0, g[idx].1.push(pkg))),
    decreases g.len(),
{
    if idx == 0 {
        assert(seq![(g[0].0, g[0].1.push(pkg))] + g.skip(1) =~= g.update(
            0,
            (g[0].0, g[0].1.push(pkg)),
        ));
    } else {
        assert(forall|j: int| 0 <= j < idx - 1 ==> (#[trigger] g.skip(1)[j]).0 == g[j + 1].0);
        lemma_upsert_found(g.skip(1), v, pkg, idx - 1);
        assert(seq![g[0]] + g.skip(1).update(idx - 1, (g[idx].0, g[idx].1.push(pkg))) =~= g.update(
            idx,
            (g[idx].0, g[idx].1.push(pkg)),
        ));
    }
}

proof fn lemma_upsert_new(g: Seq<(Seq<char>, Seq<Seq<char>>)>, v: Seq<char>, pkg: Seq<char>)
    requires
        forall|j: int| 0 <= j < g.len() ==> (#[trigger] g[j]).0 != v,
    ensures
        upsert(g, v, pkg) == g.push((v, seq![pkg])),
    decreases g.len(),
{
    if g.len() == 0 {
        assert(upsert(g, v, pkg) =~= g.push((v, seq![pkg])));
    } else {
        assert(forall|j: int| 0 <= j < g.skip(1).len() ==> (#[trigger] g.skip(1)[j]).0 == g[j
            + 1].0);
        lemma_upsert_new(g.skip(1), v, pkg);
        assert(seq![g[0]] + g.skip(1).push((v, seq![pkg])) =~= g.push((v, seq![pkg])));
    }
}

/// Groups package names by their extracted kernel version.
pub fn group_by_version(packages: &Vec<String>, prefixes: &Vec<String>) -> (r: Vec<
    (String, Vec<String>),
>)
    ensures
        group_models(r@) == groups_spec(strutil::strs_of(packages@), strutil::strs_of(prefixes@)),
{
    let ghost ps = strutil::strs_of(packages@);
    let mut r: Vec<(String, Vec<String>)> = Vec::new();
    let mut i: usize = 0;
    proof {
        assert(ps.take(0) =~= Seq::<Seq<char>>::empty());
        assert(group_models(r@) =~= groups_spec(ps.take(0), strutil::strs_of(prefixes@)));
    }
    while i < packages.len()
        invariant
            i <= packages.len(),
            ps == strutil::strs_of(packages@),
            group_models(r@) == groups_spec(ps.take(i as int), strutil::strs_of(prefixes@)),
        decreases packages.len() - i,
    {
        proof {
            assert(ps.take(i + 1).drop_last() =~= ps.take(i as int));
            assert(ps.take(i + 1).last() == ps[i as int]);
            assert(ps[i as int] == packages@[i as int]@);
        }
        match extract_kernel_version(packages[i].as_str(), prefixes) {
            None => {
                proof {
                    assert(group_models(r@) =~= groups_spec(
                        ps.take(i + 1),
                        strutil::strs_of(prefixes@),
                    ));
                }
            }
            Some(ver) => {
                let mut idx: usize = 0;
                let mut found = false;
                while idx < r.len() && !found
                    invariant
                        idx <= r.len(),
                        forall|j: int|
                            0 <= j < idx ==> (#[trigger] group_models(r@)[j]).0 != ver@,
                        found ==> idx < r.len() && group_models(r@)[idx as int].0 == ver@,
                    decreases r.len() - idx + (if found { 0int } else { 1int }),
                {
                    proof {
                        assert(group_models(r@)[idx as int].0 == r@[idx as int].0@);
                    }
                    if strutil::str_eq(r[idx].0.as_str(), ver.as_str()) {
                        found = true;
                    } else {
                        idx = idx + 1;
                    }
                }
                let ghost pre = group_models(r@);
                if found {
                    proof {
                        lemma_upsert_found(pre, ver@, ps[i as int], idx as int);
                    }
                    let entry = r.remove(idx);
                    let key = entry.0;
                    let mut pkgs = entry.1;
                    let ghost pkgs_pre = strutil::strs_of(pkgs@);
                    pkgs.push(packages[i].clone());
                    proof {
                        assert(strutil::strs_of(pkgs@) =~= pkgs_pre.push(ps[i as int]));
                    }
                    r.insert(idx, (key, pkgs));
                    proof {
                        assert(group_models(r@) =~= pre.update(
                            idx as int,
                            (pre[idx as int].0, pre[idx as int].1.push(ps[i as int])),
                        ));
                        assert(group_models(r@) =~= groups_spec(
                            ps.take(i + 1),
                            strutil::strs_of(prefixes@),
                        ));
                    }
                } else {
                    proof {
                        lemma_upsert_new(pre, ver@, ps[i as int]);
                    }
                    let mut pkgs: Vec<String> = Vec::new();
                    pkgs.push(packages[i].clone());
                    proof {
                        assert(strutil::strs_of(pkgs@) =~= seq![ps[i as int]]);
                    }
                    r.push((ver, pkgs));
                    proof {
                        assert(group_models(r@) =~= pre.push((ver@, seq![ps[i as int]])));
                        assert(group_models(r@) =~= groups_spec(
                            ps.take(i + 1),
                            strutil::strs_of(prefixes@),
                        ));
                    }
                }
            }
        }
        i = i + 1;
    }
    proof {
        assert(ps.take(ps.len() as int) =~= ps);
    }
    r
}

/// The modification time recorded for a version; zero when unknown.
pub open spec fn lookup_time_spec(times: Seq<(Seq<char>, int)>, v: Seq<char>) -> int
    decreases times.len(),
{
    if times.len() == 0 {
        0
    } else if times[0].0 == v {
        times[0].1
    } else {
        lookup_time_spec(times.skip(1), v)
    }
}

fn lookup_time(times: &Vec<(String, i64)>, v: &str) -> (r: i64)
    ensures
        r as int == lookup_time_spec(version_models(times@), v@),
{
    let ghost ts = version_models(times@);
    let mut k: usize = 0;
    proof {
        assert(ts.skip(0) =~= ts);
    }
    while k < times.len()
        invariant
            k <= times.len(),
            ts == version_models(times@),
            lookup_time_spec(ts, v@) == lookup_time_spec(ts.skip(k as int), v@),
        decreases times.len() - k,
    {
        proof {
            assert(ts.skip(k as int)[0] == ts[k as int]);
            assert(ts.skip(k as int).skip(1) =~= ts.skip(k + 1));
            assert(ts[k as int] == (times@[k as int].0@, times@[k as int].1 as int));
        }
        if strutil::str_eq(times[k].0.as_str(), v) {
            return times[k].1;
        }
        k = k + 1;
    }
    proof {
        assert(ts.skip(ts.len() as int) =~= Seq::<(Seq<char>, int)>::empty());
    }
    0
}

/// What one built kernel item must hold.
pub open spec fn is_kernel_item(it: CleanupItem, pkg: Seq<char>, manager: Seq<char>) -> bool {
    &&& it.id@ == manager + ":"@ + pkg
    &&& it.name@ == pkg
    &&& it.path is None
    &&& it.size == 0
    &&& it.description@ == "Old kernel package ("@ + manager + ")"@
    &&& it.category == CleanupCategory::OldKernels
    &&& match it.source {
        CleanupSource::PackageManager(m) => m@ == manager,
        _ => false,
    }
    &&& !it.selected
    &&& it.can_clean
    &&& it.blocked_reason is None
    &&& it.dependencies@.len() == 0
}

/// The names of the packages of every version that is not kept, in
/// group order.
pub open spec fn removals_spec(
    groups: Seq<(Seq<char>, Seq<Seq<char>>)>,
    sorted: Seq<(Seq<char>, int)>,
    current: Seq<char>,
    keep_recent: int,
) -> Seq<Seq<char>>
    decreases groups.len(),
{
    if groups.len() == 0 {
        Seq::empty()
    } else {
        (if spec_kept_version(sorted, current, keep_recent, groups[0].0) {
            Seq::empty()
        } else {
            groups[0].1
        }) + removals_spec(groups.skip(1), sorted, current, keep_recent)
    }
}

/// Builds the removable kernel items: packages are grouped by version,
/// each version's recorded modification time is looked up, the current
/// and most recent versions are kept, and every package of the
/// remaining versions becomes one cleanup item of the given manager.
pub fn build_kernel_items(
    packages: &Vec<String>,
    times: &Vec<(String, i64)>,
    current: &str,
    keep_recent: usize,
    manager: &str,
    prefixes: &Vec<String>,
) -> (r: Vec<CleanupItem>)
    ensures
        ({
            let groups = groups_spec(strutil::strs_of(packages@), strutil::strs_of(prefixes@));
            let vt = Seq::new(
                groups.len(),
                |i: int|
                    (groups[i].0, lookup_time_spec(version_models(times@), groups[i].0)),
            );
            let removed = removals_spec(
                groups,
                sort_by_rank(vt),
                current@,
                keep_recent as int,
            );
            &&& r@.len() == removed.len()
            &&& forall|j: int|
                0 <= j < r@.len() ==> is_kernel_item(#[trigger] r@[j], removed[j], manager@)
        }),
{
    let groups = group_by_version(packages, prefixes);
    let ghost gs = group_models(groups@);
    let ghost vt_spec = Seq::new(
        gs.len(),
        |i: int| (gs[i].0, lookup_time_spec(version_models(times@), gs[i].0)),
    );
    let mut version_times: Vec<(String, i64)> = Vec::new();
    let mut i: usize = 0;
    proof {
        assert(version_models(version_times@) =~= vt_spec.take(0));
    }
    while i < groups.len()
        invariant
            i <= groups.len(),
            gs == group_models(groups@),
            vt_spec == Seq::new(
                gs.len(),
                |k: int| (gs[k].0, lookup_time_spec(version_models(times@), gs[k].0)),
            ),
            version_models(version_times@) == vt_spec.take(i as int),
        decreases groups.len() - i,
    {
        proof {
            assert(gs[i as int].0 == groups@[i as int].0@);
        }
        let t = lookup_time(times, groups[i].0.as_str());
        let ghost pre = version_models(version_times@);
        version_times.push((groups[i].0.clone(), t));
        proof {
            assert(version_models(version_times@) =~= pre.push(vt_spec[i as int]));
            assert(version_models(version_times@) =~= vt_spec.take(i + 1));
        }
        i = i + 1;
    }
    proof {
        assert(vt_spec.take(vt_spec.len() as int) =~= vt_spec);
    }
    let keep = select_versions_to_keep(version_times, current, keep_recent);
    let ghost sorted = sort_by_rank(vt_spec);
    let ghost removed_all = removals_spec(gs, sorted, current@, keep_recent as int);
    let mut r: Vec<CleanupItem> = Vec::new();
    let ghost mut names: Seq<Seq<char>> = Seq::empty();
    let mut i: usize = 0;
    proof {
        assert(gs.skip(0) =~= gs);
        assert(names + removals_spec(gs.skip(0), sorted, current@, keep_recent as int)
            =~= removed_all);
    }
    while i < groups.len()
        invariant
            i <= groups.len(),
            gs == group_models(groups@),
            removed_all == removals_spec(gs, sorted, current@, keep_recent as int),
            forall|s2: Seq<char>|
                #[trigger] contains_str(keep@, s2) <==> spec_kept_version(
                    sorted,
                    current@,
                    keep_recent as int,
                    s2,
                ),
            names.len() == r@.len(),
            forall|j: int| 0 <= j < r@.len() ==> (#[trigger] r@[j]).name@ == names[j],
            removed_all == names + removals_spec(
                gs.skip(i as int),
                sorted,
                current@,
                keep_recent as int,
            ),
            forall|j: int|
                0 <= j < r@.len() ==> is_kernel_item(#[trigger] r@[j], r@[j].name@, manager@),
        decreases groups.len() - i,
    {
        proof {
            assert(gs.skip(i as int)[0] == gs[i as int]);
            assert(gs.skip(i as int).skip(1) =~= gs.skip(i + 1));
            assert(gs[i as int].0 == groups@[i as int].0@);
        }
        if !contains_string(&keep, groups[i].0.as_str()) {
            proof {
                assert(!spec_kept_version(sorted, current@, keep_recent as int, gs[i as int].0));
            }
            let pkgs = &groups[i].1;
            let mut k: usize = 0;
            let ghost base = names;
            while k < pkgs.len()
                invariant
                    k <= pkgs.len(),
                    i < groups.len(),
                    gs == group_models(groups@),
                    pkgs == groups@[i as int].1,
                    names =~= base + gs[i as int].1.take(k as int),
                    names.len() == r@.len(),
                    forall|j: int| 0 <= j < r@.len() ==> (#[trigger] r@[j]).name@ == names[j],
                    forall|j: int|
                        0 <= j < r@.len() ==> is_kernel_item(
                            #[trigger] r@[j],
                            r@[j].name@,
                            manager@,
                        ),
                decreases pkgs.len() - k,
            {
                proof {
                    assert(gs[i as int].1[k as int] == groups@[i as int].1@[k as int]@);
                    assert(gs[i as int].1.len() == pkgs@.len());
                }
                let pkg = pkgs[k].clone();
                let mut id = String::new();
                id.append(manager);
                id.append(":");
                id.append(pkg.as_str());
                let mut description = String::new();
                description.append("Old kernel package (");
                description.append(manager);
                description.append(")");
                let item = CleanupItem {
                    id,
                    name: pkg,
                    path: None,
                    size: 0,
                    description,
                    category: CleanupCategory::OldKernels,
                    source: CleanupSource::PackageManager(manager.to_owned()),
                    selected: false,
                    can_clean: true,
                    blocked_reason: None,
                    dependencies: Vec::new(),
                };
                r.push(item);
                proof {
                    names = names.push(gs[i as int].1[k as int]);
                    assert(r@[r@.len() - 1].name@ == gs[i as int].1[k as int]);
                    assert(names =~= base + gs[i as int].1.take(k + 1));
                }
                k = k + 1;
            }
            proof {
                assert(gs[i as int].1.take(gs[i as int].1.len() as int) =~= gs[i as int].1);
                assert(names =~= base + gs[i as int].1);
                assert(base + gs[i as int].1 + removals_spec(
                    gs.skip(i + 1),
                    sorted,
                    current@,
                    keep_recent as int,
                ) =~= base + (gs[i as int].1 + removals_spec(
                    gs.skip(i + 1),
                    sorted,
                    current@,
                    keep_recent as int,
                )));
            }
        } else {
            proof {
                assert(spec_kept_version(sorted, current@, keep_recent as int, gs[i as int].0));
                assert(Seq::<Seq<char>>::empty() + removals_spec(
                    gs.skip(i + 1),
                    sorted,
                    current@,
                    keep_recent as int,
                ) =~= removals_spec(gs.skip(i + 1), sorted, current@, keep_recent as int));
            }
        }
        i = i + 1;
    }
    proof {
        assert(gs.skip(gs.len() as int) =~= Seq::<(Seq<char>, Seq<Seq<char>>)>::empty());
        assert(removals_spec(
            Seq::<(Seq<char>, Seq<Seq<char>>)>::empty(),
            sorted,
            current@,
            keep_recent as int,
        ) =~= Seq::<Seq<char>>::empty());
        assert(names + Seq::<Seq<char>>::empty() =~= names);
        assert(removed_all =~= names);
        assert forall|j: int| 0 <= j < r@.len() implies is_kernel_item(
            #[trigger] r@[j],
            removed_all[j],
            manager@,
        ) by {
            assert(removed_all[j] == names[j]);
            assert(r@[j].name@ == names[j]);
        }
    }
    r
}

} // verus!
