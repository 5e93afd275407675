//! Package-manager backends: the interpretation of what each tool
//! prints. The commands themselves run outside; their captured output is
//! handed in as plain values and everything decided from it is verified.

use vstd::prelude::*;
use vstd::string::StringExecFns;
use crate::error::RcleanerError;
use crate::models::{CleanupCategory, CleanupItem, CleanupSource};
use crate::strutil;

verus! {

/// What one external command produced.
#[derive(Clone, Debug)]
pub struct CommandCapture {
    /// Whether the command exited successfully.
    pub success: bool,
    /// Captured standard output.
    pub stdout: String,
    /// Captured standard error.
    pub stderr: String,
}

// ---------------------------------------------------------------------------
// Shared line handling
// ---------------------------------------------------------------------------

/// The trimmed, non-empty lines of a command's output, in order.
pub open spec fn clean_lines_spec(ls: Seq<Seq<char>>) -> Seq<Seq<char>>
    decreases ls.len(),
{
    if ls.len() == 0 {
        Seq::empty()
    } else {
        let rest = clean_lines_spec(ls.drop_last());
        let t = strutil::trim_spec(ls.last());
        if t.len() > 0 {
            rest.push(t)
        } else {
            rest
        }
    }
}

/// Lines split, trimmed, empties dropped.
pub open spec fn split_lines_spec(s: Seq<char>) -> Seq<Seq<char>> {
    clean_lines_spec(strutil::lines_spec(s))
}

/// Splits output into trimmed, non-empty lines.
pub fn split_lines(s: &str) -> (r: Vec<String>)
    ensures
        strutil::strs_of(r@) == split_lines_spec(s@),
{
    let chars = strutil::to_chars(s);
    let lines = strutil::split_lines_chars(&chars);
    let mut r: Vec<String> = Vec::new();
    let mut i: usize = 0;
    proof {
        assert(strutil::seqs_of(lines@).take(0) =~= Seq::<Seq<char>>::empty());
        assert(strutil::strs_of(r@) =~= clean_lines_spec(strutil::seqs_of(lines@).take(0)));
    }
    while i < lines.len()
        invariant
            i <= lines.len(),
            strutil::seqs_of(lines@) == strutil::lines_spec(s@),
            strutil::strs_of(r@) == clean_lines_spec(strutil::seqs_of(lines@).take(i as int)),
        decreases lines.len() - i,
    {
        proof {
            assert(strutil::seqs_of(lines@).take(i + 1).drop_last() =~= strutil::seqs_of(
                lines@,
            ).take(i as int));
            assert(strutil::seqs_of(lines@).take(i + 1).last() == strutil::seqs_of(lines@)[
                i as int
            ]);
            assert(strutil::seqs_of(lines@)[i as int] == lines@[i as int]@);
        }
        let t = strutil::trim(&lines[i]);
        if t.len() > 0 {
            let ghost pre = strutil::strs_of(r@);
            let ts = strutil::from_chars(&t);
            r.push(ts);
            proof {
                assert(strutil::strs_of(r@) =~= pre.push(strutil::trim_spec(lines@[i as int]@)));
                assert(strutil::strs_of(r@) =~= clean_lines_spec(
                    strutil::seqs_of(lines@).take(i + 1),
                ));
            }
        } else {
            proof {
                assert(strutil::strs_of(r@) =~= clean_lines_spec(
                    strutil::seqs_of(lines@).take(i + 1),
                ));
            }
        }
        i = i + 1;
    }
    proof {
        assert(strutil::seqs_of(lines@).take(lines@.len() as int) =~= strutil::seqs_of(lines@));
    }
    r
}

/// The first line of a command's output, trimmed; empty when there is
/// none.
pub open spec fn first_line_spec(s: Seq<char>) -> Seq<char> {
    if strutil::lines_spec(s).len() == 0 {
        Seq::empty()
    } else {
        strutil::trim_spec(strutil::lines_spec(s)[0])
    }
}

pub fn first_line(s: &str) -> (r: String)
    ensures
        r@ == first_line_spec(s@),
{
    let chars = strutil::to_chars(s);
    let lines = strutil::split_lines_chars(&chars);
    if lines.len() == 0 {
        String::new()
    } else {
        proof {
            assert(strutil::seqs_of(lines@)[0] == lines@[0]@);
        }
        let t = strutil::trim(&lines[0]);
        strutil::from_chars(&t)
    }
}

/// The message of a failed command: its standard error, trimmed, or its
/// standard output when the error stream is empty.
pub open spec fn failure_detail(stdout: Seq<char>, stderr: Seq<char>) -> Seq<char> {
    if strutil::trim_spec(stderr).len() == 0 {
        strutil::trim_spec(stdout)
    } else {
        strutil::trim_spec(stderr)
    }
}

/// The error text of a failed command invocation.
pub open spec fn failure_msg(program: Seq<char>, stdout: Seq<char>, stderr: Seq<char>) -> Seq<char> {
    program + " command failed: "@ + failure_detail(stdout, stderr)
}

/// Builds the error a failed command reports.
pub fn command_failed(program: &str, capture: &CommandCapture) -> (r: RcleanerError)
    ensures
        r matches RcleanerError::Command(m) && m@ == failure_msg(
            program@,
            capture.stdout@,
            capture.stderr@,
        ),
{
    let err_chars = strutil::to_chars(capture.stderr.as_str());
    let err_trim = strutil::trim(&err_chars);
    let detail = if err_trim.len() == 0 {
        let out_chars = strutil::to_chars(capture.stdout.as_str());
        strutil::trim(&out_chars)
    } else {
        err_trim
    };
    let mut m = String::new();
    m.append(program);
    m.append(" command failed: ");
    let d = strutil::from_chars(&detail);
    m.append(d.as_str());
    RcleanerError::Command(m)
}

// ---------------------------------------------------------------------------
// Lower-casing, for case-insensitive message checks
// ---------------------------------------------------------------------------

/// The Unicode lower-case form of a character sequence: a function of
/// the characters alone.
pub uninterp spec fn lower_of(s: Seq<char>) -> Seq<char>;

/// Relies on `str::to_lowercase`: the Unicode lower-case form of the
/// string, depending on its characters alone; an empty string stays
/// empty.
#[verifier::external_body]
pub fn to_lowercase(s: &str) -> (r: String)
    ensures
        r@ == lower_of(s@),
        s@.len() == 0 ==> r@.len() == 0,
{
    s.to_lowercase()
}

// ---------------------------------------------------------------------------
// rpm
// ---------------------------------------------------------------------------

/// Whether a failed `--whatrequires` query merely reports that no
/// package requires the one asked about: one of the known marker
/// phrases occurs in the lower-cased message.
pub open spec fn spec_no_requires(lower: Seq<char>) -> bool {
    strutil::contains_seq(lower, "no package requires"@) || strutil::contains_seq(
        lower,
        "no packages require"@,
    ) || strutil::contains_seq(lower, "ни один из пакетов не требует"@) || strutil::contains_seq(
        lower,
        "не требует"@,
    ) || strutil::contains_seq(lower, "не требуется"@)
}

/// Recognizes the "no package requires" answer of rpm, in English or
/// Russian, whatever the message's case. The package name does not
/// change the verdict.
pub fn is_no_requires_message(stderr: &str, package: &str) -> (r: bool)
    ensures
        r == spec_no_requires(lower_of(stderr@)),
{
    let lower_s = to_lowercase(stderr);
    let lower = strutil::to_chars(lower_s.as_str());
    let m1 = strutil::to_chars("no package requires");
    let m2 = strutil::to_chars("no packages require");
    let m3 = strutil::to_chars("ни один из пакетов не требует");
    let m4 = strutil::to_chars("не требует");
    let m5 = strutil::to_chars("не требуется");
    let any = strutil::contains(&lower, &m1) || strutil::contains(&lower, &m2)
        || strutil::contains(&lower, &m3) || strutil::contains(&lower, &m4) || strutil::contains(
        &lower,
        &m5,
    );
    if !any {
        return false;
    }
    let package_lower = to_lowercase(package);
    if package_lower.as_str().is_empty() {
        return true;
    }
    let pl = strutil::to_chars(package_lower.as_str());
    if strutil::contains(&lower, &pl) {
        return true;
    }
    true
}

/// The rpm backend.
pub struct RpmManager;

impl RpmManager {
    pub fn new() -> (r: Self) {
        RpmManager
    }

    pub fn name(&self) -> (r: &str)
        ensures
            r@ == "rpm"@,
    {
        "rpm"
    }

    /// Interprets `rpm -qa`: its trimmed non-empty lines, or the
    /// command failure.
    pub fn list_installed(&self, capture: &CommandCapture) -> (r: Result<
        Vec<String>,
        RcleanerError,
    >)
        ensures
            capture.success ==> (r matches Ok(v) && strutil::strs_of(v@) == split_lines_spec(
                capture.stdout@,
            )),
            !capture.success ==> (r matches Err(e) && e matches RcleanerError::Command(m)
                && m@ == failure_msg("rpm"@, capture.stdout@, capture.stderr@)),
    {
        if !capture.success {
            return Err(command_failed("rpm", capture));
        }
        Ok(split_lines(capture.stdout.as_str()))
    }

    /// Interprets `rpm -q --whatrequires`: the dependents it lists, the
    /// empty list when it merely reports that nothing requires the
    /// package, or the command failure.
    pub fn check_dependencies(&self, package: &str, capture: &CommandCapture) -> (r: Result<
        Vec<String>,
        RcleanerError,
    >)
        ensures
            capture.success ==> (r matches Ok(v) && strutil::strs_of(v@) == split_lines_spec(
                capture.stdout@,
            )),
            !capture.success && (spec_no_requires(lower_of(capture.stderr@)) || spec_no_requires(
                lower_of(capture.stdout@),
            )) ==> (r matches Ok(v) && v@.len() == 0),
            !capture.success && !spec_no_requires(lower_of(capture.stderr@)) && !spec_no_requires(
                lower_of(capture.stdout@),
            ) ==> (r matches Err(e) && e matches RcleanerError::Command(m) && m@ == failure_msg(
                "rpm"@,
                capture.stdout@,
                capture.stderr@,
            )),
    {
        if !capture.success {
            if is_no_requires_message(capture.stderr.as_str(), package) || is_no_requires_message(
                capture.stdout.as_str(),
                package,
            ) {
                return Ok(Vec::new());
            }
            return Err(command_failed("rpm", capture));
        }
        Ok(split_lines(capture.stdout.as_str()))
    }
}

// ---------------------------------------------------------------------------
// apt
// ---------------------------------------------------------------------------

/// Leading occurrences of a character, removed.
pub open spec fn strip_leading(s: Seq<char>, c: char) -> Seq<char>
    decreases s.len(),
{
    if s.len() > 0 && s[0] == c {
        strip_leading(s.skip(1), c)
    } else {
        s
    }
}

proof fn lemma_strip_leading_at(s: Seq<char>, c: char, a: int)
    requires
        0 <= a <= s.len(),
        forall|j: int| 0 <= j < a ==> s[j] == c,
        a == s.len() || s[a] != c,
    ensures
        strip_leading(s, c) == s.skip(a),
    decreases a,
{
    if a == 0 {
        assert(s.skip(0) =~= s);
    } else {
        lemma_strip_leading_at(s.skip(1), c, a - 1);
        assert(s.skip(1).skip(a - 1) =~= s.skip(a));
    }
}

fn strip_leading_exec(s: &Vec<char>, c: char) -> (r: Vec<char>)
    ensures
        r@ == strip_leading(s@, c),
{
    let mut a: usize = 0;
    while a < s.len() && s[a] == c
        invariant
            a <= s.len(),
            forall|j: int| 0 <= j < a ==> s@[j] == c,
        decreases s.len() - a,
    {
        a = a + 1;
    }
    let mut r: Vec<char> = Vec::new();
    let mut i: usize = a;
    while i < s.len()
        invariant
            a <= i <= s.len(),
            r@ =~= s@.subrange(a as int, i as int),
        decreases s.len() - i,
    {
        r.push(s[i]);
        proof {
            assert(r@ =~= s@.subrange(a as int, i + 1));
        }
        i = i + 1;
    }
    proof {
        lemma_strip_leading_at(s@, c, a as int);
        assert(s@.subrange(a as int, s@.len() as int) =~= s@.skip(a as int));
    }
    r
}

/// The dependents `apt-cache rdepends` lists: every trimmed, non-empty
/// line that is not the header, with leading pipes removed; lines that
/// vanish entirely are dropped.
pub open spec fn apt_rdepends_spec(ls: Seq<Seq<char>>) -> Seq<Seq<char>>
    decreases ls.len(),
{
    if ls.len() == 0 {
        Seq::empty()
    } else {
        let rest = apt_rdepends_spec(ls.drop_last());
        let t = strutil::trim_spec(ls.last());
        if t.len() > 0 && !strutil::prefix_of("Reverse Depends"@, t) {
            let u = strutil::trim_spec(strip_leading(t, '|'));
            if u.len() > 0 {
                rest.push(u)
            } else {
                rest
            }
        } else {
            rest
        }
    }
}

/// Parses the output of `apt-cache rdepends`.
pub fn parse_apt_rdepends(output: &str) -> (r: Vec<String>)
    ensures
        strutil::strs_of(r@) == apt_rdepends_spec(strutil::lines_spec(output@)),
{
    let chars = strutil::to_chars(output);
    let lines = strutil::split_lines_chars(&chars);
    let header = strutil::to_chars("Reverse Depends");
    let mut r: Vec<String> = Vec::new();
    let mut i: usize = 0;
    proof {
        assert(strutil::seqs_of(lines@).take(0) =~= Seq::<Seq<char>>::empty());
        assert(strutil::strs_of(r@) =~= apt_rdepends_spec(strutil::seqs_of(lines@).take(0)));
    }
    while i < lines.len()
        invariant
            i <= lines.len(),
            header@ == "Reverse Depends"@,
            strutil::seqs_of(lines@) == strutil::lines_spec(output@),
            strutil::strs_of(r@) == apt_rdepends_spec(strutil::seqs_of(lines@).take(i as int)),
        decreases lines.len() - i,
    {
        proof {
            assert(strutil::seqs_of(lines@).take(i + 1).drop_last() =~= strutil::seqs_of(
                lines@,
            ).take(i as int));
            assert(strutil::seqs_of(lines@).take(i + 1).last() == strutil::seqs_of(lines@)[
                i as int
            ]);
            assert(strutil::seqs_of(lines@)[i as int] == lines@[i as int]@);
        }
        let t = strutil::trim(&lines[i]);
        if t.len() > 0 && !strutil::starts_with(&t, &header) {
            let stripped = strip_leading_exec(&t, '|');
            let u = strutil::trim(&stripped);
            if u.len() > 0 {
                let ghost pre = strutil::strs_of(r@);
                let us = strutil::from_chars(&u);
                r.push(us);
                proof {
                    assert(strutil::strs_of(r@) =~= pre.push(u@));
                    assert(strutil::strs_of(r@) =~= apt_rdepends_spec(
                        strutil::seqs_of(lines@).take(i + 1),
                    ));
                }
            } else {
                proof {
                    assert(strutil::strs_of(r@) =~= apt_rdepends_spec(
                        strutil::seqs_of(lines@).take(i + 1),
                    ));
                }
            }
        } else {
            proof {
                assert(strutil::strs_of(r@) =~= apt_rdepends_spec(
                    strutil::seqs_of(lines@).take(i + 1),
                ));
            }
        }
        i = i + 1;
    }
    proof {
        assert(strutil::seqs_of(lines@).take(lines@.len() as int) =~= strutil::seqs_of(lines@));
    }
    r
}

/// Everything in `v` except entries equal to `x`.
pub open spec fn without(v: Seq<Seq<char>>, x: Seq<char>) -> Seq<Seq<char>>
    decreases v.len(),
{
    if v.len() == 0 {
        Seq::empty()
    } else {
        let rest = without(v.drop_last(), x);
        if v.last() == x {
            rest
        } else {
            rest.push(v.last())
        }
    }
}

fn retain_not_equal(v: Vec<String>, x: &str) -> (r: Vec<String>)
    ensures
        strutil::strs_of(r@) == without(strutil::strs_of(v@), x@),
{
    let mut r: Vec<String> = Vec::new();
    let mut i: usize = 0;
    proof {
        assert(strutil::strs_of(v@).take(0) =~= Seq::<Seq<char>>::empty());
        assert(strutil::strs_of(r@) =~= without(strutil::strs_of(v@).take(0), x@));
    }
    while i < v.len()
        invariant
            i <= v.len(),
            strutil::strs_of(r@) == without(strutil::strs_of(v@).take(i as int), x@),
        decreases v.len() - i,
    {
        proof {
            assert(strutil::strs_of(v@).take(i + 1).drop_last() =~= strutil::strs_of(v@).take(
                i as int,
            ));
            assert(strutil::strs_of(v@).take(i + 1).last() == strutil::strs_of(v@)[i as int]);
            assert(strutil::strs_of(v@)[i as int] == v@[i as int]@);
        }
        if !strutil::str_eq(v[i].as_str(), x) {
            let ghost pre = strutil::strs_of(r@);
            r.push(v[i].clone());
            proof {
                assert(strutil::strs_of(r@) =~= pre.push(v@[i as int]@));
                assert(strutil::strs_of(r@) =~= without(strutil::strs_of(v@).take(i + 1), x@));
            }
        } else {
            proof {
                assert(strutil::strs_of(r@) =~= without(strutil::strs_of(v@).take(i + 1), x@));
            }
        }
        i = i + 1;
    }
    proof {
        assert(strutil::strs_of(v@).take(v@.len() as int) =~= strutil::strs_of(v@));
    }
    r
}

/// The apt backend.
pub struct AptManager;

impl AptManager {
    pub fn new() -> (r: Self) {
        AptManager
    }

    pub fn name(&self) -> (r: &str)
        ensures
            r@ == "apt"@,
    {
        "apt"
    }

    /// Interprets `dpkg-query -W`.
    pub fn list_installed(&self, capture: &CommandCapture) -> (r: Result<
        Vec<String>,
        RcleanerError,
    >)
        ensures
            capture.success ==> (r matches Ok(v) && strutil::strs_of(v@) == split_lines_spec(
                capture.stdout@,
            )),
            !capture.success ==> (r matches Err(e) && e matches RcleanerError::Command(m)
                && m@ == failure_msg("dpkg-query"@, capture.stdout@, capture.stderr@)),
    {
        if !capture.success {
            return Err(command_failed("dpkg-query", capture));
        }
        Ok(split_lines(capture.stdout.as_str()))
    }

    /// Interprets `apt-cache rdepends --installed`: the listed
    /// dependents, without the package itself.
    pub fn check_dependencies(&self, package: &str, capture: &CommandCapture) -> (r: Result<
        Vec<String>,
        RcleanerError,
    >)
        ensures
            capture.success ==> (r matches Ok(v) && strutil::strs_of(v@) == without(
                apt_rdepends_spec(strutil::lines_spec(capture.stdout@)),
                package@,
            )),
            !capture.success ==> (r matches Err(e) && e matches RcleanerError::Command(m)
                && m@ == failure_msg("apt-cache"@, capture.stdout@, capture.stderr@)),
    {
        if !capture.success {
            return Err(command_failed("apt-cache", capture));
        }
        let deps = parse_apt_rdepends(capture.stdout.as_str());
        Ok(retain_not_equal(deps, package))
    }
}

// ---------------------------------------------------------------------------
// dnf
// ---------------------------------------------------------------------------

/// The package names `dnf list installed` prints: the first token of
/// every line that is not a header.
pub open spec fn dnf_list_spec(ls: Seq<Seq<char>>) -> Seq<Seq<char>>
    decreases ls.len(),
{
    if ls.len() == 0 {
        Seq::empty()
    } else {
        let rest = dnf_list_spec(ls.drop_last());
        let t = strutil::trim_spec(ls.last());
        if t.len() > 0 && !strutil::prefix_of("Installed"@, t) && !strutil::prefix_of(
            "Available"@,
            t,
        ) && !strutil::prefix_of("Last metadata"@, t) && strutil::ws_tokens(t).len() > 0 {
            rest.push(strutil::ws_tokens(t)[0])
        } else {
            rest
        }
    }
}

/// Parses the output of `dnf list installed`.
pub fn parse_dnf_list(output: &str) -> (r: Vec<String>)
    ensures
        strutil::strs_of(r@) == dnf_list_spec(strutil::lines_spec(output@)),
{
    let chars = strutil::to_chars(output);
    let lines = strutil::split_lines_chars(&chars);
    let h1 = strutil::to_chars("Installed");
    let h2 = strutil::to_chars("Available");
    let h3 = strutil::to_chars("Last metadata");
    let mut r: Vec<String> = Vec::new();
    let mut i: usize = 0;
    proof {
        assert(strutil::seqs_of(lines@).take(0) =~= Seq::<Seq<char>>::empty());
        assert(strutil::strs_of(r@) =~= dnf_list_spec(strutil::seqs_of(lines@).take(0)));
    }
    while i < lines.len()
        invariant
            i <= lines.len(),
            h1@ == "Installed"@,
            h2@ == "Available"@,
            h3@ == "Last metadata"@,
            strutil::seqs_of(lines@) == strutil::lines_spec(output@),
            strutil::strs_of(r@) == dnf_list_spec(strutil::seqs_of(lines@).take(i as int)),
        decreases lines.len() - i,
    {
        proof {
            assert(strutil::seqs_of(lines@).take(i + 1).drop_last() =~= strutil::seqs_of(
                lines@,
            ).take(i as int));
            assert(strutil::seqs_of(lines@).take(i + 1).last() == strutil::seqs_of(lines@)[
                i as int
            ]);
            assert(strutil::seqs_of(lines@)[i as int] == lines@[i as int]@);
        }
        let t = strutil::trim(&lines[i]);
        let mut keep = t.len() > 0;
        if keep && (strutil::starts_with(&t, &h1) || strutil::starts_with(&t, &h2)
            || strutil::starts_with(&t, &h3)) {
            keep = false;
        }
        if keep {
            let tokens = strutil::split_ws(&t);
            if tokens.len() > 0 {
                let ghost pre = strutil::strs_of(r@);
                proof {
                    assert(strutil::seqs_of(tokens@)[0] == tokens@[0]@);
                }
                let ts = strutil::from_chars(&tokens[0]);
                r.push(ts);
                proof {
                    assert(strutil::strs_of(r@) =~= pre.push(strutil::ws_tokens(t@)[0]));
                    assert(strutil::strs_of(r@) =~= dnf_list_spec(
                        strutil::seqs_of(lines@).take(i + 1),
                    ));
                }
            } else {
                proof {
                    assert(strutil::strs_of(r@) =~= dnf_list_spec(
                        strutil::seqs_of(lines@).take(i + 1),
                    ));
                }
            }
        } else {
            proof {
                assert(strutil::strs_of(r@) =~= dnf_list_spec(
                    strutil::seqs_of(lines@).take(i + 1),
                ));
            }
        }
        i = i + 1;
    }
    proof {
        assert(strutil::seqs_of(lines@).take(lines@.len() as int) =~= strutil::seqs_of(lines@));
    }
    r
}

/// The dnf backend.
pub struct DnfManager;

impl DnfManager {
    pub fn new() -> (r: Self) {
        DnfManager
    }

    pub fn name(&self) -> (r: &str)
        ensures
            r@ == "dnf"@,
    {
        "dnf"
    }

    /// Interprets `dnf list installed`.
    pub fn list_installed(&self, capture: &CommandCapture) -> (r: Result<
        Vec<String>,
        RcleanerError,
    >)
        ensures
            capture.success ==> (r matches Ok(v) && strutil::strs_of(v@) == dnf_list_spec(
                strutil::lines_spec(capture.stdout@),
            )),
            !capture.success ==> (r matches Err(e) && e matches RcleanerError::Command(m)
                && m@ == failure_msg("dnf"@, capture.stdout@, capture.stderr@)),
    {
        if !capture.success {
            return Err(command_failed("dnf", capture));
        }
        Ok(parse_dnf_list(capture.stdout.as_str()))
    }

    /// Interprets `rpm -q --whatrequires` as dnf drives it: a failed
    /// query that reports no dependents, or empty output, counts as
    /// none.
    pub fn check_dependencies(&self, package: &str, capture: &CommandCapture) -> (r: Result<
        Vec<String>,
        RcleanerError,
    >)
        ensures
            capture.success ==> (r matches Ok(v) && strutil::strs_of(v@) == split_lines_spec(
                capture.stdout@,
            )),
            !capture.success && (strutil::contains_seq(
                lower_of(capture.stderr@),
                "no package requires"@,
            ) || strutil::trim_spec(capture.stdout@).len() == 0) ==> (r matches Ok(v) && v@.len()
                == 0),
            !capture.success && !strutil::contains_seq(
                lower_of(capture.stderr@),
                "no package requires"@,
            ) && strutil::trim_spec(capture.stdout@).len() > 0 ==> (r matches Err(e)
                && e matches RcleanerError::Command(m) && m@ == failure_msg(
                "rpm"@,
                capture.stdout@,
                capture.stderr@,
            )),
    {
        let _ = package;
        if !capture.success {
            let lower_s = to_lowercase(capture.stderr.as_str());
            let lower = strutil::to_chars(lower_s.as_str());
            let marker = strutil::to_chars("no package requires");
            let out_chars = strutil::to_chars(capture.stdout.as_str());
            let out_trim = strutil::trim(&out_chars);
            if strutil::contains(&lower, &marker) || out_trim.len() == 0 {
                return Ok(Vec::new());
            }
            return Err(command_failed("rpm", capture));
        }
        Ok(split_lines(capture.stdout.as_str()))
    }
}

// ---------------------------------------------------------------------------
// pacman
// ---------------------------------------------------------------------------

/// The dependents `pacman -Qi` reports: the whitespace-separated values
/// after the first `Required By` line, none when that value is `None`.
pub open spec fn pacman_required_by_spec(ls: Seq<Seq<char>>) -> Seq<Seq<char>>
    decreases ls.len(),
{
    if ls.len() == 0 {
        Seq::empty()
    } else {
        let t = strutil::trim_spec(ls[0]);
        if strutil::prefix_of("Required By"@, t) && strutil::contains_char(t, ':') {
            let v = strutil::trim_spec(after_colon(t));
            if v =~= "None"@ || v.len() == 0 {
                Seq::empty()
            } else {
                strutil::ws_tokens(v)
            }
        } else {
            pacman_required_by_spec(ls.skip(1))
        }
    }
}

/// Everything after the first colon.
pub open spec fn after_colon(s: Seq<char>) -> Seq<char>
    decreases s.len(),
{
    if s.len() == 0 {
        Seq::empty()
    } else if s[0] == ':' {
        s.skip(1)
    } else {
        after_colon(s.skip(1))
    }
}

fn after_colon_exec(s: &Vec<char>, start: usize) -> (r: Vec<char>)
    requires
        start <= s.len(),
    ensures
        r@ == after_colon(s@.skip(start as int)),
    decreases s.len() - start,
{
    proof {
        if start < s.len() {
            assert(s@.skip(start as int)[0] == s@[start as int]);
            assert(s@.skip(start as int).skip(1) =~= s@.skip(start + 1));
        }
    }
    if start == s.len() {
        proof {
            assert(s@.skip(start as int) =~= Seq::<char>::empty());
        }
        Vec::new()
    } else if s[start] == ':' {
        let mut r: Vec<char> = Vec::new();
        let mut i: usize = start + 1;
        while i < s.len()
            invariant
                start + 1 <= i <= s.len(),
                r@ =~= s@.subrange(start + 1, i as int),
            decreases s.len() - i,
        {
            r.push(s[i]);
            proof {
                assert(r@ =~= s@.subrange(start + 1, i + 1));
            }
            i = i + 1;
        }
        proof {
            assert(s@.subrange(start + 1, s@.len() as int) =~= s@.skip(start + 1));
        }
        r
    } else {
        after_colon_exec(s, start + 1)
    }
}

/// Parses the `Required By` field of `pacman -Qi`.
pub fn parse_pacman_required_by(output: &str) -> (r: Vec<String>)
    ensures
        strutil::strs_of(r@) == pacman_required_by_spec(strutil::lines_spec(output@)),
{
    let chars = strutil::to_chars(output);
    let lines = strutil::split_lines_chars(&chars);
    let header = strutil::to_chars("Required By");
    let none_lit = strutil::to_chars("None");
    let mut i: usize = 0;
    let ghost ls = strutil::seqs_of(lines@);
    proof {
        assert(ls.skip(0) =~= ls);
    }
    while i < lines.len()
        invariant
            i <= lines.len(),
            header@ == "Required By"@,
            none_lit@ == "None"@,
            ls == strutil::seqs_of(lines@),
            ls == strutil::lines_spec(output@),
            pacman_required_by_spec(ls) == pacman_required_by_spec(ls.skip(i as int)),
        decreases lines.len() - i,
    {
        proof {
            assert(ls.skip(i as int)[0] == ls[i as int]);
            assert(ls.skip(i as int).skip(1) =~= ls.skip(i + 1));
            assert(ls[i as int] == lines@[i as int]@);
        }
        let t = strutil::trim(&lines[i]);
        if strutil::starts_with(&t, &header) && strutil::has_char(&t, ':') {
            let rest = after_colon_exec(&t, 0);
            proof {
                assert(t@.skip(0) =~= t@);
            }
            let v = strutil::trim(&rest);
            if strutil::chars_eq(&v, &none_lit) || v.len() == 0 {
                proof {
                    assert(v@ =~= "None"@ || v@.len() == 0);
                }
                return Vec::new();
            }
            let tokens = strutil::split_ws(&v);
            let mut r: Vec<String> = Vec::new();
            let mut k: usize = 0;
            proof {
                assert(!(v@ =~= "None"@));
                assert(strutil::strs_of(r@) =~= strutil::ws_tokens(v@).take(0));
            }
            while k < tokens.len()
                invariant
                    k <= tokens.len(),
                    strutil::seqs_of(tokens@) == strutil::ws_tokens(v@),
                    strutil::strs_of(r@) == strutil::ws_tokens(v@).take(k as int),
                decreases tokens.len() - k,
            {
                proof {
                    assert(strutil::seqs_of(tokens@)[k as int] == tokens@[k as int]@);
                }
                let ghost pre = strutil::strs_of(r@);
                let ts = strutil::from_chars(&tokens[k]);
                r.push(ts);
                proof {
                    assert(strutil::strs_of(r@) =~= pre.push(strutil::ws_tokens(v@)[k as int]));
                    assert(strutil::strs_of(r@) =~= strutil::ws_tokens(v@).take(k + 1));
                }
                k = k + 1;
            }
            proof {
                assert(strutil::ws_tokens(v@).take(tokens@.len() as int) =~= strutil::ws_tokens(
                    v@,
                ));
            }
            return r;
        }
        i = i + 1;
    }
    proof {
        assert(ls.skip(ls.len() as int) =~= Seq::<Seq<char>>::empty());
    }
    Vec::new()
}

/// The pacman backend.
pub struct PacmanManager;

impl PacmanManager {
    pub fn new() -> (r: Self) {
        PacmanManager
    }

    pub fn name(&self) -> (r: &str)
        ensures
            r@ == "pacman"@,
    {
        "pacman"
    }

    /// Interprets `pacman -Qq`.
    pub fn list_installed(&self, capture: &CommandCapture) -> (r: Result<
        Vec<String>,
        RcleanerError,
    >)
        ensures
            capture.success ==> (r matches Ok(v) && strutil::strs_of(v@) == split_lines_spec(
                capture.stdout@,
            )),
            !capture.success ==> (r matches Err(e) && e matches RcleanerError::Command(m)
                && m@ == failure_msg("pacman"@, capture.stdout@, capture.stderr@)),
    {
        if !capture.success {
            return Err(command_failed("pacman", capture));
        }
        Ok(split_lines(capture.stdout.as_str()))
    }

    /// Interprets `pacman -Qi`.
    pub fn check_dependencies(&self, package: &str, capture: &CommandCapture) -> (r: Result<
        Vec<String>,
        RcleanerError,
    >)
        ensures
            capture.success ==> (r matches Ok(v) && strutil::strs_of(v@)
                == pacman_required_by_spec(strutil::lines_spec(capture.stdout@))),
            !capture.success ==> (r matches Err(e) && e matches RcleanerError::Command(m)
                && m@ == failure_msg("pacman"@, capture.stdout@, capture.stderr@)),
    {
        let _ = package;
        if !capture.success {
            return Err(command_failed("pacman", capture));
        }
        Ok(parse_pacman_required_by(capture.stdout.as_str()))
    }
}

// ---------------------------------------------------------------------------
// flatpak, snap, rpm-ostree
// ---------------------------------------------------------------------------

/// The flatpak backend.
pub struct FlatpakManager;

impl FlatpakManager {
    pub fn new() -> (r: Self) {
        FlatpakManager
    }

    pub fn name(&self) -> (r: &str)
        ensures
            r@ == "flatpak"@,
    {
        "flatpak"
    }

    /// Interprets `flatpak list --app`.
    pub fn list_installed(&self, capture: &CommandCapture) -> (r: Result<
        Vec<String>,
        RcleanerError,
    >)
        ensures
            capture.success ==> (r matches Ok(v) && strutil::strs_of(v@) == split_lines_spec(
                capture.stdout@,
            )),
            !capture.success ==> (r matches Err(e) && e matches RcleanerError::Command(m)
                && m@ == failure_msg("flatpak"@, capture.stdout@, capture.stderr@)),
    {
        if !capture.success {
            return Err(command_failed("flatpak", capture));
        }
        Ok(split_lines(capture.stdout.as_str()))
    }

    /// Flatpak applications have no tracked dependents.
    pub fn check_dependencies(&self, package: &str) -> (r: Vec<String>)
        ensures
            r@.len() == 0,
    {
        let _ = package;
        Vec::new()
    }
}

/// The snap backend.
pub struct SnapManager;

/// The names `snap list` prints: the first token of every line after the
/// header line.
pub open spec fn snap_list_spec(ls: Seq<Seq<char>>) -> Seq<Seq<char>>
    decreases ls.len(),
{
    if ls.len() <= 1 {
        Seq::empty()
    } else {
        let rest = snap_list_spec(ls.drop_last());
        if strutil::ws_tokens(ls.last()).len() > 0 {
            rest.push(strutil::ws_tokens(ls.last())[0])
        } else {
            rest
        }
    }
}

/// Parses the output of `snap list`.
pub fn parse_snap_list(output: &str) -> (r: Vec<String>)
    ensures
        strutil::strs_of(r@) == snap_list_spec(strutil::lines_spec(output@)),
{
    let chars = strutil::to_chars(output);
    let lines = strutil::split_lines_chars(&chars);
    let mut r: Vec<String> = Vec::new();
    let mut i: usize = 1;
    let ghost ls = strutil::seqs_of(lines@);
    proof {
        if ls.len() >= 1 {
            assert(ls.take(1).len() <= 1);
            assert(strutil::strs_of(r@) =~= snap_list_spec(ls.take(1)));
        }
    }
    if lines.len() <= 1 {
        proof {
            assert(strutil::strs_of(r@) =~= snap_list_spec(ls));
        }
        return r;
    }
    while i < lines.len()
        invariant
            1 <= i <= lines.len(),
            ls == strutil::seqs_of(lines@),
            ls == strutil::lines_spec(output@),
            strutil::strs_of(r@) == snap_list_spec(ls.take(i as int)),
        decreases lines.len() - i,
    {
        proof {
            assert(ls.take(i + 1).drop_last() =~= ls.take(i as int));
            assert(ls.take(i + 1).last() == ls[i as int]);
            assert(ls[i as int] == lines@[i as int]@);
        }
        let tokens = strutil::split_ws(&lines[i]);
        if tokens.len() > 0 {
            let ghost pre = strutil::strs_of(r@);
            proof {
                assert(strutil::seqs_of(tokens@)[0] == tokens@[0]@);
            }
            let ts = strutil::from_chars(&tokens[0]);
            r.push(ts);
            proof {
                assert(strutil::strs_of(r@) =~= pre.push(strutil::ws_tokens(ls[i as int])[0]));
                assert(strutil::strs_of(r@) =~= snap_list_spec(ls.take(i + 1)));
            }
        } else {
            proof {
                assert(strutil::strs_of(r@) =~= snap_list_spec(ls.take(i + 1)));
            }
        }
        i = i + 1;
    }
    proof {
        assert(ls.take(ls.len() as int) =~= ls);
    }
    r
}

impl SnapManager {
    pub fn new() -> (r: Self) {
        SnapManager
    }

    pub fn name(&self) -> (r: &str)
        ensures
            r@ == "snap"@,
    {
        "snap"
    }

    /// Interprets `snap list`.
    pub fn list_installed(&self, capture: &CommandCapture) -> (r: Result<
        Vec<String>,
        RcleanerError,
    >)
        ensures
            capture.success ==> (r matches Ok(v) && strutil::strs_of(v@) == snap_list_spec(
                strutil::lines_spec(capture.stdout@),
            )),
            !capture.success ==> (r matches Err(e) && e matches RcleanerError::Command(m)
                && m@ == failure_msg("snap"@, capture.stdout@, capture.stderr@)),
    {
        if !capture.success {
            return Err(command_failed("snap", capture));
        }
        Ok(parse_snap_list(capture.stdout.as_str()))
    }

    /// Snap applications have no tracked dependents.
    pub fn check_dependencies(&self, package: &str) -> (r: Vec<String>)
        ensures
            r@.len() == 0,
    {
        let _ = package;
        Vec::new()
    }
}

/// The rpm-ostree backend.
pub struct RpmOstreeManager;

impl RpmOstreeManager {
    pub fn new() -> (r: Self) {
        RpmOstreeManager
    }

    pub fn name(&self) -> (r: &str)
        ensures
            r@ == "rpm-ostree"@,
    {
        "rpm-ostree"
    }

    /// Interprets `rpm-ostree db list`, the fallback listing.
    pub fn list_installed(&self, capture: &CommandCapture) -> (r: Result<
        Vec<String>,
        RcleanerError,
    >)
        ensures
            capture.success ==> (r matches Ok(v) && strutil::strs_of(v@) == split_lines_spec(
                capture.stdout@,
            )),
            !capture.success ==> (r matches Err(e) && e matches RcleanerError::Command(m)
                && m@ == failure_msg("rpm-ostree"@, capture.stdout@, capture.stderr@)),
    {
        if !capture.success {
            return Err(command_failed("rpm-ostree", capture));
        }
        Ok(split_lines(capture.stdout.as_str()))
    }

    /// Layered packages have no tracked dependents.
    pub fn check_dependencies(&self, package: &str) -> (r: Vec<String>)
        ensures
            r@.len() == 0,
    {
        let _ = package;
        Vec::new()
    }
}

// ---------------------------------------------------------------------------
// Dependency dispatch
// ---------------------------------------------------------------------------

/// Queries the right backend's interpretation for a package's
/// dependents. `capture` is what the backend tool printed; `None` means
/// the tool is absent, which counts as no known dependents.
pub fn check_dependencies_for_manager(manager: &str, package: &str, capture: Option<
    &CommandCapture,
>) -> (r: Result<Vec<String>, RcleanerError>)
    ensures
        capture is None ==> (r matches Ok(v) && v@.len() == 0),
        !(manager@ == "apt"@ || manager@ == "dnf"@ || manager@ == "pacman"@ || manager@
            == "rpm"@) ==> (r matches Ok(v) && v@.len() == 0),
        manager@ == "apt"@ ==> (capture matches Some(c) ==> (c.success ==> (r matches Ok(v)
            && strutil::strs_of(v@) == without(
            apt_rdepends_spec(strutil::lines_spec(c.stdout@)),
            package@,
        )))),
        manager@ == "dnf"@ ==> (capture matches Some(c) ==> (c.success ==> (r matches Ok(v)
            && strutil::strs_of(v@) == split_lines_spec(c.stdout@)))),
        manager@ == "pacman"@ ==> (capture matches Some(c) ==> (c.success ==> (r matches Ok(
            v,
        ) && strutil::strs_of(v@) == pacman_required_by_spec(
            strutil::lines_spec(c.stdout@),
        )))),
        manager@ == "rpm"@ ==> (capture matches Some(c) ==> (c.success ==> (r matches Ok(v)
            && strutil::strs_of(v@) == split_lines_spec(c.stdout@)))),
        manager@ == "rpm"@ ==> (capture matches Some(c) ==> ((!c.success && (spec_no_requires(
            lower_of(c.stderr@),
        ) || spec_no_requires(lower_of(c.stdout@)))) ==> (r matches Ok(v) && v@.len() == 0))),
{
    proof {
        reveal_strlit("apt");
        reveal_strlit("dnf");
        reveal_strlit("pacman");
        reveal_strlit("rpm");
        assert(("apt"@).len() == 3);
        assert(("dnf"@).len() == 3);
        assert(("pacman"@).len() == 6);
        assert(("rpm"@).len() == 3);
        assert(("apt"@)[0] == 'a');
        assert(("dnf"@)[0] == 'd');
        assert(("rpm"@)[0] == 'r');
    }
    match capture {
        None => Ok(Vec::new()),
        Some(c) => {
            if strutil::str_eq(manager, "apt") {
                AptManager::new().check_dependencies(package, c)
            } else if strutil::str_eq(manager, "dnf") {
                DnfManager::new().check_dependencies(package, c)
            } else if strutil::str_eq(manager, "pacman") {
                PacmanManager::new().check_dependencies(package, c)
            } else if strutil::str_eq(manager, "rpm") {
                RpmManager::new().check_dependencies(package, c)
            } else {
                Ok(Vec::new())
            }
        }
    }
}

/// Whether a package may be removed: it must be installed, its
/// dependents must be known, and there must be none.
pub fn is_safe_to_remove(package: &String, installed_packages: &Vec<String>, deps: &Option<
    Vec<String>,
>) -> (r: bool)
    ensures
        r == ((exists|i: int|
            0 <= i < installed_packages@.len() && (#[trigger] installed_packages@[i])@
                == package@) && (deps matches Some(d) && d@.len() == 0)),
{
    let mut found = false;
    let mut i: usize = 0;
    while i < installed_packages.len()
        invariant
            i <= installed_packages.len(),
            found ==> exists|j: int|
                0 <= j < installed_packages@.len() && (#[trigger] installed_packages@[j])@
                    == package@,
            !found ==> forall|j: int|
                0 <= j < i ==> (#[trigger] installed_packages@[j])@ != package@,
        decreases installed_packages.len() - i,
    {
        if strutil::str_eq(installed_packages[i].as_str(), package.as_str()) {
            found = true;
        }
        i = i + 1;
    }
    if !found {
        return false;
    }
    match deps {
        Some(d) => d.len() == 0,
        None => false,
    }
}

// ---------------------------------------------------------------------------
// Scan-output parsing for the cleaners
// ---------------------------------------------------------------------------

/// The packages an `apt-get -s autoremove` simulation would remove: the
/// first token after each `Remv ` prefix.
pub open spec fn apt_autoremove_spec(ls: Seq<Seq<char>>) -> Seq<Seq<char>>
    decreases ls.len(),
{
    if ls.len() == 0 {
        Seq::empty()
    } else {
        let rest = apt_autoremove_spec(ls.drop_last());
        let t = strutil::trim_spec(ls.last());
        if strutil::prefix_of("Remv "@, t) && strutil::ws_tokens(t.skip(5)).len() > 0 {
            rest.push(strutil::ws_tokens(t.skip(5))[0])
        } else {
            rest
        }
    }
}

/// Parses the output of `apt-get -s autoremove`.
pub fn parse_apt_autoremove(output: &str) -> (r: Vec<String>)
    ensures
        strutil::strs_of(r@) == apt_autoremove_spec(strutil::lines_spec(output@)),
{
    let chars = strutil::to_chars(output);
    let lines = strutil::split_lines_chars(&chars);
    let header = strutil::to_chars("Remv ");
    proof {
        reveal_strlit("Remv ");
    }
    let mut r: Vec<String> = Vec::new();
    let mut i: usize = 0;
    proof {
        assert(strutil::seqs_of(lines@).take(0) =~= Seq::<Seq<char>>::empty());
        assert(strutil::strs_of(r@) =~= apt_autoremove_spec(strutil::seqs_of(lines@).take(0)));
    }
    while i < lines.len()
        invariant
            i <= lines.len(),
            header@ == "Remv "@,
            header@.len() == 5,
            strutil::seqs_of(lines@) == strutil::lines_spec(output@),
            strutil::strs_of(r@) == apt_autoremove_spec(strutil::seqs_of(lines@).take(i as int)),
        decreases lines.len() - i,
    {
        proof {
            assert(strutil::seqs_of(lines@).take(i + 1).drop_last() =~= strutil::seqs_of(
                lines@,
            ).take(i as int));
            assert(strutil::seqs_of(lines@).take(i + 1).last() == strutil::seqs_of(lines@)[
                i as int
            ]);
            assert(strutil::seqs_of(lines@)[i as int] == lines@[i as int]@);
        }
        let t = strutil::trim(&lines[i]);
        let mut pushed = false;
        if strutil::starts_with(&t, &header) {
            let mut rest: Vec<char> = Vec::new();
            let mut j: usize = 5;
            while j < t.len()
                invariant
                    5 <= j <= t.len(),
                    rest@ =~= t@.subrange(5, j as int),
                decreases t.len() - j,
            {
                rest.push(t[j]);
                proof {
                    assert(rest@ =~= t@.subrange(5, j + 1));
                }
                j = j + 1;
            }
            proof {
                assert(t@.subrange(5, t@.len() as int) =~= t@.skip(5));
            }
            let tokens = strutil::split_ws(&rest);
            if tokens.len() > 0 {
                let ghost pre = strutil::strs_of(r@);
                proof {
                    assert(strutil::seqs_of(tokens@)[0] == tokens@[0]@);
                }
                let ts = strutil::from_chars(&tokens[0]);
                r.push(ts);
                pushed = true;
                proof {
                    assert(strutil::strs_of(r@) =~= pre.push(strutil::ws_tokens(t@.skip(5))[0]));
                    assert(strutil::strs_of(r@) =~= apt_autoremove_spec(
                        strutil::seqs_of(lines@).take(i + 1),
                    ));
                }
            }
        }
        if !pushed {
            proof {
                assert(strutil::strs_of(r@) =~= apt_autoremove_spec(
                    strutil::seqs_of(lines@).take(i + 1),
                ));
            }
        }
        i = i + 1;
    }
    proof {
        assert(strutil::seqs_of(lines@).take(lines@.len() as int) =~= strutil::seqs_of(lines@));
    }
    r
}

/// The image names and size texts a container runtime lists, one per
/// tab-separated line; unnamed images are dropped.
pub open spec fn container_images_spec(ls: Seq<Seq<char>>) -> Seq<(Seq<char>, Seq<char>)>
    decreases ls.len(),
{
    if ls.len() == 0 {
        Seq::empty()
    } else {
        let rest = container_images_spec(ls.drop_last());
        let t = strutil::trim_spec(ls.last());
        if t.len() > 0 {
            let pieces = strutil::split_spec(t, '\t');
            let name = strutil::trim_spec(pieces[0]);
            let size_text = if pieces.len() >= 2 {
                strutil::trim_spec(pieces[1])
            } else {
                Seq::<char>::empty()
            };
            if name.len() > 0 && name != "<none>:<none>"@ {
                rest.push((name, size_text))
            } else {
                rest
            }
        } else {
            rest
        }
    }
}

/// Parses `docker images` or `podman images` output formatted as
/// name, tab, size.
pub fn parse_container_images(output: &str) -> (r: Vec<(String, String)>)
    ensures
        crate::detection::entry_views(r@) == container_images_spec(strutil::lines_spec(output@)),
{
    let chars = strutil::to_chars(output);
    let lines = strutil::split_lines_chars(&chars);
    let none_lit = strutil::to_chars("<none>:<none>");
    let mut r: Vec<(String, String)> = Vec::new();
    let mut i: usize = 0;
    proof {
        assert(strutil::seqs_of(lines@).take(0) =~= Seq::<Seq<char>>::empty());
        assert(crate::detection::entry_views(r@) =~= container_images_spec(
            strutil::seqs_of(lines@).take(0),
        ));
    }
    while i < lines.len()
        invariant
            i <= lines.len(),
            none_lit@ == "<none>:<none>"@,
            strutil::seqs_of(lines@) == strutil::lines_spec(output@),
            crate::detection::entry_views(r@) == container_images_spec(
                strutil::seqs_of(lines@).take(i as int),
            ),
        decreases lines.len() - i,
    {
        proof {
            assert(strutil::seqs_of(lines@).take(i + 1).drop_last() =~= strutil::seqs_of(
                lines@,
            ).take(i as int));
            assert(strutil::seqs_of(lines@).take(i + 1).last() == strutil::seqs_of(lines@)[
                i as int
            ]);
            assert(strutil::seqs_of(lines@)[i as int] == lines@[i as int]@);
        }
        let t = strutil::trim(&lines[i]);
        let mut pushed = false;
        if t.len() > 0 {
            let pieces = strutil::split_chars(&t, '\t');
            proof {
                strutil::lemma_split_len(t@, '\t');
                assert(strutil::seqs_of(pieces@)[0] == pieces@[0]@);
            }
            let name = strutil::trim(&pieces[0]);
            let size_text = if pieces.len() >= 2 {
                proof {
                    assert(strutil::seqs_of(pieces@)[1] == pieces@[1]@);
                }
                strutil::trim(&pieces[1])
            } else {
                Vec::new()
            };
            proof {
                if pieces@.len() < 2 {
                    assert(size_text@ =~= Seq::<char>::empty());
                }
            }
            if name.len() > 0 && !strutil::chars_eq(&name, &none_lit) {
                let ghost pre = crate::detection::entry_views(r@);
                let name_s = strutil::from_chars(&name);
                let size_s = strutil::from_chars(&size_text);
                r.push((name_s, size_s));
                pushed = true;
                proof {
                    assert(crate::detection::entry_views(r@) =~= pre.push(
                        (name@, size_text@),
                    ));
                    assert(crate::detection::entry_views(r@) =~= container_images_spec(
                        strutil::seqs_of(lines@).take(i + 1),
                    ));
                }
            }
        }
        if !pushed {
            proof {
                assert(crate::detection::entry_views(r@) =~= container_images_spec(
                    strutil::seqs_of(lines@).take(i + 1),
                ));
            }
        }
        i = i + 1;
    }
    proof {
        assert(strutil::seqs_of(lines@).take(lines@.len() as int) =~= strutil::seqs_of(lines@));
    }
    r
}

/// One flatpak listing row: the application id and the size column
/// text, the remaining tokens joined with single spaces.
pub open spec fn join_spaces(tokens: Seq<Seq<char>>) -> Seq<char>
    decreases tokens.len(),
{
    if tokens.len() == 0 {
        Seq::empty()
    } else if tokens.len() == 1 {
        tokens[0]
    } else {
        join_spaces(tokens.drop_last()) + seq![' '] + tokens.last()
    }
}

/// The application and size-text columns of `flatpak list`.
pub open spec fn flatpak_columns_spec(ls: Seq<Seq<char>>) -> Seq<(Seq<char>, Seq<char>)>
    decreases ls.len(),
{
    if ls.len() == 0 {
        Seq::empty()
    } else {
        let rest = flatpak_columns_spec(ls.drop_last());
        let t = strutil::trim_spec(ls.last());
        let tokens = strutil::ws_tokens(t);
        if t.len() > 0 && tokens.len() > 0 {
            rest.push((tokens[0], join_spaces(tokens.skip(1))))
        } else {
            rest
        }
    }
}

/// Parses `flatpak list --app --columns=application,size` output.
pub fn parse_flatpak_columns(output: &str) -> (r: Vec<(String, String)>)
    ensures
        crate::detection::entry_views(r@) == flatpak_columns_spec(strutil::lines_spec(output@)),
{
    let chars = strutil::to_chars(output);
    let lines = strutil::split_lines_chars(&chars);
    let mut r: Vec<(String, String)> = Vec::new();
    let mut i: usize = 0;
    proof {
        assert(strutil::seqs_of(lines@).take(0) =~= Seq::<Seq<char>>::empty());
        assert(crate::detection::entry_views(r@) =~= flatpak_columns_spec(
            strutil::seqs_of(lines@).take(0),
        ));
    }
    while i < lines.len()
        invariant
            i <= lines.len(),
            strutil::seqs_of(lines@) == strutil::lines_spec(output@),
            crate::detection::entry_views(r@) == flatpak_columns_spec(
                strutil::seqs_of(lines@).take(i as int),
            ),
        decreases lines.len() - i,
    {
        proof {
            assert(strutil::seqs_of(lines@).take(i + 1).drop_last() =~= strutil::seqs_of(
                lines@,
            ).take(i as int));
            assert(strutil::seqs_of(lines@).take(i + 1).last() == strutil::seqs_of(lines@)[
                i as int
            ]);
            assert(strutil::seqs_of(lines@)[i as int] == lines@[i as int]@);
        }
        let t = strutil::trim(&lines[i]);
        let mut pushed = false;
        if t.len() > 0 {
            let tokens = strutil::split_ws(&t);
            if tokens.len() > 0 {
                proof {
                    assert(strutil::seqs_of(tokens@)[0] == tokens@[0]@);
                }
                let app = strutil::from_chars(&tokens[0]);
                // Join the remaining tokens with single spaces.
                let mut size_text: Vec<char> = Vec::new();
                let mut k: usize = 1;
                proof {
                    assert(strutil::seqs_of(tokens@).skip(1).take(0)
                        =~= Seq::<Seq<char>>::empty());
                    assert(size_text@ =~= join_spaces(strutil::seqs_of(tokens@).skip(1).take(0)));
                }
                while k < tokens.len()
                    invariant
                        1 <= k <= tokens.len(),
                        strutil::seqs_of(tokens@) == strutil::ws_tokens(t@),
                        size_text@ == join_spaces(
                            strutil::seqs_of(tokens@).skip(1).take(k - 1),
                        ),
                    decreases tokens.len() - k,
                {
                    proof {
                        let sk = strutil::seqs_of(tokens@).skip(1);
                        assert(sk.take(k as int).drop_last() =~= sk.take(k - 1));
                        assert(sk.take(k as int).last() == sk[k - 1]);
                        assert(sk[k - 1] == strutil::seqs_of(tokens@)[k as int]);
                        assert(strutil::seqs_of(tokens@)[k as int] == tokens@[k as int]@);
                    }
                    if k > 1 {
                        size_text.push(' ');
                    }
                    let ghost mid = size_text@;
                    let n = tokens[k].len();
                    let mut j: usize = 0;
                    while j < n
                        invariant
                            j <= n,
                            k < tokens.len(),
                            n == tokens@[k as int]@.len(),
                            size_text@ =~= mid + tokens@[k as int]@.take(j as int),
                        decreases n - j,
                    {
                        let c = tokens[k][j];
                        size_text.push(c);
                        proof {
                            assert(size_text@ =~= mid + tokens@[k as int]@.take(j + 1));
                        }
                        j = j + 1;
                    }
                    proof {
                        let ghost tk = tokens@[k as int]@;
                        assert(tk.take(tk.len() as int) =~= tk);
                        assert(size_text@ =~= join_spaces(
                            strutil::seqs_of(tokens@).skip(1).take(k as int),
                        ));
                    }
                    k = k + 1;
                }
                proof {
                    let sk = strutil::seqs_of(tokens@).skip(1);
                    assert(sk.take(sk.len() as int) =~= sk);
                    assert(sk.take(tokens@.len() - 1) =~= sk);
                }
                let ghost pre = crate::detection::entry_views(r@);
                let size_s = strutil::from_chars(&size_text);
                r.push((app, size_s));
                pushed = true;
                proof {
                    assert(crate::detection::entry_views(r@) =~= pre.push(
                        (
                            strutil::ws_tokens(t@)[0],
                            join_spaces(strutil::ws_tokens(t@).skip(1)),
                        ),
                    ));
                    assert(crate::detection::entry_views(r@) =~= flatpak_columns_spec(
                        strutil::seqs_of(lines@).take(i + 1),
                    ));
                }
            }
        }
        if !pushed {
            proof {
                assert(crate::detection::entry_views(r@) =~= flatpak_columns_spec(
                    strutil::seqs_of(lines@).take(i + 1),
                ));
            }
        }
        i = i + 1;
    }
    proof {
        assert(strutil::seqs_of(lines@).take(lines@.len() as int) =~= strutil::seqs_of(lines@));
    }
    r
}

/// Builds one package-sourced cleanup item.
pub fn make_package_item(name: &str, description: &str, manager: &str) -> (r: CleanupItem)
    ensures
        r.id@ == manager@ + ":"@ + name@,
        r.name@ == name@,
        r.path is None,
        r.size == 0,
        r.description@ == description@,
        r.category == CleanupCategory::OldPackages,
        (match r.source {
            CleanupSource::PackageManager(m) => m@ == manager@,
            _ => false,
        }),
        !r.selected,
        r.can_clean,
        r.blocked_reason is None,
        r.dependencies@.len() == 0,
{
    let mut id = String::new();
    id.append(manager);
    id.append(":");
    id.append(name);
    CleanupItem {
        id,
        name: name.to_owned(),
        path: None,
        size: 0,
        description: description.to_owned(),
        category: CleanupCategory::OldPackages,
        source: CleanupSource::PackageManager(manager.to_owned()),
        selected: false,
        can_clean: true,
        blocked_reason: None,
        dependencies: Vec::new(),
    }
}

} // verus!
