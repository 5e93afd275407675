//! System classification: reading os-release text and deciding the
//! system and desktop type from it and from the tools found on the
//! machine. What the machine holds is handed in as plain values.

use vstd::prelude::*;
use crate::strutil;

verus! {

/// The overall system kind.
#[derive(Clone, Copy, PartialEq, Eq, Structural, Debug)]
pub enum SystemType {
    AtomicRpmOstree,
    Desktop(DesktopType),
}

/// The desktop distribution family.
#[derive(Clone, Copy, PartialEq, Eq, Structural, Debug)]
pub enum DesktopType {
    RpmFedora,
    RpmRHEL,
    AptDebian,
    AptUbuntu,
    PacmanArch,
    Unknown,
}

/// A package manager found on the machine.
#[derive(Clone, Copy, PartialEq, Eq, Structural, Debug)]
pub enum PackageManagerType {
    RpmOstree,
    Rpm,
    Dnf,
    Apt,
    Pacman,
    Flatpak,
    Snap,
}

/// A container runtime found on the machine.
#[derive(Clone, Copy, PartialEq, Eq, Structural, Debug)]
pub enum ContainerType {
    Docker,
    Podman,
}

/// Everything detection concludes about the machine.
#[derive(Clone, Debug)]
pub struct SystemInfo {
    pub system_type: SystemType,
    pub os_name: String,
    pub os_version: String,
    pub desktop_environment: Option<String>,
    pub available_managers: Vec<PackageManagerType>,
    pub containers: Vec<ContainerType>,
}

// ---------------------------------------------------------------------------
// os-release parsing
// ---------------------------------------------------------------------------

/// The first position of a character, or the length when absent.
pub open spec fn idx_of(s: Seq<char>, c: char) -> int
    decreases s.len(),
{
    if s.len() == 0 {
        0
    } else if s[0] == c {
        0
    } else {
        1 + idx_of(s.skip(1), c)
    }
}

pub proof fn lemma_idx_of_bounds(s: Seq<char>, c: char)
    ensures
        0 <= idx_of(s, c) <= s.len(),
        idx_of(s, c) < s.len() ==> s[idx_of(s, c)] == c,
        forall|j: int| 0 <= j < idx_of(s, c) ==> s[j] != c,
    decreases s.len(),
{
    if s.len() > 0 && s[0] != c {
        lemma_idx_of_bounds(s.skip(1), c);
        assert forall|j: int| 0 <= j < idx_of(s, c) implies s[j] != c by {
            if j >= 1 {
                assert(s.skip(1)[j - 1] == s[j]);
            }
        }
    }
}

/// All occurrences of one character stripped from both ends.
pub open spec fn strip_char_start(s: Seq<char>, c: char) -> Seq<char>
    decreases s.len(),
{
    if s.len() > 0 && s[0] == c {
        strip_char_start(s.skip(1), c)
    } else {
        s
    }
}

pub open spec fn strip_char_end(s: Seq<char>, c: char) -> Seq<char>
    decreases s.len(),
{
    if s.len() > 0 && s.last() == c {
        strip_char_end(s.drop_last(), c)
    } else {
        s
    }
}

pub open spec fn strip_char(s: Seq<char>, c: char) -> Seq<char> {
    strip_char_end(strip_char_start(s, c), c)
}

proof fn lemma_strip_char_start_at(s: Seq<char>, c: char, a: int)
    requires
        0 <= a <= s.len(),
        forall|j: int| 0 <= j < a ==> s[j] == c,
        a == s.len() || s[a] != c,
    ensures
        strip_char_start(s, c) == s.skip(a),
    decreases a,
{
    if a == 0 {
        assert(s.skip(0) =~= s);
    } else {
        lemma_strip_char_start_at(s.skip(1), c, a - 1);
        assert(s.skip(1).skip(a - 1) =~= s.skip(a));
    }
}

proof fn lemma_strip_char_end_at(s: Seq<char>, c: char, b: int)
    requires
        0 <= b <= s.len(),
        forall|j: int| b <= j < s.len() ==> s[j] == c,
        b == 0 || s[b - 1] != c,
    ensures
        strip_char_end(s, c) == s.take(b),
    decreases s.len() - b,
{
    if b == s.len() {
        assert(s.take(b) =~= s);
    } else {
        lemma_strip_char_end_at(s.drop_last(), c, b);
        assert(s.drop_last().take(b) =~= s.take(b));
    }
}

fn strip_char_exec(s: &Vec<char>, c: char) -> (r: Vec<char>)
    ensures
        r@ == strip_char(s@, c),
{
    let mut a: usize = 0;
    while a < s.len() && s[a] == c
        invariant
            a <= s.len(),
            forall|j: int| 0 <= j < a ==> s@[j] == c,
        decreases s.len() - a,
    {
        a = a + 1;
    }
    let mut b: usize = s.len();
    while b > a && s[b - 1] == c
        invariant
            a <= b <= s.len(),
            forall|j: int| 0 <= j < a ==> s@[j] == c,
            forall|j: int| b <= j < s.len() ==> s@[j] == c,
        decreases b,
    {
        b = b - 1;
    }
    let mut r: Vec<char> = Vec::new();
    let mut i: usize = a;
    while i < b
        invariant
            a <= i <= b <= s.len(),
            r@ =~= s@.subrange(a as int, i as int),
        decreases b - i,
    {
        r.push(s[i]);
        proof {
            assert(r@ =~= s@.subrange(a as int, i + 1));
        }
        i = i + 1;
    }
    proof {
        lemma_strip_char_start_at(s@, c, a as int);
        if b == a {
            lemma_strip_char_end_at(s@.skip(a as int), c, 0);
        } else {
            lemma_strip_char_end_at(s@.skip(a as int), c, b - a);
        }
        assert(s@.skip(a as int).take(b - a) =~= s@.subrange(a as int, b as int));
        assert(r@ =~= strip_char(s@, c));
    }
    r
}

/// The cleaned value text of an os-release assignment: trimmed, with
/// surrounding double then single quotes stripped.
pub open spec fn clean_value(raw: Seq<char>) -> Seq<char> {
    strip_char(strip_char(strutil::trim_spec(raw), '"'), '\'')
}

/// The key/value entries an os-release text holds, in file order:
/// trimmed non-empty lines that are no comment and carry an equals
/// sign.
pub open spec fn os_entries(ls: Seq<Seq<char>>) -> Seq<(Seq<char>, Seq<char>)>
    decreases ls.len(),
{
    if ls.len() == 0 {
        Seq::empty()
    } else {
        let rest = os_entries(ls.drop_last());
        let t = strutil::trim_spec(ls.last());
        if t.len() > 0 && t[0] != '#' && strutil::contains_char(t, '=') {
            rest.push((t.take(idx_of(t, '=')), clean_value(t.skip(idx_of(t, '=') + 1))))
        } else {
            rest
        }
    }
}

pub open spec fn entry_views(v: Seq<(String, String)>) -> Seq<(Seq<char>, Seq<char>)> {
    Seq::new(v.len(), |i: int| (v[i].0@, v[i].1@))
}

/// Parses os-release text into its entries.
pub fn parse_os_release(content: &str) -> (r: Vec<(String, String)>)
    ensures
        entry_views(r@) == os_entries(strutil::lines_spec(content@)),
{
    let chars = strutil::to_chars(content);
    let lines = strutil::split_lines_chars(&chars);
    let mut r: Vec<(String, String)> = Vec::new();
    let mut i: usize = 0;
    proof {
        assert(strutil::seqs_of(lines@).take(0) =~= Seq::<Seq<char>>::empty());
        assert(entry_views(r@) =~= os_entries(strutil::seqs_of(lines@).take(0)));
    }
    while i < lines.len()
        invariant
            i <= lines.len(),
            strutil::seqs_of(lines@) == strutil::lines_spec(content@),
            entry_views(r@) == os_entries(strutil::seqs_of(lines@).take(i as int)),
        decreases lines.len() - i,
    {
        proof {
            assert(strutil::seqs_of(lines@).take(i + 1).drop_last() =~= strutil::seqs_of(
                lines@,
            ).take(i as int));
            assert(strutil::seqs_of(lines@).take(i + 1).last() == strutil::seqs_of(lines@)[
                i as int
            ]);
            assert(strutil::seqs_of(lines@)[i as int] == lines@[i as int]@);
        }
        let t = strutil::trim(&lines[i]);
        let mut handled = false;
        if t.len() > 0 && t[0] != '#' && strutil::has_char(&t, '=') {
            // The first equals sign splits key and value.
            let mut e: usize = 0;
            while e < t.len() && t[e] != '='
                invariant
                    e <= t.len(),
                    forall|j: int| 0 <= j < e ==> t@[j] != '=',
                decreases t.len() - e,
            {
                e = e + 1;
            }
            proof {
                lemma_idx_of_bounds(t@, '=');
                if e < t.len() {
                    assert(idx_of(t@, '=') == e as int) by {
                        if idx_of(t@, '=') < e {
                            assert(t@[idx_of(t@, '=')] == '=');
                        }
                        if idx_of(t@, '=') > e {
                            assert(t@[e as int] != '=');
                        }
                    }
                }
            }
            if e < t.len() {
                let mut key: Vec<char> = Vec::new();
                let mut j: usize = 0;
                while j < e
                    invariant
                        j <= e <= t.len(),
                        key@ =~= t@.subrange(0, j as int),
                    decreases e - j,
                {
                    key.push(t[j]);
                    proof {
                        assert(key@ =~= t@.subrange(0, j + 1));
                    }
                    j = j + 1;
                }
                let mut raw: Vec<char> = Vec::new();
                let mut j: usize = e + 1;
                while j < t.len()
                    invariant
                        e + 1 <= j <= t.len(),
                        raw@ =~= t@.subrange(e + 1, j as int),
                    decreases t.len() - j,
                {
                    raw.push(t[j]);
                    proof {
                        assert(raw@ =~= t@.subrange(e + 1, j + 1));
                    }
                    j = j + 1;
                }
                proof {
                    assert(key@ =~= t@.take(e as int));
                    assert(raw@ =~= t@.skip(e + 1));
                }
                let vt = strutil::trim(&raw);
                let v1 = strip_char_exec(&vt, '"');
                let v2 = strip_char_exec(&v1, '\'');
                let ghost pre = entry_views(r@);
                let key_s = strutil::from_chars(&key);
                let val_s = strutil::from_chars(&v2);
                r.push((key_s, val_s));
                handled = true;
                proof {
                    assert(entry_views(r@) =~= pre.push(
                        (t@.take(idx_of(t@, '=')), clean_value(t@.skip(idx_of(t@, '=') + 1))),
                    ));
                    assert(entry_views(r@) =~= os_entries(
                        strutil::seqs_of(lines@).take(i + 1),
                    ));
                }
            }
        }
        if !handled {
            proof {
                assert(entry_views(r@) =~= os_entries(strutil::seqs_of(lines@).take(i + 1)));
            }
        }
        i = i + 1;
    }
    proof {
        assert(strutil::seqs_of(lines@).take(lines@.len() as int) =~= strutil::seqs_of(lines@));
    }
    r
}

/// The value of a key, the last assignment winning, as a map would
/// store it.
pub open spec fn lookup_value(entries: Seq<(Seq<char>, Seq<char>)>, key: Seq<char>) -> Option<
    Seq<char>,
>
    decreases entries.len(),
{
    if entries.len() == 0 {
        None
    } else if entries.last().0 == key {
        Some(entries.last().1)
    } else {
        lookup_value(entries.drop_last(), key)
    }
}

/// Reads one key from parsed entries.
pub fn os_release_value(values: &Vec<(String, String)>, key: &str) -> (r: Option<String>)
    ensures
        match r {
            Some(v) => Some(v@) == lookup_value(entry_views(values@), key@),
            None => lookup_value(entry_views(values@), key@) is None,
        },
{
    let mut i: usize = values.len();
    proof {
        assert(entry_views(values@).take(values@.len() as int) =~= entry_views(values@));
    }
    while i > 0
        invariant
            i <= values.len(),
            lookup_value(entry_views(values@), key@) == lookup_value(
                entry_views(values@).take(i as int),
                key@,
            ),
        decreases i,
    {
        proof {
            assert(entry_views(values@).take(i as int).last() == entry_views(values@)[i - 1]);
            assert(entry_views(values@).take(i as int).drop_last() =~= entry_views(
                values@,
            ).take(i - 1));
            assert(entry_views(values@)[i - 1] == (values@[i - 1].0@, values@[i - 1].1@));
        }
        if strutil::str_eq(values[i - 1].0.as_str(), key) {
            return Some(values[i - 1].1.clone());
        }
        i = i - 1;
    }
    proof {
        assert(entry_views(values@).take(0) =~= Seq::<(Seq<char>, Seq<char>)>::empty());
    }
    None
}

// ---------------------------------------------------------------------------
// Desktop environment and type
// ---------------------------------------------------------------------------

/// The canonical desktop environment name: GNOME, KDE and XFCE are
/// recognized in any case, anything else is kept trimmed.
pub open spec fn spec_normalize_de(value: Seq<char>) -> Seq<char> {
    let lower = strutil::lower_seq(value);
    if strutil::contains_seq(lower, "gnome"@) {
        "GNOME"@
    } else if strutil::contains_seq(lower, "kde"@) || strutil::contains_seq(lower, "plasma"@) {
        "KDE"@
    } else if strutil::contains_seq(lower, "xfce"@) {
        "XFCE"@
    } else {
        strutil::trim_spec(value)
    }
}

pub fn normalize_desktop_environment(value: &str) -> (r: String)
    ensures
        r@ == spec_normalize_de(value@),
{
    let chars = strutil::to_chars(value);
    let lower = strutil::to_ascii_lower(&chars);
    let gnome = strutil::to_chars("gnome");
    let kde = strutil::to_chars("kde");
    let plasma = strutil::to_chars("plasma");
    let xfce = strutil::to_chars("xfce");
    if strutil::contains(&lower, &gnome) {
        return "GNOME".to_owned();
    }
    if strutil::contains(&lower, &kde) || strutil::contains(&lower, &plasma) {
        return "KDE".to_owned();
    }
    if strutil::contains(&lower, &xfce) {
        return "XFCE".to_owned();
    }
    let t = strutil::trim(&chars);
    strutil::from_chars(&t)
}

pub open spec fn has_manager(ms: Seq<PackageManagerType>, m: PackageManagerType) -> bool {
    exists|i: int| 0 <= i < ms.len() && ms[i] == m
}

fn has_manager_exec(ms: &Vec<PackageManagerType>, m: PackageManagerType) -> (r: bool)
    ensures
        r == has_manager(ms@, m),
{
    let mut i: usize = 0;
    while i < ms.len()
        invariant
            i <= ms.len(),
            forall|j: int| 0 <= j < i ==> ms@[j] != m,
        decreases ms.len() - i,
    {
        if ms[i] == m {
            return true;
        }
        i = i + 1;
    }
    false
}

pub open spec fn has_token(tokens: Seq<Seq<char>>, t: Seq<char>) -> bool {
    exists|i: int| 0 <= i < tokens.len() && tokens[i] == t
}

fn has_token_exec(tokens: &Vec<Vec<char>>, t: &str) -> (r: bool)
    ensures
        r == has_token(strutil::seqs_of(tokens@), t@),
{
    let tc = strutil::to_chars(t);
    let mut i: usize = 0;
    while i < tokens.len()
        invariant
            i <= tokens.len(),
            tc@ == t@,
            forall|j: int| 0 <= j < i ==> strutil::seqs_of(tokens@)[j] != t@,
        decreases tokens.len() - i,
    {
        proof {
            assert(strutil::seqs_of(tokens@)[i as int] == tokens@[i as int]@);
        }
        if strutil::chars_eq(&tokens[i], &tc) {
            proof {
                assert(strutil::seqs_of(tokens@)[i as int] == t@);
            }
            return true;
        }
        i = i + 1;
    }
    false
}

/// The lower-cased value of a key, empty when absent.
pub open spec fn lower_value(entries: Seq<(Seq<char>, Seq<char>)>, key: Seq<char>) -> Seq<char> {
    match lookup_value(entries, key) {
        Some(v) => strutil::lower_seq(v),
        None => Seq::empty(),
    }
}

/// The desktop family the os-release identifiers and the installed
/// managers denote, checked in the order the identifiers bind.
pub open spec fn spec_desktop_type(
    entries: Seq<(Seq<char>, Seq<char>)>,
    managers: Seq<PackageManagerType>,
) -> DesktopType {
    let id = lower_value(entries, "ID"@);
    let like = strutil::ws_tokens(lower_value(entries, "ID_LIKE"@));
    if id == "fedora"@ {
        DesktopType::RpmFedora
    } else if id == "rhel"@ || id == "centos"@ || id == "rocky"@ || id == "almalinux"@ {
        DesktopType::RpmRHEL
    } else if id == "ubuntu"@ || id == "linuxmint"@ || id == "pop"@ {
        DesktopType::AptUbuntu
    } else if id == "debian"@ {
        DesktopType::AptDebian
    } else if id == "arch"@ || id == "manjaro"@ || id == "endeavouros"@ {
        DesktopType::PacmanArch
    } else if has_token(like, "fedora"@) {
        DesktopType::RpmFedora
    } else if has_token(like, "rhel"@) {
        DesktopType::RpmRHEL
    } else if has_token(like, "ubuntu"@) {
        DesktopType::AptUbuntu
    } else if has_token(like, "debian"@) {
        DesktopType::AptDebian
    } else if has_token(like, "arch"@) {
        DesktopType::PacmanArch
    } else if has_manager(managers, PackageManagerType::Pacman) {
        DesktopType::PacmanArch
    } else if has_manager(managers, PackageManagerType::Apt) {
        DesktopType::AptDebian
    } else if has_manager(managers, PackageManagerType::Dnf) || has_manager(
        managers,
        PackageManagerType::Rpm,
    ) {
        DesktopType::RpmFedora
    } else {
        DesktopType::Unknown
    }
}

/// Decides the desktop family from parsed os-release entries and the
/// managers found on the machine.
pub fn detect_desktop_type(os_release: &Vec<(String, String)>, managers: &Vec<
    PackageManagerType,
>) -> (r: DesktopType)
    ensures
        r == spec_desktop_type(entry_views(os_release@), managers@),
{
    let id: Vec<char> = match os_release_value(os_release, "ID") {
        Some(v) => {
            let c = strutil::to_chars(v.as_str());
            strutil::to_ascii_lower(&c)
        }
        None => Vec::new(),
    };
    proof {
        assert(id@ == lower_value(entry_views(os_release@), "ID"@)) by {
            if lookup_value(entry_views(os_release@), "ID"@) is None {
                assert(id@ =~= Seq::<char>::empty());
            }
        }
    }
    let like_chars: Vec<char> = match os_release_value(os_release, "ID_LIKE") {
        Some(v) => {
            let c = strutil::to_chars(v.as_str());
            strutil::to_ascii_lower(&c)
        }
        None => Vec::new(),
    };
    proof {
        assert(like_chars@ == lower_value(entry_views(os_release@), "ID_LIKE"@)) by {
            if lookup_value(entry_views(os_release@), "ID_LIKE"@) is None {
                assert(like_chars@ =~= Seq::<char>::empty());
            }
        }
    }
    let like = strutil::split_ws(&like_chars);
    let ids = strutil::from_chars(&id);
    if strutil::str_eq(ids.as_str(), "fedora") {
        DesktopType::RpmFedora
    } else if strutil::str_eq(ids.as_str(), "rhel") || strutil::str_eq(ids.as_str(), "centos")
        || strutil::str_eq(ids.as_str(), "rocky") || strutil::str_eq(ids.as_str(), "almalinux") {
        DesktopType::RpmRHEL
    } else if strutil::str_eq(ids.as_str(), "ubuntu") || strutil::str_eq(
        ids.as_str(),
        "linuxmint",
    ) || strutil::str_eq(ids.as_str(), "pop") {
        DesktopType::AptUbuntu
    } else if strutil::str_eq(ids.as_str(), "debian") {
        DesktopType::AptDebian
    } else if strutil::str_eq(ids.as_str(), "arch") || strutil::str_eq(ids.as_str(), "manjaro")
        || strutil::str_eq(ids.as_str(), "endeavouros") {
        DesktopType::PacmanArch
    } else if has_token_exec(&like, "fedora") {
        DesktopType::RpmFedora
    } else if has_token_exec(&like, "rhel") {
        DesktopType::RpmRHEL
    } else if has_token_exec(&like, "ubuntu") {
        DesktopType::AptUbuntu
    } else if has_token_exec(&like, "debian") {
        DesktopType::AptDebian
    } else if has_token_exec(&like, "arch") {
        DesktopType::PacmanArch
    } else if has_manager_exec(managers, PackageManagerType::Pacman) {
        DesktopType::PacmanArch
    } else if has_manager_exec(managers, PackageManagerType::Apt) {
        DesktopType::AptDebian
    } else if has_manager_exec(managers, PackageManagerType::Dnf) || has_manager_exec(
        managers,
        PackageManagerType::Rpm,
    ) {
        DesktopType::RpmFedora
    } else {
        DesktopType::Unknown
    }
}

/// Classifies the system. The caller reads the os-release text, finds
/// the installed tools and runtimes, the desktop environment and
/// whether the machine booted through ostree; everything decided from
/// those facts is decided here.
pub fn detect_system(
    os_release_content: &str,
    available_managers: Vec<PackageManagerType>,
    containers: Vec<ContainerType>,
    desktop_environment: Option<String>,
    ostree_booted: bool,
) -> (r: SystemInfo)
    ensures
        ({
            let entries = os_entries(strutil::lines_spec(os_release_content@));
            &&& r.system_type == (if ostree_booted {
                SystemType::AtomicRpmOstree
            } else {
                SystemType::Desktop(spec_desktop_type(entries, available_managers@))
            })
            &&& r.os_name@ == (match lookup_value(entries, "PRETTY_NAME"@) {
                Some(v) => v,
                None => match lookup_value(entries, "NAME"@) {
                    Some(v) => v,
                    None => "Unknown"@,
                },
            })
            &&& r.os_version@ == (match lookup_value(entries, "VERSION_ID"@) {
                Some(v) => v,
                None => match lookup_value(entries, "VERSION"@) {
                    Some(v) => v,
                    None => "Unknown"@,
                },
            })
            &&& r.desktop_environment == desktop_environment
            &&& r.available_managers@ == available_managers@
            &&& r.containers@ == containers@
        }),
{
    let entries = parse_os_release(os_release_content);
    let os_name = match os_release_value(&entries, "PRETTY_NAME") {
        Some(v) => v,
        None => match os_release_value(&entries, "NAME") {
            Some(v) => v,
            None => "Unknown".to_owned(),
        },
    };
    let os_version = match os_release_value(&entries, "VERSION_ID") {
        Some(v) => v,
        None => match os_release_value(&entries, "VERSION") {
            Some(v) => v,
            None => "Unknown".to_owned(),
        },
    };
    let system_type = if ostree_booted {
        SystemType::AtomicRpmOstree
    } else {
        SystemType::Desktop(detect_desktop_type(&entries, &available_managers))
    };
    SystemInfo {
        system_type,
        os_name,
        os_version,
        desktop_environment,
        available_managers,
        containers,
    }
}

} // verus!
