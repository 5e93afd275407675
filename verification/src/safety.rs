//! Safety policy engine: built-in protected paths, user whitelist and
//! blacklist, permission checks and the per-item verdict. Turning the
//! safety system off (where disabling needs no root, or the caller is
//! root) allows every item unconditionally.
//!
//! Rule evaluation order is first-match-wins: the built-in rules, then
//! the user whitelist, then the user blacklist. A whitelist match makes
//! a path protected, exactly as a blacklist match does.

use vstd::prelude::*;
use vstd::string::StringExecFns;
use crate::config::Config;
use crate::error::RcleanerError;
use crate::glob;
use crate::models::{CleanupItem, CleanupSource};
use crate::strutil;

verus! {

/// Classification of a safety rule; it does not change matching.
#[derive(Clone, Copy, PartialEq, Eq, Structural, Debug)]
pub enum SafetyRuleType {
    ProtectSystemPackages,
    ProtectKernel,
    ProtectBootloader,
    ProtectUserHome,
    ProtectActiveApplications,
}

/// One safety rule: a pattern and its human-readable description.
#[derive(Clone, Debug)]
pub struct SafetyRule {
    pub pattern: String,
    pub description: String,
    pub rule_type: SafetyRuleType,
}

/// The rule set: switches, the two user lists and the home directory
/// used for `~` expansion, handed in by the caller.
#[derive(Clone, Debug)]
pub struct SafetyRules {
    pub enabled: bool,
    pub only_root_can_disable: bool,
    pub whitelist: Vec<SafetyRule>,
    pub blacklist: Vec<SafetyRule>,
    pub home: Option<String>,
}

/// Mathematical model of one rule.
pub ghost struct RuleModel {
    pub pattern: Seq<char>,
    pub description: Seq<char>,
}

/// Mathematical model of the rule set.
pub ghost struct RulesModel {
    pub enabled: bool,
    pub only_root_can_disable: bool,
    pub whitelist: Seq<RuleModel>,
    pub blacklist: Seq<RuleModel>,
    pub home: Option<Seq<char>>,
}

pub open spec fn rule_model(r: SafetyRule) -> RuleModel {
    RuleModel { pattern: r.pattern@, description: r.description@ }
}

pub open spec fn rule_models(v: Seq<SafetyRule>) -> Seq<RuleModel> {
    Seq::new(v.len(), |i: int| rule_model(v[i]))
}

impl View for SafetyRules {
    type V = RulesModel;

    open spec fn view(&self) -> RulesModel {
        RulesModel {
            enabled: self.enabled,
            only_root_can_disable: self.only_root_can_disable,
            whitelist: rule_models(self.whitelist@),
            blacklist: rule_models(self.blacklist@),
            home: match self.home {
                Some(h) => Some(h@),
                None => None,
            },
        }
    }
}

pub open spec fn opt_str_view(h: Option<String>) -> Option<Seq<char>> {
    match h {
        Some(s) => Some(s@),
        None => None,
    }
}

// ---------------------------------------------------------------------------
// Pattern normalization and matching
// ---------------------------------------------------------------------------

/// `~` alone becomes the home directory, a leading `~/` is replaced by
/// it; without a home directory the value is kept.
pub open spec fn expand_tilde_spec(v: Seq<char>, home: Option<Seq<char>>) -> Seq<char> {
    if home is Some && v =~= seq!['~'] {
        home->0
    } else if home is Some && v.len() >= 2 && v[0] == '~' && v[1] == '/' {
        home->0 + v.skip(1)
    } else {
        v
    }
}

/// Trimming followed by `~` expansion.
pub open spec fn normalize_pattern_spec(p: Seq<char>, home: Option<Seq<char>>) -> Seq<char> {
    expand_tilde_spec(strutil::trim_spec(p), home)
}

/// Whether a pattern carries a wildcard.
pub open spec fn has_glob_spec(p: Seq<char>) -> bool {
    strutil::contains_char(p, '*') || strutil::contains_char(p, '?')
}

/// How one pattern is matched against a path: a wildcard pattern must
/// glob-match the whole path; an absolute literal is a prefix test; any
/// other literal is a substring test.
pub open spec fn matches_rule_spec(path: Seq<char>, pattern: Seq<char>, home: Option<Seq<char>>) -> bool {
    let e = normalize_pattern_spec(pattern, home);
    if has_glob_spec(e) {
        glob::glob_matches(e, path)
    } else if e.len() > 0 && e[0] == '/' {
        strutil::prefix_of(e, path)
    } else {
        strutil::contains_seq(path, e)
    }
}

fn copy_chars(v: &Vec<char>) -> (r: Vec<char>)
    ensures
        r@ == v@,
{
    let mut r: Vec<char> = Vec::new();
    let mut i: usize = 0;
    while i < v.len()
        invariant
            i <= v.len(),
            r@ =~= v@.take(i as int),
        decreases v.len() - i,
    {
        r.push(v[i]);
        proof {
            assert(r@ =~= v@.take(i + 1));
        }
        i = i + 1;
    }
    proof {
        assert(v@.take(v@.len() as int) =~= v@);
    }
    r
}

fn expand_tilde(v: &Vec<char>, home: &Option<String>) -> (r: Vec<char>)
    ensures
        r@ == expand_tilde_spec(v@, opt_str_view(*home)),
{
    match home {
        None => copy_chars(v),
        Some(h) => {
            if v.len() == 1 && v[0] == '~' {
                proof {
                    assert(v@ =~= seq!['~']);
                }
                strutil::to_chars(h.as_str())
            } else if v.len() >= 2 && v[0] == '~' && v[1] == '/' {
                let mut r = strutil::to_chars(h.as_str());
                let mut i: usize = 1;
                while i < v.len()
                    invariant
                        1 <= i <= v.len(),
                        r@ =~= h@ + v@.subrange(1, i as int),
                    decreases v.len() - i,
                {
                    r.push(v[i]);
                    proof {
                        assert(r@ =~= h@ + v@.subrange(1, i + 1));
                    }
                    i = i + 1;
                }
                proof {
                    assert(v@.subrange(1, v@.len() as int) =~= v@.skip(1));
                    assert(!(v@ =~= seq!['~']));
                }
                r
            } else {
                proof {
                    assert(!(v@ =~= seq!['~']));
                }
                copy_chars(v)
            }
        }
    }
}

/// Normalized form of a pattern as a character vector.
fn normalize_chars(p: &Vec<char>, home: &Option<String>) -> (r: Vec<char>)
    ensures
        r@ == normalize_pattern_spec(p@, opt_str_view(*home)),
{
    let trimmed = strutil::trim(p);
    expand_tilde(&trimmed, home)
}

fn has_glob(p: &Vec<char>) -> (r: bool)
    ensures
        r == has_glob_spec(p@),
{
    strutil::has_char(p, '*') || strutil::has_char(p, '?')
}

/// One pattern matched against one path.
fn matches_rule_chars(path: &Vec<char>, pattern: &Vec<char>, home: &Option<String>) -> (r: bool)
    ensures
        r == matches_rule_spec(path@, pattern@, opt_str_view(*home)),
{
    let e = normalize_chars(pattern, home);
    if has_glob(&e) {
        glob::glob_match(&e, path)
    } else if e.len() > 0 && e[0] == '/' {
        strutil::starts_with(path, &e)
    } else {
        strutil::contains(path, &e)
    }
}

// ---------------------------------------------------------------------------
// The built-in rules
// ---------------------------------------------------------------------------

/// The fixed table of always-protected system paths, in evaluation
/// order.
pub open spec fn default_rule_models() -> Seq<RuleModel> {
    seq![
        RuleModel { pattern: "/boot/*"@, description: "Защита загрузчика"@ },
        RuleModel { pattern: "/boot/efi/*"@, description: "Защита загрузчика"@ },
        RuleModel { pattern: "/lib/modules/*"@, description: "Защита ядра"@ },
        RuleModel { pattern: "/usr/bin/*"@, description: "Защита системных бинарников"@ },
        RuleModel { pattern: "/usr/sbin/*"@, description: "Защита системных бинарников"@ },
        RuleModel { pattern: "/usr/lib/*"@, description: "Защита системных библиотек"@ },
        RuleModel { pattern: "/usr/lib64/*"@, description: "Защита системных библиотек"@ },
        RuleModel { pattern: "/bin/*"@, description: "Защита системных бинарников"@ },
        RuleModel { pattern: "/sbin/*"@, description: "Защита системных бинарников"@ },
        RuleModel { pattern: "/lib/*"@, description: "Защита системных библиотек"@ },
        RuleModel { pattern: "/lib64/*"@, description: "Защита системных библиотек"@ },
        RuleModel { pattern: "/etc/*"@, description: "Защита системной конфигурации"@ },
        RuleModel { pattern: "/root/*"@, description: "Защита системных данных"@ },
        RuleModel { pattern: "/var/lib/*"@, description: "Защита системного состояния"@ },
    ]
}

fn push_default(rules: &mut Vec<SafetyRule>, pattern: &str, description: &str, rule_type: SafetyRuleType)
    ensures
        final(rules)@.len() == old(rules)@.len() + 1,
        rule_models(final(rules)@) == rule_models(old(rules)@).push(
            RuleModel { pattern: pattern@, description: description@ },
        ),
{
    rules.push(SafetyRule {
        pattern: pattern.to_owned(),
        description: description.to_owned(),
        rule_type,
    });
    proof {
        assert(rule_models(final(rules)@) =~= rule_models(old(rules)@).push(
            RuleModel { pattern: pattern@, description: description@ },
        ));
    }
}

/// The built-in rule table in executable form.
fn default_rules() -> (r: Vec<SafetyRule>)
    ensures
        rule_models(r@) == default_rule_models(),
{
    let mut r: Vec<SafetyRule> = Vec::new();
    push_default(&mut r, "/boot/*", "Защита загрузчика", SafetyRuleType::ProtectBootloader);
    push_default(&mut r, "/boot/efi/*", "Защита загрузчика", SafetyRuleType::ProtectBootloader);
    push_default(&mut r, "/lib/modules/*", "Защита ядра", SafetyRuleType::ProtectKernel);
    push_default(&mut r, "/usr/bin/*", "Защита системных бинарников", SafetyRuleType::ProtectSystemPackages);
    push_default(&mut r, "/usr/sbin/*", "Защита системных бинарников", SafetyRuleType::ProtectSystemPackages);
    push_default(&mut r, "/usr/lib/*", "Защита системных библиотек", SafetyRuleType::ProtectSystemPackages);
    push_default(&mut r, "/usr/lib64/*", "Защита системных библиотек", SafetyRuleType::ProtectSystemPackages);
    push_default(&mut r, "/bin/*", "Защита системных бинарников", SafetyRuleType::ProtectSystemPackages);
    push_default(&mut r, "/sbin/*", "Защита системных бинарников", SafetyRuleType::ProtectSystemPackages);
    push_default(&mut r, "/lib/*", "Защита системных библиотек", SafetyRuleType::ProtectSystemPackages);
    push_default(&mut r, "/lib64/*", "Защита системных библиотек", SafetyRuleType::ProtectSystemPackages);
    push_default(&mut r, "/etc/*", "Защита системной конфигурации", SafetyRuleType::ProtectSystemPackages);
    push_default(&mut r, "/root/*", "Защита системных данных", SafetyRuleType::ProtectSystemPackages);
    push_default(&mut r, "/var/lib/*", "Защита системного состояния", SafetyRuleType::ProtectSystemPackages);
    proof {
        assert(rule_models(r@) =~= default_rule_models());
    }
    r
}

// ---------------------------------------------------------------------------
// First-match evaluation
// ---------------------------------------------------------------------------

/// The description of the first rule whose pattern matches the path,
/// walking the list front to back.
pub open spec fn first_match(rules: Seq<RuleModel>, path: Seq<char>, home: Option<Seq<char>>) -> Option<Seq<char>>
    decreases rules.len(),
{
    if rules.len() == 0 {
        None
    } else if matches_rule_spec(path, rules[0].pattern, home) {
        Some(rules[0].description)
    } else {
        first_match(rules.skip(1), path, home)
    }
}

/// First-match over a concatenation looks at the left list first.
pub proof fn lemma_first_match_concat(a: Seq<RuleModel>, b: Seq<RuleModel>, path: Seq<char>, home: Option<Seq<char>>)
    ensures
        first_match(a + b, path, home) == if first_match(a, path, home) is Some {
            first_match(a, path, home)
        } else {
            first_match(b, path, home)
        },
    decreases a.len(),
{
    if a.len() == 0 {
        assert(a + b =~= b);
    } else {
        assert((a + b)[0] == a[0]);
        assert((a + b).skip(1) =~= a.skip(1) + b);
        lemma_first_match_concat(a.skip(1), b, path, home);
    }
}

/// A match exists somewhere in the list exactly when the first-match
/// walk finds one.
pub proof fn lemma_first_match_some(rules: Seq<RuleModel>, path: Seq<char>, home: Option<Seq<char>>)
    ensures
        first_match(rules, path, home) is Some <==> exists|i: int|
            0 <= i < rules.len() && matches_rule_spec(path, #[trigger] rules[i].pattern, home),
    decreases rules.len(),
{
    if rules.len() > 0 {
        lemma_first_match_some(rules.skip(1), path, home);
        if matches_rule_spec(path, rules[0].pattern, home) {
        } else {
            assert forall|i: int|
                0 <= i < rules.len() && matches_rule_spec(
                    path,
                    #[trigger] rules[i].pattern,
                    home,
                ) implies first_match(rules, path, home) is Some by {
                if i > 0 {
                    assert(rules.skip(1)[i - 1].pattern == rules[i].pattern);
                }
            }
            if first_match(rules, path, home) is Some {
                let j = choose|j: int|
                    0 <= j < rules.skip(1).len() && matches_rule_spec(
                        path,
                        #[trigger] rules.skip(1)[j].pattern,
                        home,
                    );
                assert(rules[j + 1].pattern == rules.skip(1)[j].pattern);
            }
        }
    }
}

/// The complete ordered rule list of a rule set: built-ins, whitelist,
/// blacklist.
pub open spec fn all_rules(m: RulesModel) -> Seq<RuleModel> {
    default_rule_models() + m.whitelist + m.blacklist
}

/// Whether the rule set blocks this path.
pub open spec fn spec_path_blocked(m: RulesModel, path: Seq<char>) -> bool {
    first_match(all_rules(m), path, m.home) is Some
}

/// Whether `check_item` allows the item: an item without a path is
/// always allowed; otherwise no rule may match.
pub open spec fn spec_check_item(m: RulesModel, item: CleanupItem) -> bool {
    match item.path {
        Some(p) => !spec_path_blocked(m, p@),
        None => true,
    }
}

/// Walks one rule list and returns the first matching description.
fn find_first_match(rules: &Vec<SafetyRule>, path: &Vec<char>, home: &Option<String>) -> (r: Option<String>)
    ensures
        match r {
            Some(d) => Some(d@) == first_match(rule_models(rules@), path@, opt_str_view(*home)),
            None => first_match(rule_models(rules@), path@, opt_str_view(*home)) is None,
        },
{
    let ghost all = rule_models(rules@);
    let mut k: usize = 0;
    proof {
        assert(all.skip(0) =~= all);
    }
    while k < rules.len()
        invariant
            k <= rules.len(),
            all == rule_models(rules@),
            first_match(all, path@, opt_str_view(*home)) == first_match(
                all.skip(k as int),
                path@,
                opt_str_view(*home),
            ),
        decreases rules.len() - k,
    {
        proof {
            assert(all.skip(k as int)[0] == all[k as int]);
            assert(all.skip(k as int).skip(1) =~= all.skip(k + 1));
        }
        let pat = strutil::to_chars(rules[k].pattern.as_str());
        if matches_rule_chars(path, &pat, home) {
            let d = clone_string(&rules[k].description);
            return Some(d);
        }
        k = k + 1;
    }
    proof {
        assert(all.skip(rules@.len() as int) =~= Seq::<RuleModel>::empty());
    }
    None
}

fn clone_string(s: &String) -> (r: String)
    ensures
        r@ == s@,
{
    s.clone()
}

// ---------------------------------------------------------------------------
// The rule set
// ---------------------------------------------------------------------------

/// Model of a whitelist entry built from a configured path.
pub open spec fn wl_rule_of(p: Seq<char>, home: Option<Seq<char>>) -> RuleModel {
    let n = normalize_pattern_spec(p, home);
    RuleModel { pattern: n, description: "Whitelist: "@ + n }
}

/// Model of a blacklist entry built from a configured pattern.
pub open spec fn bl_rule_of(p: Seq<char>, home: Option<Seq<char>>) -> RuleModel {
    let n = normalize_pattern_spec(p, home);
    RuleModel { pattern: n, description: "Blacklist: "@ + n }
}

/// The rule set a configuration snapshot denotes.
pub open spec fn spec_from_config(c: Config, home: Option<Seq<char>>) -> RulesModel {
    RulesModel {
        enabled: c.safety.enabled,
        only_root_can_disable: c.safety.only_root_can_disable,
        whitelist: Seq::new(
            c.rules.whitelist.paths@.len(),
            |i: int| wl_rule_of(c.rules.whitelist.paths@[i]@, home),
        ),
        blacklist: Seq::new(
            c.rules.blacklist.patterns@.len(),
            |i: int| bl_rule_of(c.rules.blacklist.patterns@[i]@, home),
        ),
        home,
    }
}

impl SafetyRules {
    /// An empty rule set: safety on, nothing whitelisted or blacklisted,
    /// no home directory known.
    pub fn new() -> (r: Self)
        ensures
            r@.enabled == true,
            r@.only_root_can_disable == true,
            r@.whitelist.len() == 0,
            r@.blacklist.len() == 0,
            r@.home is None,
    {
        SafetyRules {
            enabled: true,
            only_root_can_disable: true,
            whitelist: Vec::new(),
            blacklist: Vec::new(),
            home: None,
        }
    }

    /// Builds the rule set from a configuration snapshot. The home
    /// directory for `~` expansion is handed in by the caller.
    pub fn from_config(config: &Config, home: Option<String>) -> (r: Self)
        ensures
            r@ == spec_from_config(*config, opt_str_view(home)),
    {
        let ghost hv = opt_str_view(home);
        let mut whitelist: Vec<SafetyRule> = Vec::new();
        let mut i: usize = 0;
        while i < config.rules.whitelist.paths.len()
            invariant
                i <= config.rules.whitelist.paths.len(),
                whitelist@.len() == i,
                rule_models(whitelist@) =~= Seq::new(
                    i as nat,
                    |j: int| wl_rule_of(config.rules.whitelist.paths@[j]@, hv),
                ),
                hv == opt_str_view(home),
            decreases config.rules.whitelist.paths.len() - i,
        {
            let p = strutil::to_chars(config.rules.whitelist.paths[i].as_str());
            let n = normalize_chars(&p, &home);
            let normalized = strutil::from_chars(&n);
            let mut description = "Whitelist: ".to_owned();
            description.append(normalized.as_str());
            whitelist.push(SafetyRule {
                pattern: normalized,
                description,
                rule_type: SafetyRuleType::ProtectUserHome,
            });
            proof {
                let prev = Seq::new(
                    i as nat,
                    |j: int| wl_rule_of(config.rules.whitelist.paths@[j]@, hv),
                );
                let m = rule_model(whitelist@[i as int]);
                assert(whitelist@.len() == i + 1);
                assert(p@ == config.rules.whitelist.paths@[i as int]@);
                assert(n@ == normalize_pattern_spec(p@, hv));
                assert(m.pattern == n@);
                assert(m.description == "Whitelist: "@ + n@);
                assert(m.pattern == wl_rule_of(config.rules.whitelist.paths@[i as int]@, hv).pattern);
                assert(m.description == wl_rule_of(
                    config.rules.whitelist.paths@[i as int]@,
                    hv,
                ).description);
                assert(rule_models(whitelist@) =~= prev.push(m));
                assert(rule_models(whitelist@) =~= Seq::new(
                    (i + 1) as nat,
                    |j: int| wl_rule_of(config.rules.whitelist.paths@[j]@, hv),
                ));
            }
            i = i + 1;
        }
        let mut blacklist: Vec<SafetyRule> = Vec::new();
        let mut i: usize = 0;
        while i < config.rules.blacklist.patterns.len()
            invariant
                i <= config.rules.blacklist.patterns.len(),
                blacklist@.len() == i,
                rule_models(blacklist@) =~= Seq::new(
                    i as nat,
                    |j: int| bl_rule_of(config.rules.blacklist.patterns@[j]@, hv),
                ),
                hv == opt_str_view(home),
            decreases config.rules.blacklist.patterns.len() - i,
        {
            let p = strutil::to_chars(config.rules.blacklist.patterns[i].as_str());
            let n = normalize_chars(&p, &home);
            let normalized = strutil::from_chars(&n);
            let mut description = "Blacklist: ".to_owned();
            description.append(normalized.as_str());
            blacklist.push(SafetyRule {
                pattern: normalized,
                description,
                rule_type: SafetyRuleType::ProtectSystemPackages,
            });
            proof {
                let prev = Seq::new(
                    i as nat,
                    |j: int| bl_rule_of(config.rules.blacklist.patterns@[j]@, hv),
                );
                let m = rule_model(blacklist@[i as int]);
                assert(m.pattern == bl_rule_of(config.rules.blacklist.patterns@[i as int]@, hv).pattern);
                assert(m.description == bl_rule_of(
                    config.rules.blacklist.patterns@[i as int]@,
                    hv,
                ).description);
                assert(rule_models(blacklist@) =~= prev.push(m));
                assert(rule_models(blacklist@) =~= Seq::new(
                    (i + 1) as nat,
                    |j: int| bl_rule_of(config.rules.blacklist.patterns@[j]@, hv),
                ));
            }
            i = i + 1;
        }
        let r = SafetyRules {
            enabled: config.safety.enabled,
            only_root_can_disable: config.safety.only_root_can_disable,
            whitelist,
            blacklist,
            home,
        };
        proof {
            assert(r@.whitelist =~= spec_from_config(*config, hv).whitelist);
            assert(r@.blacklist =~= spec_from_config(*config, hv).blacklist);
        }
        r
    }

    /// The description of the first rule that blocks the item's path,
    /// or `None` when the item is allowed.
    pub fn check_item_reason(&self, item: &CleanupItem) -> (r: Option<String>)
        ensures
            match r {
                Some(d) => item.path is Some && Some(d@) == first_match(
                    all_rules(self@),
                    item.path->0@,
                    self@.home,
                ),
                None => spec_check_item(self@, *item),
            },
    {
        match &item.path {
            None => None,
            Some(path) => {
                let path_chars = strutil::to_chars(path.as_str());
                let defaults = default_rules();
                proof {
                    lemma_first_match_concat(
                        default_rule_models() + self@.whitelist,
                        self@.blacklist,
                        path_chars@,
                        self@.home,
                    );
                    lemma_first_match_concat(
                        default_rule_models(),
                        self@.whitelist,
                        path_chars@,
                        self@.home,
                    );
                    assert(default_rule_models() + self@.whitelist + self@.blacklist
                        =~= all_rules(self@));
                }
                if let Some(d) = find_first_match(&defaults, &path_chars, &self.home) {
                    return Some(d);
                }
                if let Some(d) = find_first_match(&self.whitelist, &path_chars, &self.home) {
                    return Some(d);
                }
                if let Some(d) = find_first_match(&self.blacklist, &path_chars, &self.home) {
                    return Some(d);
                }
                None
            }
        }
    }

    /// Whether the item is allowed: true when no rule blocks its path.
    pub fn check_item(&self, item: &CleanupItem) -> (r: bool)
        ensures
            r == spec_check_item(self@, *item),
    {
        match self.check_item_reason(item) {
            Some(_) => false,
            None => true,
        }
    }
}

// ---------------------------------------------------------------------------
// Built-in rules outrank user rules
// ---------------------------------------------------------------------------

/// Built-in rules outrank user rules: every path under `/usr/bin/` is
/// blocked by every rule set, whatever its whitelist and blacklist hold.
pub proof fn lemma_usr_bin_always_blocked(m: RulesModel, path: Seq<char>)
    requires
        strutil::prefix_of("/usr/bin/"@, path),
    ensures
        spec_path_blocked(m, path),
{
    reveal_strlit("/usr/bin/*");
    reveal_strlit("/usr/bin/");
    let pat = "/usr/bin/*"@;
    let pre = "/usr/bin/"@;
    // The pattern is untouched by normalization.
    assert(strutil::trim_start_spec(pat) == pat) by {
        assert(!strutil::is_space_char(pat[0]));
    }
    assert(strutil::trim_end_spec(pat) == pat) by {
        assert(!strutil::is_space_char(pat.last()));
    }
    assert(normalize_pattern_spec(pat, m.home) == pat) by {
        assert(!(pat =~= seq!['~']));
        assert(pat[0] != '~');
    }
    // It carries a wildcard, so it glob-matches.
    assert(has_glob_spec(pat)) by {
        assert(pat[9] == '*');
    }
    assert(pat =~= pre.push('*'));
    glob::lemma_glob_prefix_star(pre, path);
    assert(matches_rule_spec(path, pat, m.home));
    // It stands in the built-in table, ahead of every user rule.
    let all = all_rules(m);
    assert(all[3].pattern == pat) by {
        assert((default_rule_models() + m.whitelist)[3] == default_rule_models()[3]);
        assert(((default_rule_models() + m.whitelist) + m.blacklist)[3] == (default_rule_models()
            + m.whitelist)[3]);
    }
    lemma_first_match_some(all, path, m.home);
}

/// The item form of the same law: an item whose path lies under
/// `/usr/bin/` never passes `check_item`.
pub proof fn lemma_check_item_blocks_usr_bin(m: RulesModel, item: CleanupItem)
    requires
        item.path is Some,
        strutil::prefix_of("/usr/bin/"@, item.path->0@),
    ensures
        !spec_check_item(m, item),
{
    lemma_usr_bin_always_blocked(m, item.path->0@);
}

// ---------------------------------------------------------------------------
// Permissions
// ---------------------------------------------------------------------------

/// Whether this user may touch this path: root may touch anything, any
/// user may touch the temp trees and their own home.
pub open spec fn spec_can_clean_path(p: Seq<char>, is_root: bool, home: Option<Seq<char>>) -> bool {
    is_root || strutil::prefix_of("/tmp"@, p) || strutil::prefix_of("/var/tmp"@, p) || (home
        is Some && strutil::prefix_of(home->0, p))
}

/// Permission check for one path; the caller supplies whether it runs
/// as root and the home directory, both facts of the environment.
pub fn can_clean_path(path: &str, is_root: bool, home: &Option<String>) -> (r: bool)
    ensures
        r == spec_can_clean_path(path@, is_root, opt_str_view(*home)),
{
    if is_root {
        return true;
    }
    let p = strutil::to_chars(path);
    let tmp = strutil::to_chars("/tmp");
    let var_tmp = strutil::to_chars("/var/tmp");
    if strutil::starts_with(&p, &tmp) || strutil::starts_with(&p, &var_tmp) {
        return true;
    }
    match home {
        Some(h) => {
            let hc = strutil::to_chars(h.as_str());
            strutil::starts_with(&p, &hc)
        }
        None => false,
    }
}

/// The permission summary the environment gives: whether the caller is
/// root.
pub fn check_permissions(is_root: bool) -> (r: Result<bool, RcleanerError>)
    ensures
        r == Ok::<bool, RcleanerError>(is_root),
{
    Ok(is_root)
}

/// Demands root, as operations on system packages do.
pub fn require_root(is_root: bool) -> (r: Result<(), RcleanerError>)
    ensures
        is_root <==> r is Ok,
        !is_root ==> (r matches Err(e) && e matches RcleanerError::Permission(m) && m@
            == "Root permissions required"@),
{
    if is_root {
        Ok(())
    } else {
        Err(RcleanerError::Permission("Root permissions required".to_owned()))
    }
}

// ---------------------------------------------------------------------------
// The composed per-item verdict
// ---------------------------------------------------------------------------

/// The package managers whose state only root may change.
pub open spec fn requires_root_spec(m: Seq<char>) -> bool {
    m == "apt"@ || m == "dnf"@ || m == "rpm"@ || m == "pacman"@ || m == "snap"@ || m
        == "rpm-ostree"@
}

/// Whether this package manager needs root for removals.
pub fn requires_root(manager: &str) -> (r: bool)
    ensures
        r == requires_root_spec(manager@),
{
    strutil::str_eq(manager, "apt") || strutil::str_eq(manager, "dnf") || strutil::str_eq(
        manager,
        "rpm",
    ) || strutil::str_eq(manager, "pacman") || strutil::str_eq(manager, "snap")
        || strutil::str_eq(manager, "rpm-ostree")
}

/// Marks the item blocked; the first recorded reason wins.
pub fn mark_blocked(item: &mut CleanupItem, reason: &str)
    ensures
        final(item).can_clean == false,
        opt_str_view(final(item).blocked_reason) == (if old(item).blocked_reason is Some {
            opt_str_view(old(item).blocked_reason)
        } else {
            Some(reason@)
        }),
        final(item).id == old(item).id,
        final(item).name == old(item).name,
        final(item).path == old(item).path,
        final(item).size == old(item).size,
        final(item).description == old(item).description,
        final(item).category == old(item).category,
        final(item).source == old(item).source,
        final(item).selected == old(item).selected,
        final(item).dependencies == old(item).dependencies,
{
    item.can_clean = false;
    if item.blocked_reason.is_none() {
        item.blocked_reason = Some(reason.to_owned());
    }
}

/// Composes rule set, permission and dependency checks into one verdict
/// per item.
pub struct SafetyChecker {
    pub config: Config,
    pub rules: SafetyRules,
    pub is_root: bool,
}

/// The explicit escape hatch: safety off, and either anyone may turn it
/// off or the caller is root.
pub open spec fn spec_safety_disabled(c: SafetyChecker) -> bool {
    !c.config.safety.enabled && (!c.config.safety.only_root_can_disable || c.is_root)
}

/// Only root may manage the systemd journal.
pub open spec fn spec_journal_block(c: SafetyChecker, item: CleanupItem) -> bool {
    item.id@ == "systemd-journal"@ && !c.is_root
}

/// Only root may remove packages of the system package managers.
pub open spec fn spec_pm_root_block(c: SafetyChecker, item: CleanupItem) -> bool {
    match item.source {
        CleanupSource::PackageManager(m) => requires_root_spec(m@) && !c.is_root,
        _ => false,
    }
}

/// The path is one the caller may not touch.
pub open spec fn spec_perm_block(c: SafetyChecker, item: CleanupItem) -> bool {
    match item.path {
        Some(p) => !spec_can_clean_path(p@, c.is_root, c.rules@.home),
        None => false,
    }
}

/// The first rule description that blocks the item's path, if any.
pub open spec fn spec_rule_reason(c: SafetyChecker, item: CleanupItem) -> Option<Seq<char>> {
    match item.path {
        Some(p) => first_match(all_rules(c.rules@), p@, c.rules@.home),
        None => None,
    }
}

/// A package with dependents must not be removed.
pub open spec fn spec_deps_block(item: CleanupItem, deps: Seq<String>) -> bool {
    item.source is PackageManager && deps.len() > 0
}

/// The combined decision: with the safety system off every item is
/// allowed unconditionally; otherwise an item is safe exactly when no
/// stage rejects it.
pub open spec fn spec_is_safe(c: SafetyChecker, item: CleanupItem, deps: Seq<String>) -> bool {
    spec_safety_disabled(c) || (!spec_journal_block(c, item) && !spec_pm_root_block(c, item)
        && !spec_perm_block(c, item) && spec_rule_reason(c, item) is None && !spec_deps_block(
        item,
        deps,
    ))
}

/// The reason `apply_to_item` records on a fresh item, `None` when it
/// leaves the item alone; with the safety system off nothing is
/// recorded.
pub open spec fn spec_applied_reason(c: SafetyChecker, item: CleanupItem, deps: Seq<String>) -> Option<
    Seq<char>,
> {
    if spec_safety_disabled(c) {
        None
    } else if spec_journal_block(c, item) {
        Some("Root required to manage systemd journal"@)
    } else if spec_pm_root_block(c, item) {
        Some("Root required to manage packages"@)
    } else if spec_perm_block(c, item) {
        Some("Insufficient permissions to clean path"@)
    } else if spec_rule_reason(c, item) is Some {
        spec_rule_reason(c, item)
    } else if spec_deps_block(item, deps) {
        Some("Package has dependents"@)
    } else {
        None
    }
}

/// Whether `apply_to_item` copies the dependents list into the item.
pub open spec fn spec_sets_deps(c: SafetyChecker, item: CleanupItem, deps: Seq<String>) -> bool {
    !spec_journal_block(c, item) && !spec_pm_root_block(c, item) && !spec_safety_disabled(c) && (
    item.source is PackageManager) && deps.len() > 0
}

/// Applying the checks keeps an item well formed: whenever a blocking
/// reason stands recorded afterwards, the verdict is negative.
pub proof fn lemma_apply_preserves_wf(
    c: SafetyChecker,
    before: CleanupItem,
    after: CleanupItem,
    deps: Seq<String>,
)
    requires
        crate::models::item_wf(before),
        after.can_clean == (before.can_clean && spec_is_safe(c, before, deps)),
        opt_str_view(after.blocked_reason) == (if before.blocked_reason is Some {
            opt_str_view(before.blocked_reason)
        } else {
            spec_applied_reason(c, before, deps)
        }),
    ensures
        crate::models::item_wf(after),
{
    if after.blocked_reason is Some {
        if before.blocked_reason is Some {
            assert(!before.can_clean);
        } else {
            assert(spec_applied_reason(c, before, deps) is Some);
            assert(!spec_is_safe(c, before, deps));
        }
    }
}

impl SafetyChecker {
    /// Builds the checker from a configuration snapshot; whether the
    /// caller is root and its home directory are facts of the
    /// environment, handed in as plain values.
    pub fn new(config: Config, is_root: bool, home: Option<String>) -> (r: Self)
        ensures
            r.config == config,
            r.is_root == is_root,
            r.rules@ == spec_from_config(config, opt_str_view(home)),
    {
        let rules = SafetyRules::from_config(&config, home);
        SafetyChecker { config, rules, is_root }
    }

    /// Whether the item may be cleaned, given the dependents the
    /// package backend reported for it (empty for non-package items).
    pub fn is_safe_to_clean(&self, item: &CleanupItem, deps: &Vec<String>) -> (r: bool)
        ensures
            r == spec_is_safe(*self, *item, deps@),
    {
        let safety_disabled = !self.config.safety.enabled && (!self.config.safety.only_root_can_disable
            || self.is_root);
        if safety_disabled {
            return true;
        }

        if strutil::str_eq(item.id.as_str(), "systemd-journal") && !self.is_root {
            return false;
        }

        if let CleanupSource::PackageManager(manager) = &item.source {
            if requires_root(manager.as_str()) && !self.is_root {
                return false;
            }
        }

        if let Some(path) = &item.path {
            if !can_clean_path(path.as_str(), self.is_root, &self.rules.home) {
                return false;
            }
        }

        if !self.rules.check_item(item) {
            return false;
        }
        if let CleanupSource::PackageManager(_) = &item.source {
            if deps.len() > 0 {
                return false;
            }
        }

        true
    }

    /// Applies the checks to the item in place: with the safety system
    /// off the item is left untouched; otherwise the first stage to
    /// reject sets `can_clean` to false and records the first reason,
    /// and the dependents list is stored for display when it blocks
    /// the item.
    pub fn apply_to_item(&self, item: &mut CleanupItem, deps: &Vec<String>)
        ensures
            final(item).can_clean == (old(item).can_clean && spec_is_safe(
                *self,
                *old(item),
                deps@,
            )),
            opt_str_view(final(item).blocked_reason) == (if old(item).blocked_reason is Some {
                opt_str_view(old(item).blocked_reason)
            } else {
                spec_applied_reason(*self, *old(item), deps@)
            }),
            final(item).dependencies@ == (if spec_sets_deps(*self, *old(item), deps@) {
                deps@
            } else {
                old(item).dependencies@
            }),
            final(item).id == old(item).id,
            final(item).name == old(item).name,
            final(item).path == old(item).path,
            final(item).size == old(item).size,
            final(item).description == old(item).description,
            final(item).category == old(item).category,
            final(item).source == old(item).source,
            final(item).selected == old(item).selected,
    {
        let safety_disabled = !self.config.safety.enabled && (!self.config.safety.only_root_can_disable
            || self.is_root);
        if safety_disabled {
            return;
        }

        if strutil::str_eq(item.id.as_str(), "systemd-journal") && !self.is_root {
            mark_blocked(item, "Root required to manage systemd journal");
            return;
        }

        let mut pm_block = false;
        if let CleanupSource::PackageManager(manager) = &item.source {
            if requires_root(manager.as_str()) && !self.is_root {
                pm_block = true;
            }
        }
        if pm_block {
            mark_blocked(item, "Root required to manage packages");
            return;
        }

        let mut perm_block = false;
        if let Some(path) = &item.path {
            if !can_clean_path(path.as_str(), self.is_root, &self.rules.home) {
                perm_block = true;
            }
        }
        if perm_block {
            mark_blocked(item, "Insufficient permissions to clean path");
        }

        if let Some(reason) = self.rules.check_item_reason(item) {
            mark_blocked(item, reason.as_str());
        }

        let mut dep_block = false;
        if let CleanupSource::PackageManager(_) = &item.source {
            if deps.len() > 0 {
                dep_block = true;
            }
        }
        if dep_block {
            item.dependencies = strutil::copy_strings(deps);
            mark_blocked(item, "Package has dependents");
        }
    }
}

} // verus!
