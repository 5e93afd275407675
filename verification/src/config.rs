//! Configuration snapshot handed into the pipeline: safety switches,
//! cleanup profiles and the user rule lists.

use vstd::prelude::*;
use crate::strutil;

verus! {

/// Safety switches.
#[derive(Clone, Debug)]
pub struct SafetyConfig {
    /// Whether the safety system is on.
    pub enabled: bool,
    /// Whether only root may turn the safety system off.
    pub only_root_can_disable: bool,
    /// Profile selector: "safe" or "aggressive".
    pub level: String,
}

/// One cleanup profile.
#[derive(Clone, Debug)]
pub struct ProfileConfig {
    /// Confirm cleanups automatically.
    pub auto_confirm: bool,
    /// How many recent kernels to keep.
    pub keep_recent_kernels: usize,
    /// How many recent deployments to keep.
    pub keep_recent_deployments: usize,
    /// Backup budget in whole gigabytes; zero means unlimited.
    pub max_backup_size_gb: usize,
}

/// The two built-in profiles.
#[derive(Clone, Debug)]
pub struct ProfilesConfig {
    pub safe: ProfileConfig,
    pub aggressive: ProfileConfig,
}

/// Protected paths supplied by the user.
#[derive(Clone, Debug)]
pub struct WhitelistConfig {
    pub paths: Vec<String>,
}

/// Blocking patterns supplied by the user.
#[derive(Clone, Debug)]
pub struct BlacklistConfig {
    pub patterns: Vec<String>,
}

/// Both user rule lists.
#[derive(Clone, Debug)]
pub struct RulesConfig {
    pub whitelist: WhitelistConfig,
    pub blacklist: BlacklistConfig,
}

/// The whole configuration snapshot.
#[derive(Clone, Debug)]
pub struct Config {
    pub safety: SafetyConfig,
    pub profiles: ProfilesConfig,
    pub rules: RulesConfig,
}

/// Whether the configured level, lower-cased, selects the aggressive
/// profile.
pub open spec fn spec_is_aggressive(level: Seq<char>) -> bool {
    strutil::lower_seq(level) == "aggressive"@
}

/// The profile the configured level selects.
pub open spec fn spec_current_profile(c: Config) -> ProfileConfig {
    if spec_is_aggressive(c.safety.level@) {
        c.profiles.aggressive
    } else {
        c.profiles.safe
    }
}

impl Default for Config {
    /// The built-in defaults: safety on, safe profile selected, a small
    /// whitelist of home directories and a blacklist of temp and log
    /// patterns.
    fn default() -> (r: Self)
        ensures
            r.safety.enabled == true,
            r.safety.only_root_can_disable == true,
            r.safety.level@ == "safe"@,
            r.profiles.safe.auto_confirm == false,
            r.profiles.safe.keep_recent_kernels == 2,
            r.profiles.safe.keep_recent_deployments == 2,
            r.profiles.safe.max_backup_size_gb == 10,
            r.profiles.aggressive.auto_confirm == true,
            r.profiles.aggressive.keep_recent_kernels == 1,
            r.profiles.aggressive.keep_recent_deployments == 1,
            r.profiles.aggressive.max_backup_size_gb == 5,
            r.rules.whitelist.paths@.len() == 3,
            r.rules.whitelist.paths@[0]@ == "~/.config"@,
            r.rules.whitelist.paths@[1]@ == "~/Documents"@,
            r.rules.whitelist.paths@[2]@ == "~/Projects"@,
            r.rules.blacklist.patterns@.len() == 2,
            r.rules.blacklist.patterns@[0]@ == "*.tmp"@,
            r.rules.blacklist.patterns@[1]@ == "*.log"@,
    {
        let mut wl: Vec<String> = Vec::new();
        wl.push("~/.config".to_owned());
        wl.push("~/Documents".to_owned());
        wl.push("~/Projects".to_owned());
        let mut bl: Vec<String> = Vec::new();
        bl.push("*.tmp".to_owned());
        bl.push("*.log".to_owned());
        Config {
            safety: SafetyConfig {
                enabled: true,
                only_root_can_disable: true,
                level: "safe".to_owned(),
            },
            profiles: ProfilesConfig {
                safe: ProfileConfig {
                    auto_confirm: false,
                    keep_recent_kernels: 2,
                    keep_recent_deployments: 2,
                    max_backup_size_gb: 10,
                },
                aggressive: ProfileConfig {
                    auto_confirm: true,
                    keep_recent_kernels: 1,
                    keep_recent_deployments: 1,
                    max_backup_size_gb: 5,
                },
            },
            rules: RulesConfig {
                whitelist: WhitelistConfig { paths: wl },
                blacklist: BlacklistConfig { patterns: bl },
            },
        }
    }
}

impl Config {
    /// The profile that `safety.level` selects: the aggressive one when
    /// the lower-cased level reads "aggressive", the safe one otherwise.
    pub fn current_profile(&self) -> (r: &ProfileConfig)
        ensures
            *r == spec_current_profile(*self),
    {
        let level = strutil::to_chars(self.safety.level.as_str());
        let lowered = strutil::to_ascii_lower(&level);
        let target = strutil::to_chars("aggressive");
        if strutil::chars_eq(&lowered, &target) {
            &self.profiles.aggressive
        } else {
            &self.profiles.safe
        }
    }
}

} // verus!
