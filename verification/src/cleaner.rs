//! The cleanup orchestration contract: per-backend cleaners with uniform
//! dry-run semantics, and the grouping the orchestrator applies to the
//! operator's selection.
//!
//! Every cleaner decides here, on plain values, what a clean pass does:
//! which items are acted on, which are skipped, and what a dry run must
//! report. The caller performs the removals and feeds failures back into
//! the aggregate result.

use vstd::prelude::*;
use crate::models::{CleanupCategory, CleanupItem, CleanupResult, CleanupSource, ResultModel,
    empty_result};
use crate::strutil;

verus! {

// ---------------------------------------------------------------------------
// Shared helpers
// ---------------------------------------------------------------------------

/// Whether the item's source is the named package manager.
pub open spec fn is_pm(item: CleanupItem, name: Seq<char>) -> bool {
    match item.source {
        CleanupSource::PackageManager(m) => m@ == name,
        _ => false,
    }
}

/// Whether the item's source is the named container runtime.
pub open spec fn is_container(item: CleanupItem, name: Seq<char>) -> bool {
    match item.source {
        CleanupSource::Container(m) => m@ == name,
        _ => false,
    }
}

/// The names of the cleanable items drawn from the named package manager.
pub open spec fn pm_group(items: Seq<CleanupItem>, name: Seq<char>) -> Seq<Seq<char>>
    decreases items.len(),
{
    if items.len() == 0 {
        Seq::empty()
    } else {
        let rest = pm_group(items.drop_last(), name);
        let it = items.last();
        if it.can_clean && is_pm(it, name) {
            rest.push(it.name@)
        } else {
            rest
        }
    }
}

/// The names of the cleanable items drawn from the named container
/// runtime.
pub open spec fn container_group(items: Seq<CleanupItem>, name: Seq<char>) -> Seq<Seq<char>>
    decreases items.len(),
{
    if items.len() == 0 {
        Seq::empty()
    } else {
        let rest = container_group(items.drop_last(), name);
        let it = items.last();
        if it.can_clean && is_container(it, name) {
            rest.push(it.name@)
        } else {
            rest
        }
    }
}

fn collect_pm_group(items: &Vec<CleanupItem>, name: &str) -> (r: Vec<String>)
    ensures
        strutil::strs_of(r@) == pm_group(items@, name@),
{
    let mut r: Vec<String> = Vec::new();
    let mut i: usize = 0;
    proof {
        assert(strutil::strs_of(r@) =~= pm_group(items@.take(0), name@));
    }
    while i < items.len()
        invariant
            i <= items.len(),
            strutil::strs_of(r@) == pm_group(items@.take(i as int), name@),
        decreases items.len() - i,
    {
        proof {
            assert(items@.take(i + 1).drop_last() =~= items@.take(i as int));
            assert(items@.take(i + 1).last() == items@[i as int]);
        }
        let mut matched = false;
        if items[i].can_clean {
            if let CleanupSource::PackageManager(m) = &items[i].source {
                if strutil::str_eq(m.as_str(), name) {
                    matched = true;
                }
            }
        }
        if matched {
            let ghost pre = strutil::strs_of(r@);
            r.push(items[i].name.clone());
            proof {
                assert(strutil::strs_of(r@) =~= pre.push(items@[i as int].name@));
                assert(strutil::strs_of(r@) =~= pm_group(items@.take(i + 1), name@));
            }
        } else {
            proof {
                assert(strutil::strs_of(r@) =~= pm_group(items@.take(i + 1), name@));
            }
        }
        i = i + 1;
    }
    proof {
        assert(items@.take(items@.len() as int) =~= items@);
    }
    r
}

fn collect_container_group(items: &Vec<CleanupItem>, name: &str) -> (r: Vec<String>)
    ensures
        strutil::strs_of(r@) == container_group(items@, name@),
{
    let mut r: Vec<String> = Vec::new();
    let mut i: usize = 0;
    proof {
        assert(strutil::strs_of(r@) =~= container_group(items@.take(0), name@));
    }
    while i < items.len()
        invariant
            i <= items.len(),
            strutil::strs_of(r@) == container_group(items@.take(i as int), name@),
        decreases items.len() - i,
    {
        proof {
            assert(items@.take(i + 1).drop_last() =~= items@.take(i as int));
            assert(items@.take(i + 1).last() == items@[i as int]);
        }
        let mut matched = false;
        if items[i].can_clean {
            if let CleanupSource::Container(m) = &items[i].source {
                if strutil::str_eq(m.as_str(), name) {
                    matched = true;
                }
            }
        }
        if matched {
            let ghost pre = strutil::strs_of(r@);
            r.push(items[i].name.clone());
            proof {
                assert(strutil::strs_of(r@) =~= pre.push(items@[i as int].name@));
                assert(strutil::strs_of(r@) =~= container_group(items@.take(i + 1), name@));
            }
        } else {
            proof {
                assert(strutil::strs_of(r@) =~= container_group(items@.take(i + 1), name@));
            }
        }
        i = i + 1;
    }
    proof {
        assert(items@.take(items@.len() as int) =~= items@);
    }
    r
}

// ---------------------------------------------------------------------------
// Path-directed cleaners: cache and temp files
// ---------------------------------------------------------------------------

/// What a dry run over path-directed items reports: every cleanable item
/// with a path counts as cleaned with its size; everything else is
/// skipped; no errors.
pub open spec fn path_dry_result(items: Seq<CleanupItem>) -> ResultModel
    decreases items.len(),
{
    if items.len() == 0 {
        empty_result()
    } else {
        let r = path_dry_result(items.drop_last());
        let it = items.last();
        if !it.can_clean {
            ResultModel { skipped: r.skipped + 1, ..r }
        } else if it.path is Some {
            ResultModel { cleaned: r.cleaned + 1, freed: r.freed + it.size, ..r }
        } else {
            ResultModel { skipped: r.skipped + 1, ..r }
        }
    }
}

/// What a real run reports when removal `i` succeeds exactly when
/// `ok[i]` holds; a failed removal contributes the matching message
/// instead of a count.
pub open spec fn path_real_result(items: Seq<CleanupItem>, ok: Seq<bool>, msgs: Seq<String>) -> ResultModel
    decreases items.len(),
{
    if items.len() == 0 {
        empty_result()
    } else {
        let r = path_real_result(items.drop_last(), ok.drop_last(), msgs.drop_last());
        let it = items.last();
        if !it.can_clean {
            ResultModel { skipped: r.skipped + 1, ..r }
        } else if it.path is Some {
            if ok.len() > 0 && ok.last() {
                ResultModel { cleaned: r.cleaned + 1, freed: r.freed + it.size, ..r }
            } else {
                ResultModel { errors: r.errors.push(msgs.last()), ..r }
            }
        } else {
            ResultModel { skipped: r.skipped + 1, ..r }
        }
    }
}

/// Dry runs and fully successful real runs agree: the same items are
/// counted cleaned, the same bytes counted freed, the same items
/// skipped, and no errors arise.
pub proof fn lemma_dry_run_matches_real(items: Seq<CleanupItem>, ok: Seq<bool>, msgs: Seq<String>)
    requires
        ok.len() == items.len(),
        forall|i: int| 0 <= i < ok.len() ==> ok[i],
    ensures
        path_real_result(items, ok, msgs) == path_dry_result(items),
    decreases items.len(),
{
    if items.len() > 0 {
        assert(forall|i: int| 0 <= i < ok.drop_last().len() ==> ok.drop_last()[i] == ok[i]);
        lemma_dry_run_matches_real(items.drop_last(), ok.drop_last(), msgs.drop_last());
        assert(ok.last());
    }
}

/// One removal target of a path-directed cleaner.
pub struct CleanTarget {
    pub path: String,
    pub size: u64,
}

/// The targets of a path-directed clean: the path and size of every
/// cleanable item that has a path, in item order.
pub open spec fn path_targets(items: Seq<CleanupItem>) -> Seq<(Seq<char>, int)>
    decreases items.len(),
{
    if items.len() == 0 {
        Seq::empty()
    } else {
        let rest = path_targets(items.drop_last());
        let it = items.last();
        if it.can_clean && it.path is Some {
            rest.push((it.path->0@, it.size as int))
        } else {
            rest
        }
    }
}

pub open spec fn target_models(v: Seq<CleanTarget>) -> Seq<(Seq<char>, int)> {
    Seq::new(v.len(), |i: int| (v[i].path@, v[i].size as int))
}

fn collect_path_targets(items: &Vec<CleanupItem>) -> (r: Vec<CleanTarget>)
    ensures
        target_models(r@) == path_targets(items@),
{
    let mut r: Vec<CleanTarget> = Vec::new();
    let mut i: usize = 0;
    proof {
        assert(target_models(r@) =~= path_targets(items@.take(0)));
    }
    while i < items.len()
        invariant
            i <= items.len(),
            target_models(r@) == path_targets(items@.take(i as int)),
        decreases items.len() - i,
    {
        proof {
            assert(items@.take(i + 1).drop_last() =~= items@.take(i as int));
            assert(items@.take(i + 1).last() == items@[i as int]);
        }
        let mut pushed = false;
        if items[i].can_clean {
            if let Some(p) = &items[i].path {
                let ghost pre = target_models(r@);
                r.push(CleanTarget { path: p.clone(), size: items[i].size });
                pushed = true;
                proof {
                    assert(target_models(r@) =~= pre.push(
                        (items@[i as int].path->0@, items@[i as int].size as int),
                    ));
                    assert(target_models(r@) =~= path_targets(items@.take(i + 1)));
                }
            }
        }
        if !pushed {
            proof {
                assert(target_models(r@) =~= path_targets(items@.take(i + 1)));
            }
        }
        i = i + 1;
    }
    proof {
        assert(items@.take(items@.len() as int) =~= items@);
    }
    r
}

/// Counts the items a path-directed clean skips.
pub open spec fn path_skipped(items: Seq<CleanupItem>) -> int
    decreases items.len(),
{
    if items.len() == 0 {
        0
    } else {
        let rest = path_skipped(items.drop_last());
        let it = items.last();
        if it.can_clean && it.path is Some {
            rest
        } else {
            rest + 1
        }
    }
}

fn count_path_skipped(items: &Vec<CleanupItem>) -> (r: usize)
    ensures
        r == path_skipped(items@),
{
    let mut r: usize = 0;
    let mut i: usize = 0;
    proof {
        assert(path_skipped(items@.take(0)) == 0);
    }
    while i < items.len()
        invariant
            i <= items.len(),
            r == path_skipped(items@.take(i as int)),
            r <= i,
        decreases items.len() - i,
    {
        proof {
            assert(items@.take(i + 1).drop_last() =~= items@.take(i as int));
            assert(items@.take(i + 1).last() == items@[i as int]);
        }
        let mut keep = false;
        if items[i].can_clean {
            if items[i].path.is_some() {
                keep = true;
            }
        }
        if !keep {
            r = r + 1;
        }
        i = i + 1;
    }
    proof {
        assert(items@.take(items@.len() as int) =~= items@);
    }
    r
}

/// The dry-run walk shared by the path-directed cleaners.
fn run_path_dry(items: &Vec<CleanupItem>) -> (r: CleanupResult)
    requires
        path_dry_result(items@).freed <= u64::MAX,
    ensures
        r@ == path_dry_result(items@),
{
    let mut result = CleanupResult::default();
    let mut i: usize = 0;
    proof {
        assert(result@ =~= path_dry_result(items@.take(0)));
    }
    while i < items.len()
        invariant
            i <= items.len(),
            path_dry_result(items@).freed <= u64::MAX,
            result@ == path_dry_result(items@.take(i as int)),
            result.errors@.len() == 0,
            result.cleaned_items <= i,
            result.skipped_items <= i,
        decreases items.len() - i,
    {
        proof {
            assert(items@.take(i + 1).drop_last() =~= items@.take(i as int));
            assert(items@.take(i + 1).last() == items@[i as int]);
        }
        proof {
            lemma_path_dry_freed_mono(items@, i + 1);
        }
        if !items[i].can_clean {
            result.skipped_items = result.skipped_items + 1;
        } else if items[i].path.is_some() {
            result.cleaned_items = result.cleaned_items + 1;
            result.freed_bytes = result.freed_bytes + items[i].size;
        } else {
            result.skipped_items = result.skipped_items + 1;
        }
        proof {
            assert(result@ =~= path_dry_result(items@.take(i + 1)));
        }
        i = i + 1;
    }
    proof {
        assert(items@.take(items@.len() as int) =~= items@);
    }
    result
}

/// Freed bytes grow monotonically with the item prefix considered.
proof fn lemma_path_dry_freed_mono(items: Seq<CleanupItem>, k: int)
    requires
        0 <= k <= items.len(),
    ensures
        path_dry_result(items.take(k)).freed <= path_dry_result(items).freed,
    decreases items.len() - k,
{
    if k < items.len() {
        lemma_path_dry_freed_mono(items, k + 1);
        assert(items.take(k + 1).drop_last() =~= items.take(k));
        assert(items.take(k + 1).last() == items[k]);
    } else {
        assert(items.take(k) =~= items);
    }
}

// ---------------------------------------------------------------------------
// Logs
// ---------------------------------------------------------------------------

/// What a dry run of the logs cleaner reports: the systemd journal and
/// every path item count as cleaned with their sizes.
pub open spec fn logs_dry_result(items: Seq<CleanupItem>) -> ResultModel
    decreases items.len(),
{
    if items.len() == 0 {
        empty_result()
    } else {
        let r = logs_dry_result(items.drop_last());
        let it = items.last();
        if !it.can_clean {
            ResultModel { skipped: r.skipped + 1, ..r }
        } else if it.id@ == "systemd-journal"@ {
            ResultModel { cleaned: r.cleaned + 1, freed: r.freed + it.size, ..r }
        } else if it.path is Some {
            ResultModel { cleaned: r.cleaned + 1, freed: r.freed + it.size, ..r }
        } else {
            ResultModel { skipped: r.skipped + 1, ..r }
        }
    }
}

/// One action of the logs cleaner.
pub enum LogTarget {
    /// Vacuum the systemd journal; the recorded size of the journal item.
    Journal(u64),
    /// Remove rotated logs under this path; the recorded size.
    Path(String, u64),
}

/// Model of one log action: whether it is the journal, the path, the
/// size.
pub open spec fn log_target_model(t: LogTarget) -> (bool, Seq<char>, int) {
    match t {
        LogTarget::Journal(sz) => (true, Seq::empty(), sz as int),
        LogTarget::Path(p, sz) => (false, p@, sz as int),
    }
}

pub open spec fn log_target_models(v: Seq<LogTarget>) -> Seq<(bool, Seq<char>, int)> {
    Seq::new(v.len(), |i: int| log_target_model(v[i]))
}

/// The actions of a logs clean, in item order.
pub open spec fn log_targets(items: Seq<CleanupItem>) -> Seq<(bool, Seq<char>, int)>
    decreases items.len(),
{
    if items.len() == 0 {
        Seq::empty()
    } else {
        let rest = log_targets(items.drop_last());
        let it = items.last();
        if !it.can_clean {
            rest
        } else if it.id@ == "systemd-journal"@ {
            rest.push((true, Seq::empty(), it.size as int))
        } else if it.path is Some {
            rest.push((false, it.path->0@, it.size as int))
        } else {
            rest
        }
    }
}

/// How many items a logs clean skips.
pub open spec fn logs_skipped(items: Seq<CleanupItem>) -> int
    decreases items.len(),
{
    if items.len() == 0 {
        0
    } else {
        let rest = logs_skipped(items.drop_last());
        let it = items.last();
        if it.can_clean && (it.id@ == "systemd-journal"@ || it.path is Some) {
            rest
        } else {
            rest + 1
        }
    }
}

proof fn lemma_logs_dry_freed_mono(items: Seq<CleanupItem>, k: int)
    requires
        0 <= k <= items.len(),
    ensures
        logs_dry_result(items.take(k)).freed <= logs_dry_result(items).freed,
    decreases items.len() - k,
{
    if k < items.len() {
        lemma_logs_dry_freed_mono(items, k + 1);
        assert(items.take(k + 1).drop_last() =~= items.take(k));
        assert(items.take(k + 1).last() == items[k]);
    } else {
        assert(items.take(k) =~= items);
    }
}

// ---------------------------------------------------------------------------
// Grouped cleaners: applications, old packages, old kernels
// ---------------------------------------------------------------------------

/// How many items the applications cleaner skips: everything that is
/// blocked or comes from neither flatpak, snap, docker nor podman.
pub open spec fn apps_skipped(items: Seq<CleanupItem>) -> int
    decreases items.len(),
{
    if items.len() == 0 {
        0
    } else {
        let rest = apps_skipped(items.drop_last());
        let it = items.last();
        if it.can_clean && (is_pm(it, "flatpak"@) || is_pm(it, "snap"@) || is_container(
            it,
            "docker"@,
        ) || is_container(it, "podman"@)) {
            rest
        } else {
            rest + 1
        }
    }
}

/// What a dry run of the applications cleaner reports: one cleaned item
/// per grouped name; sizes are not counted as freed.
pub open spec fn apps_dry_result(items: Seq<CleanupItem>) -> ResultModel {
    ResultModel {
        cleaned: pm_group(items, "flatpak"@).len() as int + pm_group(items, "snap"@).len()
            + container_group(items, "docker"@).len() + container_group(items, "podman"@).len(),
        freed: 0,
        skipped: apps_skipped(items),
        errors: Seq::empty(),
    }
}

/// Every applications item lands in exactly one bucket.
pub proof fn lemma_apps_partition_count(items: Seq<CleanupItem>)
    ensures
        pm_group(items, "flatpak"@).len() + pm_group(items, "snap"@).len() + container_group(
            items,
            "docker"@,
        ).len() + container_group(items, "podman"@).len() + apps_skipped(items) == items.len(),
        apps_skipped(items) >= 0,
    decreases items.len(),
{
    reveal_strlit("flatpak");
    reveal_strlit("snap");
    reveal_strlit("docker");
    reveal_strlit("podman");
    if items.len() > 0 {
        lemma_apps_partition_count(items.drop_last());
        let it = items.last();
        assert(("flatpak"@).len() == 7);
        assert(("snap"@).len() == 4);
        assert(("docker"@)[0] == 'd');
        assert(("podman"@)[0] == 'p');
        assert("flatpak"@ != "snap"@);
        assert("docker"@ != "podman"@);
        if it.can_clean {
            match it.source {
                CleanupSource::PackageManager(m) => {
                    assert(!is_container(it, "docker"@));
                    assert(!is_container(it, "podman"@));
                }
                CleanupSource::Container(m) => {
                    assert(!is_pm(it, "flatpak"@));
                    assert(!is_pm(it, "snap"@));
                }
                CleanupSource::FileSystem => {}
            }
        }
    }
}

/// The groups of an applications clean.
pub struct AppGroups {
    pub flatpak: Vec<String>,
    pub snap: Vec<String>,
    pub docker: Vec<String>,
    pub podman: Vec<String>,
    pub skipped: usize,
}

/// How many items the old-packages cleaner skips.
pub open spec fn packages_skipped(items: Seq<CleanupItem>) -> int
    decreases items.len(),
{
    if items.len() == 0 {
        0
    } else {
        let rest = packages_skipped(items.drop_last());
        let it = items.last();
        if it.can_clean && (is_pm(it, "apt"@) || is_pm(it, "dnf"@) || is_pm(it, "pacman"@) || is_pm(
            it,
            "rpm"@,
        )) {
            rest
        } else {
            rest + 1
        }
    }
}

/// What a dry run of the old-packages cleaner reports.
pub open spec fn packages_dry_result(items: Seq<CleanupItem>) -> ResultModel {
    ResultModel {
        cleaned: pm_group(items, "apt"@).len() as int + pm_group(items, "dnf"@).len() + pm_group(
            items,
            "pacman"@,
        ).len() + pm_group(items, "rpm"@).len(),
        freed: 0,
        skipped: packages_skipped(items),
        errors: Seq::empty(),
    }
}

pub proof fn lemma_packages_partition_count(items: Seq<CleanupItem>)
    ensures
        pm_group(items, "apt"@).len() + pm_group(items, "dnf"@).len() + pm_group(
            items,
            "pacman"@,
        ).len() + pm_group(items, "rpm"@).len() + packages_skipped(items) == items.len(),
        packages_skipped(items) >= 0,
    decreases items.len(),
{
    reveal_strlit("apt");
    reveal_strlit("dnf");
    reveal_strlit("pacman");
    reveal_strlit("rpm");
    if items.len() > 0 {
        lemma_packages_partition_count(items.drop_last());
        assert(("apt"@).len() == 3);
        assert(("dnf"@).len() == 3);
        assert(("pacman"@).len() == 6);
        assert(("rpm"@).len() == 3);
        assert(("apt"@)[0] == 'a');
        assert(("dnf"@)[0] == 'd');
        assert(("rpm"@)[0] == 'r');
        assert("apt"@ != "dnf"@);
        assert("apt"@ != "pacman"@);
        assert("apt"@ != "rpm"@);
        assert("dnf"@ != "pacman"@);
        assert("dnf"@ != "rpm"@);
        assert("pacman"@ != "rpm"@);
    }
}

/// The groups of an old-packages clean.
pub struct PackageGroups {
    pub apt: Vec<String>,
    pub dnf: Vec<String>,
    pub pacman: Vec<String>,
    pub rpm: Vec<String>,
    pub skipped: usize,
}

/// How many items the old-kernels cleaner skips.
pub open spec fn kernels_skipped(items: Seq<CleanupItem>) -> int
    decreases items.len(),
{
    if items.len() == 0 {
        0
    } else {
        let rest = kernels_skipped(items.drop_last());
        let it = items.last();
        if it.can_clean && (is_pm(it, "rpm"@) || is_pm(it, "apt"@)) {
            rest
        } else {
            rest + 1
        }
    }
}

/// What a dry run of the old-kernels cleaner reports.
pub open spec fn kernels_dry_result(items: Seq<CleanupItem>) -> ResultModel {
    ResultModel {
        cleaned: pm_group(items, "rpm"@).len() as int + pm_group(items, "apt"@).len(),
        freed: 0,
        skipped: kernels_skipped(items),
        errors: Seq::empty(),
    }
}

pub proof fn lemma_kernels_partition_count(items: Seq<CleanupItem>)
    ensures
        pm_group(items, "rpm"@).len() + pm_group(items, "apt"@).len() + kernels_skipped(items)
            == items.len(),
        kernels_skipped(items) >= 0,
    decreases items.len(),
{
    reveal_strlit("rpm");
    reveal_strlit("apt");
    if items.len() > 0 {
        lemma_kernels_partition_count(items.drop_last());
        assert(("rpm"@)[0] == 'r');
        assert(("apt"@)[0] == 'a');
        assert("rpm"@ != "apt"@);
    }
}

/// The groups of an old-kernels clean.
pub struct KernelGroups {
    pub rpm: Vec<String>,
    pub apt: Vec<String>,
    pub skipped: usize,
}

// ---------------------------------------------------------------------------
// The cleaners
// ---------------------------------------------------------------------------

/// Cleans user cache directories.
pub struct CacheCleaner;

impl CacheCleaner {
    pub fn new() -> (r: Self) {
        CacheCleaner
    }

    pub fn name(&self) -> (r: &str)
        ensures
            r@ == "Cache Cleaner"@,
    {
        "Cache Cleaner"
    }

    pub fn category(&self) -> (r: CleanupCategory)
        ensures
            r == CleanupCategory::Cache,
    {
        CleanupCategory::Cache
    }

    pub fn can_clean(&self, item: &CleanupItem) -> (r: bool)
        ensures
            r == item.can_clean,
    {
        item.can_clean
    }

    /// The result a dry run reports, identical in counts to a fully
    /// successful real run.
    pub fn clean_dry_run(&self, items: &Vec<CleanupItem>) -> (r: CleanupResult)
        requires
            path_dry_result(items@).freed <= u64::MAX,
        ensures
            r@ == path_dry_result(items@),
    {
        run_path_dry(items)
    }

    /// The removal targets of a real run, and how many items it skips.
    pub fn partition(&self, items: &Vec<CleanupItem>) -> (r: (Vec<CleanTarget>, usize))
        ensures
            target_models(r.0@) == path_targets(items@),
            r.1 == path_skipped(items@),
    {
        (collect_path_targets(items), count_path_skipped(items))
    }
}

/// Cleans old temporary files.
pub struct TempFilesCleaner;

impl TempFilesCleaner {
    pub fn new() -> (r: Self) {
        TempFilesCleaner
    }

    pub fn name(&self) -> (r: &str)
        ensures
            r@ == "Temp Files Cleaner"@,
    {
        "Temp Files Cleaner"
    }

    pub fn category(&self) -> (r: CleanupCategory)
        ensures
            r == CleanupCategory::TempFiles,
    {
        CleanupCategory::TempFiles
    }

    pub fn can_clean(&self, item: &CleanupItem) -> (r: bool)
        ensures
            r == item.can_clean,
    {
        item.can_clean
    }

    /// Dry runs count whole items, exactly as the cache cleaner does.
    pub fn clean_dry_run(&self, items: &Vec<CleanupItem>) -> (r: CleanupResult)
        requires
            path_dry_result(items@).freed <= u64::MAX,
        ensures
            r@ == path_dry_result(items@),
    {
        run_path_dry(items)
    }

    pub fn partition(&self, items: &Vec<CleanupItem>) -> (r: (Vec<CleanTarget>, usize))
        ensures
            target_models(r.0@) == path_targets(items@),
            r.1 == path_skipped(items@),
    {
        (collect_path_targets(items), count_path_skipped(items))
    }
}

/// Cleans system logs and the systemd journal.
pub struct LogsCleaner;

impl LogsCleaner {
    pub fn new() -> (r: Self) {
        LogsCleaner
    }

    pub fn name(&self) -> (r: &str)
        ensures
            r@ == "Logs Cleaner"@,
    {
        "Logs Cleaner"
    }

    pub fn category(&self) -> (r: CleanupCategory)
        ensures
            r == CleanupCategory::Logs,
    {
        CleanupCategory::Logs
    }

    pub fn can_clean(&self, item: &CleanupItem) -> (r: bool)
        ensures
            r == item.can_clean,
    {
        item.can_clean
    }

    pub fn clean_dry_run(&self, items: &Vec<CleanupItem>) -> (r: CleanupResult)
        requires
            logs_dry_result(items@).freed <= u64::MAX,
        ensures
            r@ == logs_dry_result(items@),
    {
        let mut result = CleanupResult::default();
        let mut i: usize = 0;
        proof {
            assert(result@ =~= logs_dry_result(items@.take(0)));
        }
        while i < items.len()
            invariant
                i <= items.len(),
                logs_dry_result(items@).freed <= u64::MAX,
                result@ == logs_dry_result(items@.take(i as int)),
                result.errors@.len() == 0,
                result.cleaned_items <= i,
                result.skipped_items <= i,
            decreases items.len() - i,
        {
            proof {
                assert(items@.take(i + 1).drop_last() =~= items@.take(i as int));
                assert(items@.take(i + 1).last() == items@[i as int]);
                lemma_logs_dry_freed_mono(items@, i + 1);
            }
            if !items[i].can_clean {
                result.skipped_items = result.skipped_items + 1;
            } else if strutil::str_eq(items[i].id.as_str(), "systemd-journal") {
                result.cleaned_items = result.cleaned_items + 1;
                result.freed_bytes = result.freed_bytes + items[i].size;
            } else if items[i].path.is_some() {
                result.cleaned_items = result.cleaned_items + 1;
                result.freed_bytes = result.freed_bytes + items[i].size;
            } else {
                result.skipped_items = result.skipped_items + 1;
            }
            proof {
                assert(result@ =~= logs_dry_result(items@.take(i + 1)));
            }
            i = i + 1;
        }
        proof {
            assert(items@.take(items@.len() as int) =~= items@);
        }
        result
    }

    /// The actions of a real run, and how many items it skips.
    pub fn partition(&self, items: &Vec<CleanupItem>) -> (r: (Vec<LogTarget>, usize))
        ensures
            log_target_models(r.0@) == log_targets(items@),
            r.1 == logs_skipped(items@),
    {
        let mut targets: Vec<LogTarget> = Vec::new();
        let mut skipped: usize = 0;
        let mut i: usize = 0;
        proof {
            assert(log_target_models(targets@) =~= log_targets(items@.take(0)));
        }
        while i < items.len()
            invariant
                i <= items.len(),
                skipped <= i,
                log_target_models(targets@) == log_targets(items@.take(i as int)),
                skipped == logs_skipped(items@.take(i as int)),
            decreases items.len() - i,
        {
            proof {
                assert(items@.take(i + 1).drop_last() =~= items@.take(i as int));
                assert(items@.take(i + 1).last() == items@[i as int]);
            }
            let ghost pre = log_target_models(targets@);
            if !items[i].can_clean {
                skipped = skipped + 1;
            } else if strutil::str_eq(items[i].id.as_str(), "systemd-journal") {
                targets.push(LogTarget::Journal(items[i].size));
                proof {
                    assert(log_target_models(targets@) =~= pre.push(
                        (true, Seq::empty(), items@[i as int].size as int),
                    ));
                }
            } else if items[i].path.is_some() {
                let p = match &items[i].path {
                    Some(p) => p.clone(),
                    None => String::new(),
                };
                targets.push(LogTarget::Path(p, items[i].size));
                proof {
                    assert(log_target_models(targets@) =~= pre.push(
                        (false, items@[i as int].path->0@, items@[i as int].size as int),
                    ));
                }
            } else {
                skipped = skipped + 1;
            }
            proof {
                assert(log_target_models(targets@) =~= log_targets(items@.take(i + 1)));
            }
            i = i + 1;
        }
        proof {
            assert(items@.take(items@.len() as int) =~= items@);
        }
        (targets, skipped)
    }
}

/// Removes flatpak and snap applications and container images.
pub struct ApplicationsCleaner;

impl ApplicationsCleaner {
    pub fn new() -> (r: Self) {
        ApplicationsCleaner
    }

    pub fn name(&self) -> (r: &str)
        ensures
            r@ == "Applications Cleaner"@,
    {
        "Applications Cleaner"
    }

    pub fn category(&self) -> (r: CleanupCategory)
        ensures
            r == CleanupCategory::Applications,
    {
        CleanupCategory::Applications
    }

    pub fn can_clean(&self, item: &CleanupItem) -> (r: bool)
        ensures
            r == item.can_clean,
    {
        item.can_clean
    }

    /// The backend groups of a clean, and how many items it skips.
    pub fn partition(&self, items: &Vec<CleanupItem>) -> (r: AppGroups)
        ensures
            strutil::strs_of(r.flatpak@) == pm_group(items@, "flatpak"@),
            strutil::strs_of(r.snap@) == pm_group(items@, "snap"@),
            strutil::strs_of(r.docker@) == container_group(items@, "docker"@),
            strutil::strs_of(r.podman@) == container_group(items@, "podman"@),
            r.skipped == apps_skipped(items@),
    {
        proof {
            lemma_apps_partition_count(items@);
        }
        let flatpak = collect_pm_group(items, "flatpak");
        let snap = collect_pm_group(items, "snap");
        let docker = collect_container_group(items, "docker");
        let podman = collect_container_group(items, "podman");
        let skipped = items.len() - flatpak.len() - snap.len() - docker.len() - podman.len();
        AppGroups { flatpak, snap, docker, podman, skipped }
    }

    /// Dry runs count one cleaned item per grouped name; no bytes are
    /// reported freed, exactly as a real run reports them.
    pub fn clean_dry_run(&self, items: &Vec<CleanupItem>) -> (r: CleanupResult)
        ensures
            r@ == apps_dry_result(items@),
    {
        let groups = self.partition(items);
        let n = items.len();
        proof {
            assert(items@.len() == n);
            lemma_apps_partition_count(items@);
            assert(strutil::strs_of(groups.flatpak@).len() == groups.flatpak@.len());
            assert(strutil::strs_of(groups.snap@).len() == groups.snap@.len());
            assert(strutil::strs_of(groups.docker@).len() == groups.docker@.len());
            assert(strutil::strs_of(groups.podman@).len() == groups.podman@.len());
        }
        let cleaned = groups.flatpak.len() + groups.snap.len() + groups.docker.len()
            + groups.podman.len();
        let r = CleanupResult {
            cleaned_items: cleaned,
            freed_bytes: 0,
            skipped_items: groups.skipped,
            errors: Vec::new(),
        };
        proof {
            assert(r@.errors =~= Seq::<String>::empty());
            assert(r@ =~= apps_dry_result(items@));
        }
        r
    }
}

/// Removes packages no longer needed.
pub struct OldPackagesCleaner;

impl OldPackagesCleaner {
    pub fn new() -> (r: Self) {
        OldPackagesCleaner
    }

    pub fn name(&self) -> (r: &str)
        ensures
            r@ == "Old Packages Cleaner"@,
    {
        "Old Packages Cleaner"
    }

    pub fn category(&self) -> (r: CleanupCategory)
        ensures
            r == CleanupCategory::OldPackages,
    {
        CleanupCategory::OldPackages
    }

    pub fn can_clean(&self, item: &CleanupItem) -> (r: bool)
        ensures
            r == item.can_clean,
    {
        item.can_clean
    }

    pub fn partition(&self, items: &Vec<CleanupItem>) -> (r: PackageGroups)
        ensures
            strutil::strs_of(r.apt@) == pm_group(items@, "apt"@),
            strutil::strs_of(r.dnf@) == pm_group(items@, "dnf"@),
            strutil::strs_of(r.pacman@) == pm_group(items@, "pacman"@),
            strutil::strs_of(r.rpm@) == pm_group(items@, "rpm"@),
            r.skipped == packages_skipped(items@),
    {
        proof {
            lemma_packages_partition_count(items@);
        }
        let apt = collect_pm_group(items, "apt");
        let dnf = collect_pm_group(items, "dnf");
        let pacman = collect_pm_group(items, "pacman");
        let rpm = collect_pm_group(items, "rpm");
        let skipped = items.len() - apt.len() - dnf.len() - pacman.len() - rpm.len();
        PackageGroups { apt, dnf, pacman, rpm, skipped }
    }

    pub fn clean_dry_run(&self, items: &Vec<CleanupItem>) -> (r: CleanupResult)
        ensures
            r@ == packages_dry_result(items@),
    {
        let groups = self.partition(items);
        let n = items.len();
        proof {
            assert(items@.len() == n);
            lemma_packages_partition_count(items@);
            assert(strutil::strs_of(groups.apt@).len() == groups.apt@.len());
            assert(strutil::strs_of(groups.dnf@).len() == groups.dnf@.len());
            assert(strutil::strs_of(groups.pacman@).len() == groups.pacman@.len());
            assert(strutil::strs_of(groups.rpm@).len() == groups.rpm@.len());
        }
        let cleaned = groups.apt.len() + groups.dnf.len() + groups.pacman.len()
            + groups.rpm.len();
        let r = CleanupResult {
            cleaned_items: cleaned,
            freed_bytes: 0,
            skipped_items: groups.skipped,
            errors: Vec::new(),
        };
        proof {
            assert(r@.errors =~= Seq::<String>::empty());
            assert(r@ =~= packages_dry_result(items@));
        }
        r
    }
}

/// Removes old kernel packages.
pub struct OldKernelsCleaner;

impl OldKernelsCleaner {
    pub fn new() -> (r: Self) {
        OldKernelsCleaner
    }

    pub fn name(&self) -> (r: &str)
        ensures
            r@ == "Old Kernels Cleaner"@,
    {
        "Old Kernels Cleaner"
    }

    pub fn category(&self) -> (r: CleanupCategory)
        ensures
            r == CleanupCategory::OldKernels,
    {
        CleanupCategory::OldKernels
    }

    pub fn can_clean(&self, item: &CleanupItem) -> (r: bool)
        ensures
            r == item.can_clean,
    {
        item.can_clean
    }

    pub fn partition(&self, items: &Vec<CleanupItem>) -> (r: KernelGroups)
        ensures
            strutil::strs_of(r.rpm@) == pm_group(items@, "rpm"@),
            strutil::strs_of(r.apt@) == pm_group(items@, "apt"@),
            r.skipped == kernels_skipped(items@),
    {
        proof {
            lemma_kernels_partition_count(items@);
        }
        let rpm = collect_pm_group(items, "rpm");
        let apt = collect_pm_group(items, "apt");
        let skipped = items.len() - rpm.len() - apt.len();
        KernelGroups { rpm, apt, skipped }
    }

    pub fn clean_dry_run(&self, items: &Vec<CleanupItem>) -> (r: CleanupResult)
        ensures
            r@ == kernels_dry_result(items@),
    {
        let groups = self.partition(items);
        let n = items.len();
        proof {
            assert(items@.len() == n);
            lemma_kernels_partition_count(items@);
            assert(strutil::strs_of(groups.rpm@).len() == groups.rpm@.len());
            assert(strutil::strs_of(groups.apt@).len() == groups.apt@.len());
        }
        let cleaned = groups.rpm.len() + groups.apt.len();
        let r = CleanupResult {
            cleaned_items: cleaned,
            freed_bytes: 0,
            skipped_items: groups.skipped,
            errors: Vec::new(),
        };
        proof {
            assert(r@.errors =~= Seq::<String>::empty());
            assert(r@ =~= kernels_dry_result(items@));
        }
        r
    }
}

// ---------------------------------------------------------------------------
// Orchestration
// ---------------------------------------------------------------------------

/// The fixed order the orchestrator walks the categories in.
pub open spec fn spec_category_order() -> Seq<CleanupCategory> {
    seq![
        CleanupCategory::Cache,
        CleanupCategory::Applications,
        CleanupCategory::TempFiles,
        CleanupCategory::Logs,
        CleanupCategory::OldPackages,
        CleanupCategory::OldKernels,
    ]
}

pub fn category_order() -> (r: Vec<CleanupCategory>)
    ensures
        r@ == spec_category_order(),
{
    let mut r: Vec<CleanupCategory> = Vec::new();
    r.push(CleanupCategory::Cache);
    r.push(CleanupCategory::Applications);
    r.push(CleanupCategory::TempFiles);
    r.push(CleanupCategory::Logs);
    r.push(CleanupCategory::OldPackages);
    r.push(CleanupCategory::OldKernels);
    proof {
        assert(r@ =~= spec_category_order());
    }
    r
}

/// Whether the selection holds an item of this category.
pub open spec fn has_selected(items: Seq<CleanupItem>, cat: CleanupCategory) -> bool {
    exists|i: int|
        0 <= i < items.len() && (#[trigger] items[i]).selected && items[i].category == cat
}

fn has_selected_exec(items: &Vec<CleanupItem>, cat: CleanupCategory) -> (r: bool)
    ensures
        r == has_selected(items@, cat),
{
    let mut i: usize = 0;
    while i < items.len()
        invariant
            i <= items.len(),
            forall|j: int|
                0 <= j < i ==> !((#[trigger] items@[j]).selected && items@[j].category == cat),
        decreases items.len() - i,
    {
        if items[i].selected && items[i].category == cat {
            return true;
        }
        i = i + 1;
    }
    false
}

/// How many categories, walked in order, hold a selected item.
pub open spec fn count_active(cats: Seq<CleanupCategory>, items: Seq<CleanupItem>) -> int
    decreases cats.len(),
{
    if cats.len() == 0 {
        0
    } else {
        (if has_selected(items, cats[0]) {
            1int
        } else {
            0int
        }) + count_active(cats.skip(1), items)
    }
}

/// The number of progress steps a clean reports: the categories with a
/// selection, at least one.
pub fn progress_steps(items: &Vec<CleanupItem>) -> (r: usize)
    ensures
        r == (if count_active(spec_category_order(), items@) > 0 {
            count_active(spec_category_order(), items@)
        } else {
            1int
        }),
{
    let cats = category_order();
    let mut count: usize = 0;
    let mut i: usize = 0;
    proof {
        assert(cats@.skip(0) =~= cats@);
    }
    while i < cats.len()
        invariant
            i <= cats.len(),
            cats@ == spec_category_order(),
            count <= i,
            count_active(cats@, items@) == count + count_active(cats@.skip(i as int), items@),
        decreases cats.len() - i,
    {
        proof {
            assert(cats@.skip(i as int)[0] == cats@[i as int]);
            assert(cats@.skip(i as int).skip(1) =~= cats@.skip(i + 1));
        }
        if has_selected_exec(items, cats[i]) {
            count = count + 1;
        }
        i = i + 1;
    }
    proof {
        assert(cats@.skip(cats@.len() as int) =~= Seq::<CleanupCategory>::empty());
    }
    if count == 0 {
        1
    } else {
        count
    }
}

/// The positions of the selected items of one category, in order.
pub fn selected_indices(items: &Vec<CleanupItem>, cat: CleanupCategory) -> (r: Vec<usize>)
    ensures
        forall|j: int|
            0 <= j < r@.len() ==> (#[trigger] r@[j]) < items@.len() && items@[r@[j] as int].selected
                && items@[r@[j] as int].category == cat,
        forall|j1: int, j2: int| 0 <= j1 < j2 < r@.len() ==> r@[j1] < r@[j2],
        forall|k: int|
            0 <= k < items@.len() && (#[trigger] items@[k]).selected && items@[k].category == cat
                ==> exists|j: int| 0 <= j < r@.len() && r@[j] == k,
{
    let mut r: Vec<usize> = Vec::new();
    let mut i: usize = 0;
    while i < items.len()
        invariant
            i <= items.len(),
            forall|j: int|
                0 <= j < r@.len() ==> (#[trigger] r@[j]) < i && items@[r@[j] as int].selected
                    && items@[r@[j] as int].category == cat,
            forall|j1: int, j2: int| 0 <= j1 < j2 < r@.len() ==> r@[j1] < r@[j2],
            forall|k: int|
                0 <= k < i && (#[trigger] items@[k]).selected && items@[k].category == cat
                    ==> exists|j: int| 0 <= j < r@.len() && r@[j] == k,
        decreases items.len() - i,
    {
        if items[i].selected && items[i].category == cat {
            let ghost pre = r@;
            r.push(i);
            proof {
                assert(r@[r@.len() - 1] == i);
                assert forall|k: int|
                    0 <= k < i + 1 && (#[trigger] items@[k]).selected && items@[k].category
                        == cat implies exists|j: int| 0 <= j < r@.len() && r@[j] == k by {
                    if k < i {
                        let jw = choose|j: int| 0 <= j < pre.len() && pre[j] == k;
                        assert(r@[jw] == k);
                    } else {
                        assert(r@[r@.len() - 1] == k);
                    }
                }
            }
        }
        i = i + 1;
    }
    r
}


/// A compressed or `.old` extension: the suffix with something in
/// front of it, so a hidden file named only `.gz` has no extension and
/// does not count.
pub open spec fn has_rotated_extension(name: Seq<char>, suffix: Seq<char>) -> bool {
    strutil::suffix_of(suffix, name) && name.len() > suffix.len()
}

/// Whether a file name denotes a rotated log: a compressed or `.old`
/// extension, or a numeric rotation suffix.
pub open spec fn spec_rotated_log_name(name: Seq<char>) -> bool {
    has_rotated_extension(name, ".gz"@) || has_rotated_extension(name, ".xz"@)
        || has_rotated_extension(name, ".bz2"@) || has_rotated_extension(name, ".zip"@)
        || has_rotated_extension(name, ".old"@) || strutil::suffix_of(".1"@, name)
        || strutil::suffix_of(".2"@, name) || strutil::suffix_of(".3"@, name)
        || strutil::suffix_of(".4"@, name) || strutil::suffix_of(".5"@, name)
}

/// Recognizes rotated log files by name.
pub fn is_rotated_log_name(name: &str) -> (r: bool)
    ensures
        r == spec_rotated_log_name(name@),
{
    let n = strutil::to_chars(name);
    let gz = strutil::to_chars(".gz");
    let xz = strutil::to_chars(".xz");
    let bz2 = strutil::to_chars(".bz2");
    let zip = strutil::to_chars(".zip");
    let old = strutil::to_chars(".old");
    let r1 = strutil::to_chars(".1");
    let r2 = strutil::to_chars(".2");
    let r3 = strutil::to_chars(".3");
    let r4 = strutil::to_chars(".4");
    let r5 = strutil::to_chars(".5");
    (strutil::ends_with(&n, &gz) && n.len() > gz.len()) || (strutil::ends_with(&n, &xz) && n.len()
        > xz.len()) || (strutil::ends_with(&n, &bz2) && n.len() > bz2.len()) || (
    strutil::ends_with(&n, &zip) && n.len() > zip.len()) || (strutil::ends_with(&n, &old)
        && n.len() > old.len()) || strutil::ends_with(&n, &r1) || strutil::ends_with(&n, &r2)
        || strutil::ends_with(&n, &r3) || strutil::ends_with(&n, &r4) || strutil::ends_with(
        &n,
        &r5,
    )
}

/// Total size of a list of removal targets.
pub open spec fn targets_size(ts: Seq<(Seq<char>, int)>) -> int
    decreases ts.len(),
{
    if ts.len() == 0 {
        0
    } else {
        targets_size(ts.drop_last()) + ts.last().1
    }
}

/// The dry-run report and the removal plan agree: one cleaned item per
/// target, the target sizes as freed bytes, and the same skip count. A
/// real run that removes every target therefore reports exactly the
/// dry-run counts.
pub proof fn lemma_dry_run_matches_plan(items: Seq<CleanupItem>)
    ensures
        path_dry_result(items).cleaned == path_targets(items).len(),
        path_dry_result(items).freed == targets_size(path_targets(items)),
        path_dry_result(items).skipped == path_skipped(items),
        path_dry_result(items).errors.len() == 0,
    decreases items.len(),
{
    if items.len() > 0 {
        lemma_dry_run_matches_plan(items.drop_last());
        let it = items.last();
        if it.can_clean && it.path is Some {
            assert(path_targets(items).drop_last() =~= path_targets(items.drop_last()));
        }
    }
}

/// The logs dry-run report and the logs plan agree in the same way: one
/// cleaned item per action, the recorded sizes as freed bytes, the same
/// skip count.
pub proof fn lemma_logs_dry_matches_plan(items: Seq<CleanupItem>)
    ensures
        logs_dry_result(items).cleaned == log_targets(items).len(),
        logs_dry_result(items).freed == log_targets_size(log_targets(items)),
        logs_dry_result(items).skipped == logs_skipped(items),
        logs_dry_result(items).errors.len() == 0,
    decreases items.len(),
{
    if items.len() > 0 {
        lemma_logs_dry_matches_plan(items.drop_last());
        let it = items.last();
        if it.can_clean && (it.id@ == "systemd-journal"@ || it.path is Some) {
            assert(log_targets(items).drop_last() =~= log_targets(items.drop_last()));
        }
    }
}

/// Total recorded size of a list of log actions.
pub open spec fn log_targets_size(ts: Seq<(bool, Seq<char>, int)>) -> int
    decreases ts.len(),
{
    if ts.len() == 0 {
        0
    } else {
        log_targets_size(ts.drop_last()) + ts.last().2
    }
}

// ---------------------------------------------------------------------------
// Temp-file eligibility
// ---------------------------------------------------------------------------

/// The cutoff instant for temp-file removal: the given age, in days,
/// before `now`, clamped at the epoch; an oversized age saturates.
pub open spec fn spec_temp_cutoff(now: int, max_age_days: nat) -> int {
    let secs: nat = if max_age_days * 86400 > u64::MAX {
        u64::MAX as nat
    } else {
        (max_age_days * 86400) as nat
    };
    if now < secs {
        0
    } else {
        now - secs
    }
}

/// Computes the removal cutoff from the current time in epoch seconds.
pub fn temp_cutoff(now: i64, max_age_days: u64) -> (r: i64)
    requires
        now >= 0,
    ensures
        r as int == spec_temp_cutoff(now as int, max_age_days as nat),
{
    let s128: u128 = (max_age_days as u128) * 86400;
    let secs: u64 = if s128 > 0xFFFF_FFFF_FFFF_FFFF {
        u64::MAX
    } else {
        s128 as u64
    };
    if (now as u64) < secs {
        0
    } else {
        now - (secs as i64)
    }
}

/// Whether one direct entry of a temp directory may be removed: old
/// enough, and owned by the caller unless the caller is root.
pub open spec fn spec_temp_entry_eligible(
    modified: int,
    uid: int,
    cutoff: int,
    only_owner: bool,
    owner_uid: int,
) -> bool {
    (!only_owner || uid == owner_uid) && modified <= cutoff
}

/// Decides eligibility of one temp entry from its modification time
/// and owner.
pub fn temp_entry_eligible(
    modified: i64,
    uid: u32,
    cutoff: i64,
    only_owner: bool,
    owner_uid: u32,
) -> (r: bool)
    ensures
        r == spec_temp_entry_eligible(
            modified as int,
            uid as int,
            cutoff as int,
            only_owner,
            owner_uid as int,
        ),
{
    (!only_owner || uid == owner_uid) && modified <= cutoff
}

/// The sidecar metadata file of a trash entry: for a path of the form
/// `<root>/files/<name>`, the file `<root>/info/<name>.trashinfo`;
/// nothing for any other shape.
pub open spec fn spec_trash_info_path(p: Seq<char>) -> Option<Seq<char>> {
    let pieces = strutil::split_spec(p, '/');
    if pieces.len() >= 2 && pieces.last().len() > 0 && pieces[pieces.len() - 2] == "files"@ {
        let dir = pieces.take(pieces.len() - 2);
        let sep: Seq<char> = if dir.len() == 0 {
            Seq::empty()
        } else {
            seq!['/']
        };
        Some(
            crate::backup::join_slash(dir) + sep + "info/"@ + pieces.last() + ".trashinfo"@,
        )
    } else {
        None
    }
}

/// Derives the `.trashinfo` sidecar of a trash entry, read off the
/// path text.
pub fn trash_info_path(entry_path: &str) -> (r: Option<String>)
    ensures
        match r {
            Some(v) => Some(v@) == spec_trash_info_path(entry_path@),
            None => spec_trash_info_path(entry_path@) is None,
        },
{
    let chars = strutil::to_chars(entry_path);
    let pieces = strutil::split_chars(&chars, '/');
    proof {
        strutil::lemma_split_len(chars@, '/');
    }
    let files_lit = strutil::to_chars("files");
    if pieces.len() < 2 {
        return None;
    }
    proof {
        assert(strutil::seqs_of(pieces@)[pieces@.len() - 1] == pieces@[pieces@.len() - 1]@);
        assert(strutil::seqs_of(pieces@)[pieces@.len() - 2] == pieces@[pieces@.len() - 2]@);
        assert(strutil::seqs_of(pieces@).last() == pieces@[pieces@.len() - 1]@);
    }
    if pieces[pieces.len() - 1].len() == 0 {
        return None;
    }
    if !strutil::chars_eq(&pieces[pieces.len() - 2], &files_lit) {
        return None;
    }
    let dir_len = pieces.len() - 2;
    let mut out: Vec<char> = Vec::new();
    let mut i: usize = 0;
    let ghost ps = strutil::seqs_of(pieces@);
    let ghost dir = ps.take(dir_len as int);
    proof {
        assert(out@ =~= crate::backup::join_slash(dir.take(0)));
    }
    while i < dir_len
        invariant
            i <= dir_len,
            dir_len + 2 == pieces@.len(),
            ps == strutil::seqs_of(pieces@),
            dir == ps.take(dir_len as int),
            out@ == crate::backup::join_slash(dir.take(i as int)),
        decreases dir_len - i,
    {
        proof {
            assert(dir.take(i + 1).drop_last() =~= dir.take(i as int));
            assert(dir.take(i + 1).last() == dir[i as int]);
            assert(dir[i as int] == pieces@[i as int]@);
        }
        let ghost joined_pre = out@;
        if i > 0 {
            out.push('/');
        }
        let n = pieces[i].len();
        let mut j: usize = 0;
        let ghost mid = out@;
        while j < n
            invariant
                j <= n,
                i < pieces.len(),
                n == pieces@[i as int]@.len(),
                out@ =~= mid + pieces@[i as int]@.take(j as int),
            decreases n - j,
        {
            let c = pieces[i][j];
            out.push(c);
            proof {
                assert(out@ =~= mid + pieces@[i as int]@.take(j + 1));
            }
            j = j + 1;
        }
        proof {
            let ghost piece = pieces@[i as int]@;
            assert(piece.take(piece.len() as int) =~= piece);
            if i == 0 {
                assert(out@ =~= crate::backup::join_slash(dir.take(1)));
            } else {
                assert(out@ =~= joined_pre + seq!['/'] + piece);
                assert(out@ =~= crate::backup::join_slash(dir.take(i + 1)));
            }
        }
        i = i + 1;
    }
    proof {
        assert(dir.take(dir.len() as int) =~= dir);
    }
    if dir_len > 0 {
        out.push('/');
    }
    let infix = strutil::to_chars("info/");
    let mut j: usize = 0;
    let ghost mid2 = out@;
    while j < infix.len()
        invariant
            j <= infix.len(),
            out@ =~= mid2 + infix@.take(j as int),
        decreases infix.len() - j,
    {
        out.push(infix[j]);
        proof {
            assert(out@ =~= mid2 + infix@.take(j + 1));
        }
        j = j + 1;
    }
    proof {
        assert(infix@.take(infix@.len() as int) =~= infix@);
    }
    let name = &pieces[pieces.len() - 1];
    let mut j: usize = 0;
    let ghost mid3 = out@;
    while j < name.len()
        invariant
            j <= name.len(),
            dir_len + 2 == pieces@.len(),
            name == pieces@[pieces@.len() - 1],
            out@ =~= mid3 + pieces@[pieces@.len() - 1]@.take(j as int),
        decreases name.len() - j,
    {
        let c = name[j];
        out.push(c);
        proof {
            assert(out@ =~= mid3 + pieces@[pieces@.len() - 1]@.take(j + 1));
        }
        j = j + 1;
    }
    proof {
        let ghost nm = pieces@[pieces@.len() - 1]@;
        assert(nm.take(nm.len() as int) =~= nm);
    }
    let tail = strutil::to_chars(".trashinfo");
    let mut j: usize = 0;
    let ghost mid4 = out@;
    while j < tail.len()
        invariant
            j <= tail.len(),
            out@ =~= mid4 + tail@.take(j as int),
        decreases tail.len() - j,
    {
        out.push(tail[j]);
        proof {
            assert(out@ =~= mid4 + tail@.take(j + 1));
        }
        j = j + 1;
    }
    proof {
        assert(tail@.take(tail@.len() as int) =~= tail@);
        assert(out@ =~= spec_trash_info_path(entry_path@)->0);
    }
    Some(strutil::from_chars(&out))
}

} // verus!
