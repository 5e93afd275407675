//! Backup engine: selection of backup roots, capacity-bounded retention
//! planning, and assembly of a content-verified backup generation.
//!
//! The engine is given the filesystem facts it needs as plain values: the
//! listed existing generations, and for each selected root the bytes or
//! the file tree found at that path. It decides everything else: which
//! paths to copy, which generations to evict, and what the metadata of
//! the new generation must say.

use vstd::prelude::*;
use vstd::string::StringExecFns;
use crate::checksum;
use crate::checksum::TreeFile;
use crate::error::RcleanerError;
use crate::config::Config;
use crate::models::CleanupItem;
use crate::strutil;

verus! {

/// One snapshot generation.
#[derive(Clone, Debug)]
pub struct Backup {
    /// Unique id of the generation.
    pub id: String,
    /// Creation time, seconds since the epoch.
    pub timestamp: i64,
    /// The items preserved in this generation.
    pub items: Vec<BackupItem>,
    /// Sum of the item sizes, in bytes.
    pub size: u64,
}

/// One preserved path inside a generation.
#[derive(Clone, Debug)]
pub struct BackupItem {
    /// The path the data was taken from.
    pub original_path: String,
    /// Where the copy lies under the generation root.
    pub backup_path: String,
    /// Size of the source in bytes.
    pub size: u64,
    /// Hex SHA-256 fingerprint of the source at backup time.
    pub checksum: String,
}

/// Model of one backup item.
pub ghost struct BackupItemModel {
    pub original_path: Seq<char>,
    pub backup_path: Seq<char>,
    pub size: nat,
    pub checksum: Seq<char>,
}

impl View for BackupItem {
    type V = BackupItemModel;

    open spec fn view(&self) -> BackupItemModel {
        BackupItemModel {
            original_path: self.original_path@,
            backup_path: self.backup_path@,
            size: self.size as nat,
            checksum: self.checksum@,
        }
    }
}

pub open spec fn item_models(v: Seq<BackupItem>) -> Seq<BackupItemModel> {
    Seq::new(v.len(), |i: int| v[i]@)
}

/// Model of one generation.
#[verifier::ext_equal]
pub ghost struct BackupModel {
    pub id: Seq<char>,
    pub timestamp: int,
    pub items: Seq<BackupItemModel>,
    pub size: nat,
}

impl View for Backup {
    type V = BackupModel;

    open spec fn view(&self) -> BackupModel {
        BackupModel {
            id: self.id@,
            timestamp: self.timestamp as int,
            items: item_models(self.items@),
            size: self.size as nat,
        }
    }
}

pub open spec fn backup_models(v: Seq<Backup>) -> Seq<BackupModel> {
    Seq::new(v.len(), |i: int| v[i]@)
}

/// What the filesystem holds at one selected root.
#[derive(Clone, Debug)]
pub enum PathNode {
    /// The path does not exist.
    Missing,
    /// A regular file with these contents.
    File(Vec<u8>),
    /// A directory tree given as its contained files.
    Dir(Vec<TreeFile>),
}

/// A selected root together with what was found there.
#[derive(Clone, Debug)]
pub struct PathSource {
    pub path: String,
    pub node: PathNode,
}

/// The planner: where generations live and the size budget, zero meaning
/// unlimited.
pub struct BackupManager {
    pub backup_dir: String,
    pub max_size: u64,
}

// ---------------------------------------------------------------------------
// Path containment
// ---------------------------------------------------------------------------

/// Whether `child` lies at or below `root`, read off the path strings:
/// equality, or `root` extended at a component boundary.
pub open spec fn is_path_prefix(root: Seq<char>, child: Seq<char>) -> bool {
    root == child || (root.len() < child.len() && child.subrange(0, root.len() as int) == root && (
    child[root.len() as int] == '/' || (root.len() > 0 && root.last() == '/')))
}

/// Containment is transitive.
pub proof fn lemma_path_prefix_trans(a: Seq<char>, b: Seq<char>, c: Seq<char>)
    requires
        is_path_prefix(a, b),
        is_path_prefix(b, c),
    ensures
        is_path_prefix(a, c),
{
    if a == b || b == c {
    } else {
        assert(c.subrange(0, a.len() as int) =~= a) by {
            assert(forall|i: int|
                0 <= i < a.len() ==> c.subrange(0, b.len() as int)[i] == c[i]);
            assert(forall|i: int|
                0 <= i < a.len() ==> b.subrange(0, a.len() as int)[i] == b[i]);
        }
        if !(a.len() > 0 && a.last() == '/') {
            assert(b[a.len() as int] == '/');
            assert(c.subrange(0, b.len() as int)[a.len() as int] == c[a.len() as int]);
        }
    }
}

/// A proper ancestor is strictly shorter.
pub proof fn lemma_path_prefix_strict(a: Seq<char>, b: Seq<char>)
    requires
        is_path_prefix(a, b),
        a != b,
    ensures
        a.len() < b.len(),
{
}

/// Containment at equal length is equality.
pub proof fn lemma_path_prefix_same_len(a: Seq<char>, b: Seq<char>)
    requires
        is_path_prefix(a, b),
        a.len() == b.len(),
    ensures
        a == b,
{
}

fn path_prefix_exec(root: &Vec<char>, child: &Vec<char>) -> (r: bool)
    ensures
        r == is_path_prefix(root@, child@),
{
    if strutil::chars_eq(root, child) {
        return true;
    }
    if root.len() >= child.len() {
        return false;
    }
    let mut i: usize = 0;
    while i < root.len()
        invariant
            i <= root.len() < child.len(),
            forall|j: int| 0 <= j < i ==> child@[j] == root@[j],
        decreases root.len() - i,
    {
        if child[i] != root[i] {
            proof {
                assert(child@.subrange(0, root@.len() as int)[i as int] == child@[i as int]);
            }
            return false;
        }
        i = i + 1;
    }
    proof {
        assert(child@.subrange(0, root@.len() as int) =~= root@);
    }
    child[root.len()] == '/' || (root.len() > 0 && root[root.len() - 1] == '/')
}

// ---------------------------------------------------------------------------
// Root selection
// ---------------------------------------------------------------------------

/// The candidate paths: the paths of items that are cleanable and carry
/// one, in item order.
pub open spec fn candidate_paths(items: Seq<CleanupItem>) -> Seq<Seq<char>>
    decreases items.len(),
{
    if items.len() == 0 {
        Seq::empty()
    } else {
        let rest = candidate_paths(items.drop_last());
        let it = items.last();
        if it.can_clean && it.path is Some {
            rest.push(it.path->0@)
        } else {
            rest
        }
    }
}

/// Stable insertion into a list sorted by length, shortest first.
pub open spec fn insert_by_len(s: Seq<Seq<char>>, e: Seq<char>) -> Seq<Seq<char>>
    decreases s.len(),
{
    if s.len() == 0 {
        seq![e]
    } else if e.len() < s[0].len() {
        seq![e] + s
    } else {
        seq![s[0]] + insert_by_len(s.skip(1), e)
    }
}

/// Stable insertion sort by length, shortest first.
pub open spec fn sort_by_len(s: Seq<Seq<char>>) -> Seq<Seq<char>>
    decreases s.len(),
{
    if s.len() == 0 {
        Seq::empty()
    } else {
        insert_by_len(sort_by_len(s.drop_last()), s.last())
    }
}

/// Whether some selected root contains the path.
pub open spec fn covered(roots: Seq<Seq<char>>, p: Seq<char>) -> bool {
    exists|i: int| 0 <= i < roots.len() && is_path_prefix(#[trigger] roots[i], p)
}

/// The greedy walk over the length-sorted candidates: a candidate already
/// inside a selected root is dropped, every other becomes a root.
pub open spec fn dedup_roots(s: Seq<Seq<char>>, acc: Seq<Seq<char>>) -> Seq<Seq<char>>
    decreases s.len(),
{
    if s.len() == 0 {
        acc
    } else if covered(acc, s[0]) {
        dedup_roots(s.skip(1), acc)
    } else {
        dedup_roots(s.skip(1), acc.push(s[0]))
    }
}

/// The roots a backup copies: candidate paths sorted by length, nested
/// paths dropped.
pub open spec fn select_roots_spec(items: Seq<CleanupItem>) -> Seq<Seq<char>> {
    dedup_roots(sort_by_len(candidate_paths(items)), Seq::empty())
}

fn collect_paths(items: &Vec<CleanupItem>) -> (r: Vec<Vec<char>>)
    ensures
        strutil::seqs_of(r@) == candidate_paths(items@),
{
    let mut r: Vec<Vec<char>> = Vec::new();
    let mut i: usize = 0;
    proof {
        assert(strutil::seqs_of(r@) =~= candidate_paths(items@.take(0)));
    }
    while i < items.len()
        invariant
            i <= items.len(),
            strutil::seqs_of(r@) == candidate_paths(items@.take(i as int)),
        decreases items.len() - i,
    {
        proof {
            assert(items@.take(i + 1).drop_last() =~= items@.take(i as int));
            assert(items@.take(i + 1).last() == items@[i as int]);
        }
        if items[i].can_clean {
            if let Some(p) = &items[i].path {
                let pc = strutil::to_chars(p.as_str());
                r.push(pc);
                proof {
                    assert(strutil::seqs_of(r@) =~= candidate_paths(items@.take(i + 1)));
                }
            } else {
                proof {
                    assert(strutil::seqs_of(r@) =~= candidate_paths(items@.take(i + 1)));
                }
            }
        } else {
            proof {
                assert(strutil::seqs_of(r@) =~= candidate_paths(items@.take(i + 1)));
            }
        }
        i = i + 1;
    }
    proof {
        assert(items@.take(items@.len() as int) =~= items@);
    }
    r
}

/// The first position whose element is strictly longer.
fn find_len_pos(out: &Vec<Vec<char>>, e: &Vec<char>) -> (k: usize)
    ensures
        k <= out.len(),
        forall|j: int| 0 <= j < k ==> !(e@.len() < strutil::seqs_of(out@)[j].len()),
        k < out.len() ==> e@.len() < strutil::seqs_of(out@)[k as int].len(),
{
    let mut k: usize = 0;
    while k < out.len()
        invariant
            k <= out.len(),
            forall|j: int| 0 <= j < k ==> !(e@.len() < strutil::seqs_of(out@)[j].len()),
        decreases out.len() - k,
    {
        proof {
            assert(strutil::seqs_of(out@)[k as int] == out@[k as int]@);
        }
        if e.len() < out[k].len() {
            return k;
        }
        k = k + 1;
    }
    k
}

/// Inserting at the first strictly-longer position is what
/// `insert_by_len` does.
proof fn lemma_insert_by_len_at(s: Seq<Seq<char>>, e: Seq<char>, k: int)
    requires
        0 <= k <= s.len(),
        forall|j: int| 0 <= j < k ==> !(e.len() < s[j].len()),
        k == s.len() || e.len() < s[k].len(),
    ensures
        insert_by_len(s, e) == s.insert(k, e),
    decreases s.len(),
{
    if s.len() == 0 {
        assert(insert_by_len(s, e) =~= s.insert(0, e));
    } else if k == 0 {
        assert(insert_by_len(s, e) =~= s.insert(0, e));
    } else {
        lemma_insert_by_len_at(s.skip(1), e, k - 1);
        assert(seq![s[0]] + s.skip(1).insert(k - 1, e) =~= s.insert(k, e));
    }
}

fn sort_paths_by_len(paths: Vec<Vec<char>>) -> (r: Vec<Vec<char>>)
    ensures
        strutil::seqs_of(r@) == sort_by_len(strutil::seqs_of(paths@)),
{
    let mut out: Vec<Vec<char>> = Vec::new();
    let mut i: usize = 0;
    proof {
        assert(strutil::seqs_of(paths@).take(0) =~= Seq::<Seq<char>>::empty());
        assert(strutil::seqs_of(out@) =~= sort_by_len(strutil::seqs_of(paths@).take(0)));
    }
    while i < paths.len()
        invariant
            i <= paths.len(),
            strutil::seqs_of(out@) == sort_by_len(strutil::seqs_of(paths@).take(i as int)),
        decreases paths.len() - i,
    {
        let e = copy_at(&paths, i);
        let k = find_len_pos(&out, &e);
        proof {
            lemma_insert_by_len_at(strutil::seqs_of(out@), e@, k as int);
        }
        out.insert(k, e);
        proof {
            assert(strutil::seqs_of(paths@).take(i + 1).drop_last() =~= strutil::seqs_of(
                paths@,
            ).take(i as int));
            assert(strutil::seqs_of(paths@).take(i + 1).last() == strutil::seqs_of(paths@)[
                i as int
            ]);
            assert(strutil::seqs_of(out@) =~= sort_by_len(
                strutil::seqs_of(paths@).take(i as int),
            ).insert(k as int, strutil::seqs_of(paths@)[i as int]));
        }
        i = i + 1;
    }
    proof {
        assert(strutil::seqs_of(paths@).take(paths@.len() as int) =~= strutil::seqs_of(paths@));
    }
    out
}

fn copy_at(paths: &Vec<Vec<char>>, i: usize) -> (r: Vec<char>)
    requires
        i < paths.len(),
    ensures
        r@ == paths@[i as int]@,
{
    let mut r: Vec<char> = Vec::new();
    let mut j: usize = 0;
    while j < paths[i].len()
        invariant
            i < paths.len(),
            j <= paths@[i as int]@.len(),
            r@ =~= paths@[i as int]@.take(j as int),
        decreases paths@[i as int]@.len() - j,
    {
        r.push(paths[i][j]);
        proof {
            assert(r@ =~= paths@[i as int]@.take(j + 1));
        }
        j = j + 1;
    }
    proof {
        let ghost p = paths@[i as int]@;
        assert(p.take(p.len() as int) =~= p);
    }
    r
}

/// Whether some already-selected root contains the path.
fn any_root_covers(roots: &Vec<Vec<char>>, p: &Vec<char>) -> (r: bool)
    ensures
        r == covered(strutil::seqs_of(roots@), p@),
{
    let mut k: usize = 0;
    while k < roots.len()
        invariant
            k <= roots.len(),
            forall|j: int|
                0 <= j < k ==> !is_path_prefix(#[trigger] strutil::seqs_of(roots@)[j], p@),
        decreases roots.len() - k,
    {
        proof {
            assert(strutil::seqs_of(roots@)[k as int] == roots@[k as int]@);
        }
        if path_prefix_exec(&roots[k], &p) {
            proof {
                assert(is_path_prefix(strutil::seqs_of(roots@)[k as int], p@));
            }
            return true;
        }
        k = k + 1;
    }
    false
}

/// The backup roots selected from a set of items: only cleanable items
/// with a path count; the shortest ancestors win, nested paths are
/// dropped.
pub fn select_backup_roots(items: &Vec<CleanupItem>) -> (r: Vec<String>)
    ensures
        strutil::strs_of(r@) == select_roots_spec(items@),
{
    let candidates = collect_paths(items);
    let sorted = sort_paths_by_len(candidates);
    let mut out: Vec<String> = Vec::new();
    let mut roots: Vec<Vec<char>> = Vec::new();
    let mut i: usize = 0;
    let ghost s = strutil::seqs_of(sorted@);
    proof {
        assert(s.skip(0) =~= s);
        assert(strutil::seqs_of(roots@) =~= Seq::<Seq<char>>::empty());
        assert(strutil::strs_of(out@) =~= Seq::<Seq<char>>::empty());
    }
    while i < sorted.len()
        invariant
            i <= sorted.len(),
            s == strutil::seqs_of(sorted@),
            strutil::strs_of(out@) == strutil::seqs_of(roots@),
            dedup_roots(s, Seq::empty()) == dedup_roots(
                s.skip(i as int),
                strutil::seqs_of(roots@),
            ),
        decreases sorted.len() - i,
    {
        proof {
            assert(s.skip(i as int)[0] == s[i as int]);
            assert(s.skip(i as int).skip(1) =~= s.skip(i + 1));
        }
        let p = copy_at(&sorted, i);
        let ghost ro = strutil::seqs_of(roots@);
        let ghost oo = strutil::strs_of(out@);
        let is_covered = any_root_covers(&roots, &p);
        if is_covered {
            proof {
                assert(dedup_roots(s.skip(i as int), ro) == dedup_roots(s.skip(i + 1), ro));
            }
        } else {
            let ps = strutil::from_chars(&p);
            out.push(ps);
            roots.push(p);
            proof {
                assert(strutil::seqs_of(roots@) =~= ro.push(p@));
                assert(strutil::strs_of(out@) =~= oo.push(ps@));
                assert(strutil::strs_of(out@) =~= strutil::seqs_of(roots@));
                assert(dedup_roots(s.skip(i as int), ro) == dedup_roots(
                    s.skip(i + 1),
                    ro.push(s[i as int]),
                ));
            }
        }
        i = i + 1;
    }
    proof {
        assert(s.skip(s.len() as int) =~= Seq::<Seq<char>>::empty());
    }
    out
}

// ---------------------------------------------------------------------------
// Retention planning
// ---------------------------------------------------------------------------

/// Total size of a list of generations.
pub open spec fn sum_sizes(s: Seq<BackupModel>) -> int
    decreases s.len(),
{
    if s.len() == 0 {
        0
    } else {
        s[0].size + sum_sizes(s.skip(1))
    }
}

pub proof fn lemma_sum_sizes_nonneg(s: Seq<BackupModel>)
    ensures
        sum_sizes(s) >= 0,
    decreases s.len(),
{
    if s.len() > 0 {
        lemma_sum_sizes_nonneg(s.skip(1));
    }
}

proof fn lemma_sum_sizes_step(s: Seq<BackupModel>, i: int)
    requires
        0 <= i < s.len(),
    ensures
        sum_sizes(s.skip(i)) == s[i].size + sum_sizes(s.skip(i + 1)),
{
    assert(s.skip(i)[0] == s[i]);
    assert(s.skip(i).skip(1) =~= s.skip(i + 1));
}

/// Stable insertion into a list sorted by timestamp, oldest first.
pub open spec fn insert_by_ts(s: Seq<BackupModel>, e: BackupModel) -> Seq<BackupModel>
    decreases s.len(),
{
    if s.len() == 0 {
        seq![e]
    } else if e.timestamp < s[0].timestamp {
        seq![e] + s
    } else {
        seq![s[0]] + insert_by_ts(s.skip(1), e)
    }
}

/// Stable insertion sort by timestamp, oldest first.
pub open spec fn sort_by_ts(s: Seq<BackupModel>) -> Seq<BackupModel>
    decreases s.len(),
{
    if s.len() == 0 {
        Seq::<BackupModel>::empty()
    } else {
        insert_by_ts(sort_by_ts(s.drop_last()), s.last())
    }
}

/// How many of the oldest generations must leave before `total` plus the
/// incoming size fits the budget; `total` is the size of what `s` holds.
pub open spec fn evict_count(s: Seq<BackupModel>, total: int, incoming: int, max: int) -> int
    decreases s.len(),
{
    if total + incoming <= max {
        0
    } else if s.len() == 0 {
        0
    } else {
        1 + evict_count(s.skip(1), total - s[0].size, incoming, max)
    }
}


/// The eviction count is a prefix length of the list.
pub proof fn lemma_evict_count_bounds(s: Seq<BackupModel>, total: int, incoming: int, max: int)
    ensures
        0 <= evict_count(s, total, incoming, max) <= s.len(),
    decreases s.len(),
{
    if !(total + incoming <= max) && s.len() > 0 {
        lemma_evict_count_bounds(s.skip(1), total - s[0].size, incoming, max);
    }
}

/// The ids of a list of generations, in order.
pub open spec fn ids_of(s: Seq<BackupModel>) -> Seq<Seq<char>> {
    Seq::new(s.len(), |i: int| s[i].id)
}

/// The ids retention eviction deletes to make room for an incoming size:
/// the shortest prefix of the generations sorted oldest-first whose
/// removal brings the total plus the incoming size under the budget.
pub open spec fn evict_ids_spec(existing: Seq<BackupModel>, incoming: int, max: int) -> Seq<Seq<char>> {
    let sorted = sort_by_ts(existing);
    ids_of(sorted.take(evict_count(sorted, sum_sizes(sorted), incoming, max)))
}

/// Eviction always reaches the budget when the incoming size alone fits
/// it: after the planned deletions the remaining generations plus the
/// incoming backup stand under the budget.
pub proof fn lemma_eviction_fits(s: Seq<BackupModel>, incoming: int, max: int)
    requires
        0 <= incoming <= max,
    ensures
        sum_sizes(s.skip(evict_count(s, sum_sizes(s), incoming, max))) + incoming <= max,
    decreases s.len(),
{
    lemma_eviction_fits_aux(s, sum_sizes(s), incoming, max);
}

proof fn lemma_eviction_fits_aux(s: Seq<BackupModel>, total: int, incoming: int, max: int)
    requires
        0 <= incoming <= max,
        total == sum_sizes(s),
    ensures
        sum_sizes(s.skip(evict_count(s, total, incoming, max))) + incoming <= max,
    decreases s.len(),
{
    if total + incoming <= max {
        assert(s.skip(0) =~= s);
    } else if s.len() == 0 {
        assert(s.skip(0) =~= s);
    } else {
        lemma_sum_sizes_step(s, 0);
        lemma_evict_count_bounds(s.skip(1), total - s[0].size, incoming, max);
        assert(s.skip(1).skip(evict_count(s.skip(1), total - s[0].size, incoming, max)) =~= s.skip(
            1 + evict_count(s.skip(1), total - s[0].size, incoming, max),
        ));
        lemma_eviction_fits_aux(s.skip(1), total - s[0].size, incoming, max);
    }
}

/// Eviction is minimal: any shorter prefix leaves the budget exceeded.
pub proof fn lemma_eviction_minimal(s: Seq<BackupModel>, incoming: int, max: int, k: int)
    requires
        0 <= k < evict_count(s, sum_sizes(s), incoming, max),
    ensures
        sum_sizes(s.skip(k)) + incoming > max,
    decreases k,
{
    lemma_eviction_minimal_aux(s, sum_sizes(s), incoming, max, k);
}

proof fn lemma_eviction_minimal_aux(s: Seq<BackupModel>, total: int, incoming: int, max: int, k: int)
    requires
        total == sum_sizes(s),
        0 <= k < evict_count(s, total, incoming, max),
    ensures
        sum_sizes(s.skip(k)) + incoming > max,
    decreases k,
{
    if k == 0 {
        assert(s.skip(0) =~= s);
    } else {
        lemma_evict_count_bounds(s, total, incoming, max);
        lemma_sum_sizes_step(s, 0);
        assert(s.skip(1).skip(k - 1) =~= s.skip(k));
        lemma_eviction_minimal_aux(s.skip(1), total - s[0].size, incoming, max, k - 1);
    }
}

fn clone_backup_item(b: &BackupItem) -> (r: BackupItem)
    ensures
        r@ == b@,
        r.original_path@ == b.original_path@,
        r.backup_path@ == b.backup_path@,
        r.size == b.size,
        r.checksum@ == b.checksum@,
{
    let r = BackupItem {
        original_path: b.original_path.clone(),
        backup_path: b.backup_path.clone(),
        size: b.size,
        checksum: b.checksum.clone(),
    };
    r
}

fn clone_backup(b: &Backup) -> (r: Backup)
    ensures
        r@ == b@,
{
    let mut items: Vec<BackupItem> = Vec::new();
    let mut i: usize = 0;
    while i < b.items.len()
        invariant
            i <= b.items.len(),
            item_models(items@) =~= item_models(b.items@).take(i as int),
        decreases b.items.len() - i,
    {
        let ghost items_pre = items@;
        let c = clone_backup_item(&b.items[i]);
        items.push(c);
        proof {
            assert(item_models(items@) =~= item_models(items_pre).push(c@));
            assert(item_models(b.items@).take(i + 1) =~= item_models(b.items@).take(
                i as int,
            ).push(b.items@[i as int]@));
            assert(item_models(items@) =~= item_models(b.items@).take(i + 1));
        }
        i = i + 1;
    }
    proof {
        assert(item_models(b.items@).take(b.items@.len() as int) =~= item_models(b.items@));
    }
    let r = Backup { id: b.id.clone(), timestamp: b.timestamp, items, size: b.size };
    proof {
        assert(r@ =~= b@);
    }
    r
}

/// The first position whose generation is strictly newer.
fn find_ts_pos(out: &Vec<Backup>, ts: i64) -> (k: usize)
    ensures
        k <= out.len(),
        forall|j: int| 0 <= j < k ==> !((ts as int) < backup_models(out@)[j].timestamp),
        k < out.len() ==> (ts as int) < backup_models(out@)[k as int].timestamp,
{
    let mut k: usize = 0;
    while k < out.len()
        invariant
            k <= out.len(),
            forall|j: int| 0 <= j < k ==> !((ts as int) < backup_models(out@)[j].timestamp),
        decreases out.len() - k,
    {
        proof {
            assert(backup_models(out@)[k as int] == out@[k as int]@);
        }
        if ts < out[k].timestamp {
            return k;
        }
        k = k + 1;
    }
    k
}

proof fn lemma_insert_by_ts_at(s: Seq<BackupModel>, e: BackupModel, k: int)
    requires
        0 <= k <= s.len(),
        forall|j: int| 0 <= j < k ==> !(e.timestamp < s[j].timestamp),
        k == s.len() || e.timestamp < s[k].timestamp,
    ensures
        insert_by_ts(s, e) == s.insert(k, e),
    decreases s.len(),
{
    if s.len() == 0 {
        assert(insert_by_ts(s, e) =~= s.insert(0, e));
    } else if k == 0 {
        assert(insert_by_ts(s, e) =~= s.insert(0, e));
    } else {
        lemma_insert_by_ts_at(s.skip(1), e, k - 1);
        assert(seq![s[0]] + s.skip(1).insert(k - 1, e) =~= s.insert(k, e));
    }
}

/// Sorts generations by timestamp, oldest first, stably.
pub fn sort_backups_by_ts(existing: &Vec<Backup>) -> (r: Vec<Backup>)
    ensures
        backup_models(r@) == sort_by_ts(backup_models(existing@)),
{
    let mut out: Vec<Backup> = Vec::new();
    let mut i: usize = 0;
    proof {
        assert(backup_models(existing@).take(0) =~= Seq::<BackupModel>::empty());
        assert(backup_models(out@) =~= sort_by_ts(backup_models(existing@).take(0)));
    }
    while i < existing.len()
        invariant
            i <= existing.len(),
            backup_models(out@) == sort_by_ts(backup_models(existing@).take(i as int)),
        decreases existing.len() - i,
    {
        let e = clone_backup(&existing[i]);
        let k = find_ts_pos(&out, e.timestamp);
        proof {
            lemma_insert_by_ts_at(backup_models(out@), e@, k as int);
            assert(backup_models(out@).insert(k as int, e@) =~= backup_models(
                out@.insert(k as int, e),
            ));
        }
        out.insert(k, e);
        proof {
            assert(backup_models(existing@).take(i + 1).drop_last() =~= backup_models(
                existing@,
            ).take(i as int));
            assert(backup_models(existing@).take(i + 1).last() == backup_models(existing@)[
                i as int
            ]);
            assert(backup_models(out@) =~= sort_by_ts(backup_models(existing@).take(i + 1)));
        }
        i = i + 1;
    }
    proof {
        assert(backup_models(existing@).take(existing@.len() as int) =~= backup_models(existing@));
    }
    out
}

/// The eviction walk shared by capacity admission and pruning: deletes
/// oldest-first until `incoming` more bytes fit the budget.
fn compute_evictions(sorted: &Vec<Backup>, incoming: u64, max: u64) -> (r: Vec<String>)
    requires
        incoming <= max,
    ensures
        strutil::strs_of(r@) == ids_of(
            backup_models(sorted@).take(
                evict_count(
                    backup_models(sorted@),
                    sum_sizes(backup_models(sorted@)),
                    incoming as int,
                    max as int,
                ),
            ),
        ),
{
    let ghost sm = backup_models(sorted@);
    let mut total: u128 = 0;
    let mut i: usize = 0;
    proof {
        assert(sm.skip(0) =~= sm);
        lemma_sum_sizes_nonneg(sm);
    }
    while i < sorted.len()
        invariant
            i <= sorted.len(),
            sm == backup_models(sorted@),
            sum_sizes(sm) == total + sum_sizes(sm.skip(i as int)),
            total <= i * 0x1_0000_0000_0000_0000,
        decreases sorted.len() - i,
    {
        proof {
            lemma_sum_sizes_step(sm, i as int);
            lemma_sum_sizes_nonneg(sm.skip(i + 1));
            assert(sm[i as int] == sorted@[i as int]@);
        }
        total = total + (sorted[i].size as u128);
        i = i + 1;
    }
    proof {
        assert(sm.skip(sm.len() as int) =~= Seq::<BackupModel>::empty());
        assert(total == sum_sizes(sm));
    }
    let ghost k_final = evict_count(sm, sum_sizes(sm), incoming as int, max as int);
    let mut ids: Vec<String> = Vec::new();
    let mut i: usize = 0;
    proof {
        assert(strutil::strs_of(ids@) =~= ids_of(sm.take(0)));
    }
    while i < sorted.len() && total > (max - incoming) as u128
        invariant
            i <= sorted.len(),
            sm == backup_models(sorted@),
            incoming <= max,
            total == sum_sizes(sm.skip(i as int)),
            strutil::strs_of(ids@) == ids_of(sm.take(i as int)),
            k_final == i + evict_count(
                sm.skip(i as int),
                sum_sizes(sm.skip(i as int)),
                incoming as int,
                max as int,
            ),
        decreases sorted.len() - i,
    {
        proof {
            lemma_sum_sizes_step(sm, i as int);
            lemma_sum_sizes_nonneg(sm.skip(i + 1));
            assert(sm[i as int] == sorted@[i as int]@);
            assert(sm.skip(i as int)[0] == sm[i as int]);
            assert(sm.skip(i as int).skip(1) =~= sm.skip(i + 1));
            assert(total + incoming > max);
        }
        let ghost ids_pre = ids@;
        let cloned = sorted[i].id.clone();
        ids.push(cloned);
        total = total - (sorted[i].size as u128);
        proof {
            assert(strutil::strs_of(ids@) =~= strutil::strs_of(ids_pre).push(sm[i as int].id));
            assert(ids_of(sm.take(i + 1)) =~= ids_of(sm.take(i as int)).push(sm[i as int].id));
            assert(strutil::strs_of(ids@) =~= ids_of(sm.take(i + 1)));
        }
        i = i + 1;
    }
    proof {
        if i == sorted.len() {
            assert(sm.skip(i as int) =~= Seq::<BackupModel>::empty());
        }
        assert(evict_count(
            sm.skip(i as int),
            sum_sizes(sm.skip(i as int)),
            incoming as int,
            max as int,
        ) == 0);
        assert(k_final == i);
    }
    ids
}

// ---------------------------------------------------------------------------
// Properties of root selection
// ---------------------------------------------------------------------------

/// No selected root contains another.
pub open spec fn antichain(roots: Seq<Seq<char>>) -> bool {
    forall|i: int, j: int|
        0 <= i < roots.len() && 0 <= j < roots.len() && i != j ==> !is_path_prefix(
            #[trigger] roots[i],
            #[trigger] roots[j],
        )
}

/// Sorted by length, shortest first.
pub open spec fn len_sorted(s: Seq<Seq<char>>) -> bool {
    forall|i: int, j: int|
        0 <= i <= j < s.len() ==> (#[trigger] s[i]).len() <= (#[trigger] s[j]).len()
}

/// Every element of `acc` is no longer than any element of `s`.
pub open spec fn all_shorter(acc: Seq<Seq<char>>, s: Seq<Seq<char>>) -> bool {
    forall|i: int, j: int|
        0 <= i < acc.len() && 0 <= j < s.len() ==> (#[trigger] acc[i]).len() <= (
        #[trigger] s[j]).len()
}

proof fn lemma_insert_by_len_multiset(s: Seq<Seq<char>>, e: Seq<char>)
    ensures
        insert_by_len(s, e).to_multiset() == s.to_multiset().insert(e),
    decreases s.len(),
{
    broadcast use vstd::seq_lib::group_to_multiset_ensures;
    broadcast use vstd::seq_lib::lemma_multiset_commutative;
    broadcast use vstd::multiset::group_multiset_axioms;

    if s.len() == 0 {
        assert(insert_by_len(s, e) =~= Seq::<Seq<char>>::empty().push(e));
        assert(Seq::<Seq<char>>::empty().push(e).to_multiset() =~= s.to_multiset().insert(e));
    } else if e.len() < s[0].len() {
        assert(seq![e] =~= Seq::<Seq<char>>::empty().push(e));
        assert((seq![e] + s).to_multiset() =~= seq![e].to_multiset().add(s.to_multiset()));
        assert(seq![e].to_multiset() =~= Seq::<Seq<char>>::empty().to_multiset().insert(e));
        assert((seq![e] + s).to_multiset() =~= s.to_multiset().insert(e));
    } else {
        lemma_insert_by_len_multiset(s.skip(1), e);
        assert(seq![s[0]] =~= Seq::<Seq<char>>::empty().push(s[0]));
        assert((seq![s[0]] + insert_by_len(s.skip(1), e)).to_multiset()
            =~= seq![s[0]].to_multiset().add(insert_by_len(s.skip(1), e).to_multiset()));
        assert(seq![s[0]].to_multiset() =~= Seq::<Seq<char>>::empty().to_multiset().insert(s[0]));
        assert(s =~= seq![s[0]] + s.skip(1));
        assert(s.to_multiset() =~= seq![s[0]].to_multiset().add(s.skip(1).to_multiset()));
        assert(insert_by_len(s, e).to_multiset() =~= s.to_multiset().insert(e));
    }
}

proof fn lemma_sort_by_len_multiset(s: Seq<Seq<char>>)
    ensures
        sort_by_len(s).to_multiset() == s.to_multiset(),
    decreases s.len(),
{
    broadcast use vstd::seq_lib::group_to_multiset_ensures;

    if s.len() > 0 {
        lemma_sort_by_len_multiset(s.drop_last());
        lemma_insert_by_len_multiset(sort_by_len(s.drop_last()), s.last());
        assert(s =~= s.drop_last().push(s.last()));
        assert(s.drop_last().push(s.last()).to_multiset() =~= s.drop_last().to_multiset().insert(
            s.last(),
        ));
    }
}

proof fn lemma_insert_by_len_min(s: Seq<Seq<char>>, e: Seq<char>, b: int)
    requires
        forall|j: int| 0 <= j < s.len() ==> (#[trigger] s[j]).len() >= b,
        e.len() >= b,
    ensures
        forall|k: int|
            0 <= k < insert_by_len(s, e).len() ==> (#[trigger] insert_by_len(s, e)[k]).len() >= b,
    decreases s.len(),
{
    if s.len() == 0 {
    } else if e.len() < s[0].len() {
    } else {
        assert(forall|j: int| 0 <= j < s.skip(1).len() ==> (#[trigger] s.skip(1)[j]).len() >= b);
        lemma_insert_by_len_min(s.skip(1), e, b);
        assert forall|k: int|
            0 <= k < insert_by_len(s, e).len() implies (#[trigger] insert_by_len(s, e)[k]).len()
            >= b by {
            if k > 0 {
                assert(insert_by_len(s, e)[k] == insert_by_len(s.skip(1), e)[k - 1]);
            }
        }
    }
}

proof fn lemma_insert_by_len_sorted(s: Seq<Seq<char>>, e: Seq<char>)
    requires
        len_sorted(s),
    ensures
        len_sorted(insert_by_len(s, e)),
    decreases s.len(),
{
    if s.len() == 0 {
    } else if e.len() < s[0].len() {
        assert forall|i: int, j: int|
            0 <= i <= j < insert_by_len(s, e).len() implies (#[trigger] insert_by_len(s, e)[i]).len()
            <= (#[trigger] insert_by_len(s, e)[j]).len() by {
            if i > 0 {
                assert(insert_by_len(s, e)[i] == s[i - 1]);
                assert(insert_by_len(s, e)[j] == s[j - 1]);
            } else if j > 0 {
                assert(insert_by_len(s, e)[j] == s[j - 1]);
                assert(s[0].len() <= s[j - 1].len());
            }
        }
    } else {
        assert forall|i: int, j: int|
            0 <= i <= j < s.skip(1).len() implies (#[trigger] s.skip(1)[i]).len() <= (
            #[trigger] s.skip(1)[j]).len() by {
            assert(s.skip(1)[i] == s[i + 1]);
            assert(s.skip(1)[j] == s[j + 1]);
        }
        lemma_insert_by_len_sorted(s.skip(1), e);
        assert(forall|j: int|
            0 <= j < s.skip(1).len() ==> (#[trigger] s.skip(1)[j]).len() >= s[0].len());
        lemma_insert_by_len_min(s.skip(1), e, s[0].len() as int);
        let r = insert_by_len(s, e);
        assert forall|i: int, j: int|
            0 <= i <= j < r.len() implies (#[trigger] r[i]).len() <= (#[trigger] r[j]).len() by {
            if i == 0 && j > 0 {
                assert(r[j] == insert_by_len(s.skip(1), e)[j - 1]);
            } else if i > 0 {
                assert(r[i] == insert_by_len(s.skip(1), e)[i - 1]);
                assert(r[j] == insert_by_len(s.skip(1), e)[j - 1]);
            }
        }
    }
}

proof fn lemma_sort_by_len_sorted(s: Seq<Seq<char>>)
    ensures
        len_sorted(sort_by_len(s)),
    decreases s.len(),
{
    if s.len() > 0 {
        lemma_sort_by_len_sorted(s.drop_last());
        lemma_insert_by_len_sorted(sort_by_len(s.drop_last()), s.last());
    }
}

/// The greedy walk keeps its accumulator as a prefix, keeps the antichain,
/// and covers every candidate it sees.
proof fn lemma_dedup_props(s: Seq<Seq<char>>, acc: Seq<Seq<char>>)
    requires
        len_sorted(s),
        antichain(acc),
        all_shorter(acc, s),
    ensures
        antichain(dedup_roots(s, acc)),
        forall|k: int| 0 <= k < s.len() ==> covered(dedup_roots(s, acc), #[trigger] s[k]),
        dedup_roots(s, acc).len() >= acc.len(),
        dedup_roots(s, acc).take(acc.len() as int) == acc,
        forall|p: Seq<char>| #[trigger] covered(acc, p) ==> covered(dedup_roots(s, acc), p),
    decreases s.len(),
{
    let r = dedup_roots(s, acc);
    if s.len() == 0 {
        assert(r.take(acc.len() as int) =~= acc);
        assert forall|p: Seq<char>| #[trigger] covered(acc, p) implies covered(r, p) by {}
    } else {
        assert(forall|i: int, j: int|
            0 <= i <= j < s.skip(1).len() ==> (#[trigger] s.skip(1)[i]).len() <= (#[trigger] s.skip(
                1,
            )[j]).len()) by {
            assert(forall|i: int| 0 <= i < s.skip(1).len() ==> s.skip(1)[i] == s[i + 1]);
        }
        if covered(acc, s[0]) {
            assert(all_shorter(acc, s.skip(1))) by {
                assert(forall|j: int| 0 <= j < s.skip(1).len() ==> s.skip(1)[j] == s[j + 1]);
            }
            lemma_dedup_props(s.skip(1), acc);
            assert forall|k: int| 0 <= k < s.len() implies covered(r, #[trigger] s[k]) by {
                if k == 0 {
                    assert(covered(acc, s[0]));
                } else {
                    assert(s.skip(1)[k - 1] == s[k]);
                }
            }
        } else {
            let acc2 = acc.push(s[0]);
            assert(antichain(acc2)) by {
                assert forall|i: int, j: int|
                    0 <= i < acc2.len() && 0 <= j < acc2.len() && i != j implies !is_path_prefix(
                    #[trigger] acc2[i],
                    #[trigger] acc2[j],
                ) by {
                    if j == acc.len() {
                        assert(acc2[i] == acc[i]);
                        if is_path_prefix(acc[i], s[0]) {
                            assert(covered(acc, s[0]));
                        }
                    } else if i == acc.len() {
                        assert(acc2[j] == acc[j]);
                        if is_path_prefix(s[0], acc[j]) {
                            lemma_path_prefix_strict(s[0], acc[j]);
                            assert(acc[j].len() <= s[0].len());
                            lemma_path_prefix_same_len(s[0], acc[j]);
                            assert(is_path_prefix(acc[j], s[0]));
                            assert(covered(acc, s[0]));
                        }
                    } else {
                        assert(acc2[i] == acc[i]);
                        assert(acc2[j] == acc[j]);
                    }
                }
            }
            assert(all_shorter(acc2, s.skip(1))) by {
                assert(forall|j: int| 0 <= j < s.skip(1).len() ==> s.skip(1)[j] == s[j + 1]);
                assert(forall|i: int| 0 <= i < acc2.len() ==> acc2[i] == acc[i] || acc2[i] == s[0]);
            }
            lemma_dedup_props(s.skip(1), acc2);
            assert(r.take(acc.len() as int) =~= r.take(acc2.len() as int).take(acc.len() as int));
            assert(acc2.take(acc.len() as int) =~= acc);
            assert forall|k: int| 0 <= k < s.len() implies covered(r, #[trigger] s[k]) by {
                if k == 0 {
                    assert(is_path_prefix(acc2[acc.len() as int], s[0]));
                    assert(covered(acc2, s[0]));
                } else {
                    assert(s.skip(1)[k - 1] == s[k]);
                }
            }
            assert forall|p: Seq<char>| #[trigger] covered(acc, p) implies covered(r, p) by {
                let w = choose|i: int| 0 <= i < acc.len() && is_path_prefix(#[trigger] acc[i], p);
                assert(acc2[w] == acc[w]);
                assert(covered(acc2, p));
            }
        }
    }
}

/// Overlapping candidates lose to their shallowest ancestor: when one
/// candidate path lies strictly inside another, the nested one is never
/// selected as a backup root.
pub proof fn lemma_nested_path_never_selected(items: Seq<CleanupItem>, p: Seq<char>, q: Seq<char>)
    requires
        candidate_paths(items).contains(p),
        candidate_paths(items).contains(q),
        is_path_prefix(p, q),
        p != q,
    ensures
        !select_roots_spec(items).contains(q),
{
    broadcast use vstd::seq_lib::group_to_multiset_ensures;

    let cand = candidate_paths(items);
    let sorted = sort_by_len(cand);
    let roots = select_roots_spec(items);
    lemma_sort_by_len_multiset(cand);
    assert(sorted.contains(p)) by {
        assert(cand.to_multiset().count(p) > 0);
    }
    assert(sorted.contains(q)) by {
        assert(cand.to_multiset().count(q) > 0);
    }
    lemma_sort_by_len_sorted(cand);
    lemma_dedup_props(sorted, Seq::empty());
    let kp = choose|k: int| 0 <= k < sorted.len() && sorted[k] == p;
    assert(covered(roots, p));
    let m = choose|i: int| 0 <= i < roots.len() && is_path_prefix(#[trigger] roots[i], p);
    lemma_path_prefix_trans(roots[m], p, q);
    lemma_path_prefix_strict(p, q);
    if roots.contains(q) {
        let n = choose|i: int| 0 <= i < roots.len() && roots[i] == q;
        if m == n {
            lemma_path_prefix_strict(roots[m], p);
            assert(roots[m].len() <= p.len());
        }
        assert(m != n);
        assert(!is_path_prefix(roots[m], roots[n]));
    }
}

impl BackupManager {
    /// A planner over the given directory with the given budget; zero
    /// means unlimited.
    pub fn new(backup_dir: String, max_size: u64) -> (r: Self)
        ensures
            r.backup_dir == backup_dir,
            r.max_size == max_size,
    {
        BackupManager { backup_dir, max_size }
    }

    /// The planner the configuration denotes: the active profile's
    /// budget, in whole gigabytes.
    pub fn from_config(config: &Config, backup_dir: String) -> (r: Self)
        requires
            crate::config::spec_current_profile(*config).max_backup_size_gb * 0x4000_0000
                <= u64::MAX,
        ensures
            r.backup_dir == backup_dir,
            r.max_size == crate::config::spec_current_profile(*config).max_backup_size_gb
                * 0x4000_0000,
    {
        let profile = config.current_profile();
        let gb = profile.max_backup_size_gb as u64;
        let max_size = gb * 0x4000_0000;
        BackupManager { backup_dir, max_size }
    }

    /// Decides which generations retention must evict before a backup of
    /// the given size may be written. With no budget nothing is evicted;
    /// an incoming size above the budget is rejected outright, and then
    /// nothing may be deleted; otherwise the oldest generations leave,
    /// one by one, until the incoming size fits.
    pub fn plan_capacity(&self, existing: &Vec<Backup>, incoming: u64) -> (r: Result<
        Vec<String>,
        RcleanerError,
    >)
        ensures
            self.max_size == 0 ==> (r matches Ok(v) && v@.len() == 0),
            self.max_size > 0 && incoming > self.max_size ==> (r matches Err(e)
                && e matches RcleanerError::Backup(_)),
            self.max_size > 0 && incoming <= self.max_size ==> (r matches Ok(v)
                && strutil::strs_of(v@) == evict_ids_spec(
                backup_models(existing@),
                incoming as int,
                self.max_size as int,
            )),
    {
        if self.max_size == 0 {
            return Ok(Vec::new());
        }
        if incoming > self.max_size {
            return Err(
                RcleanerError::Backup("Backup size exceeds the configured limit".to_owned()),
            );
        }
        let sorted = sort_backups_by_ts(existing);
        Ok(compute_evictions(&sorted, incoming, self.max_size))
    }

    /// Decides which generations must leave so that what remains fits
    /// the budget, deleting oldest first; with no budget, none.
    pub fn plan_prune(&self, existing: &Vec<Backup>) -> (r: Vec<String>)
        ensures
            self.max_size == 0 ==> r@.len() == 0,
            self.max_size > 0 ==> strutil::strs_of(r@) == evict_ids_spec(
                backup_models(existing@),
                0,
                self.max_size as int,
            ),
    {
        if self.max_size == 0 {
            return Vec::new();
        }
        let sorted = sort_backups_by_ts(existing);
        compute_evictions(&sorted, 0, self.max_size)
    }
}

// ---------------------------------------------------------------------------
// Path sanitization
// ---------------------------------------------------------------------------

/// A component survives sanitization when it is a real name: not empty,
/// not `.`, not `..`.
pub open spec fn keep_component(p: Seq<char>) -> bool {
    p.len() > 0 && p != "."@ && p != ".."@
}

pub open spec fn kept_components(ps: Seq<Seq<char>>) -> Seq<Seq<char>>
    decreases ps.len(),
{
    if ps.len() == 0 {
        Seq::empty()
    } else {
        let rest = kept_components(ps.drop_last());
        if keep_component(ps.last()) {
            rest.push(ps.last())
        } else {
            rest
        }
    }
}

pub open spec fn join_slash(ps: Seq<Seq<char>>) -> Seq<char>
    decreases ps.len(),
{
    if ps.len() == 0 {
        Seq::empty()
    } else if ps.len() == 1 {
        ps[0]
    } else {
        join_slash(ps.drop_last()) + seq!['/'] + ps.last()
    }
}

/// The collision-free location of a path inside a generation: its real
/// components re-joined, so that root, `.` and `..` parts cannot escape
/// the generation directory.
pub open spec fn sanitize_spec(p: Seq<char>) -> Seq<char> {
    join_slash(kept_components(strutil::split_spec(p, '/')))
}

/// Sanitizes one path for use under a generation root.
pub fn sanitize_path(path: &str) -> (r: String)
    ensures
        r@ == sanitize_spec(path@),
{
    let chars = strutil::to_chars(path);
    let pieces = strutil::split_chars(&chars, '/');
    let dot = strutil::to_chars(".");
    let dotdot = strutil::to_chars("..");
    let mut kept: Vec<Vec<char>> = Vec::new();
    let mut i: usize = 0;
    proof {
        assert(strutil::seqs_of(pieces@).take(0) =~= Seq::<Seq<char>>::empty());
        assert(strutil::seqs_of(kept@) =~= kept_components(strutil::seqs_of(pieces@).take(0)));
    }
    while i < pieces.len()
        invariant
            i <= pieces.len(),
            dot@ == "."@,
            dotdot@ == ".."@,
            strutil::seqs_of(kept@) == kept_components(strutil::seqs_of(pieces@).take(i as int)),
        decreases pieces.len() - i,
    {
        proof {
            assert(strutil::seqs_of(pieces@).take(i + 1).drop_last() =~= strutil::seqs_of(
                pieces@,
            ).take(i as int));
            assert(strutil::seqs_of(pieces@).take(i + 1).last() == strutil::seqs_of(pieces@)[
                i as int
            ]);
            assert(strutil::seqs_of(pieces@)[i as int] == pieces@[i as int]@);
        }
        let piece = copy_at(&pieces, i);
        if piece.len() > 0 && !strutil::chars_eq(&piece, &dot) && !strutil::chars_eq(
            &piece,
            &dotdot,
        ) {
            let ghost kept_pre = strutil::seqs_of(kept@);
            kept.push(piece);
            proof {
                assert(strutil::seqs_of(kept@) =~= kept_pre.push(pieces@[i as int]@));
                assert(strutil::seqs_of(kept@) =~= kept_components(
                    strutil::seqs_of(pieces@).take(i + 1),
                ));
            }
        } else {
            proof {
                assert(strutil::seqs_of(kept@) =~= kept_components(
                    strutil::seqs_of(pieces@).take(i + 1),
                ));
            }
        }
        i = i + 1;
    }
    proof {
        assert(strutil::seqs_of(pieces@).take(pieces@.len() as int) =~= strutil::seqs_of(pieces@));
    }
    let mut joined: Vec<char> = Vec::new();
    let mut i: usize = 0;
    proof {
        assert(joined@ =~= join_slash(strutil::seqs_of(kept@).take(0)));
    }
    while i < kept.len()
        invariant
            i <= kept.len(),
            strutil::seqs_of(kept@) == kept_components(strutil::seqs_of(pieces@)),
            joined@ == join_slash(strutil::seqs_of(kept@).take(i as int)),
        decreases kept.len() - i,
    {
        let ghost joined_pre = joined@;
        if i > 0 {
            joined.push('/');
        }
        let mut j: usize = 0;
        let ghost mid = joined@;
        let n = kept[i].len();
        while j < n
            invariant
                j <= n,
                i < kept.len(),
                n == kept@[i as int]@.len(),
                joined@ =~= mid + kept@[i as int]@.take(j as int),
            decreases n - j,
        {
            let c = kept[i][j];
            joined.push(c);
            proof {
                assert(joined@ =~= mid + kept@[i as int]@.take(j + 1));
            }
            j = j + 1;
        }
        proof {
            let ghost piece = kept@[i as int]@;
            assert(piece.take(piece.len() as int) =~= piece);
            assert(strutil::seqs_of(kept@).take(i + 1).drop_last() =~= strutil::seqs_of(
                kept@,
            ).take(i as int));
            assert(strutil::seqs_of(kept@).take(i + 1).last() == strutil::seqs_of(kept@)[i as int]);
            if i == 0 {
                assert(joined@ =~= join_slash(strutil::seqs_of(kept@).take(1)));
            } else {
                assert(joined@ =~= joined_pre + seq!['/'] + piece);
                assert(joined@ =~= join_slash(strutil::seqs_of(kept@).take(i + 1)));
            }
        }
        i = i + 1;
    }
    proof {
        assert(strutil::seqs_of(kept@).take(kept@.len() as int) =~= strutil::seqs_of(kept@));
    }
    strutil::from_chars(&joined)
}

// ---------------------------------------------------------------------------
// Backup assembly
// ---------------------------------------------------------------------------

/// Total size of the files of a tree.
pub open spec fn tree_size(fs: Seq<TreeFile>) -> int
    decreases fs.len(),
{
    if fs.len() == 0 {
        0
    } else {
        tree_size(fs.drop_last()) + fs.last().data@.len()
    }
}

pub proof fn lemma_tree_size_nonneg(fs: Seq<TreeFile>)
    ensures
        tree_size(fs) >= 0,
    decreases fs.len(),
{
    if fs.len() > 0 {
        lemma_tree_size_nonneg(fs.drop_last());
    }
}

/// Size in bytes of what one path holds.
pub open spec fn node_size(n: PathNode) -> int {
    match n {
        PathNode::Missing => 0,
        PathNode::File(d) => d@.len() as int,
        PathNode::Dir(fs) => tree_size(fs@),
    }
}

pub proof fn lemma_node_size_nonneg(n: PathNode)
    ensures
        node_size(n) >= 0,
{
    match n {
        PathNode::Dir(fs) => lemma_tree_size_nonneg(fs@),
        _ => {}
    }
}

/// The fingerprint of what one path holds; empty for a missing path,
/// which is never recorded.
pub open spec fn node_checksum(n: PathNode) -> Seq<char> {
    match n {
        PathNode::Missing => Seq::empty(),
        PathNode::File(d) => checksum::checksum_of(d@),
        PathNode::Dir(fs) => checksum::dir_checksum_of(checksum::entry_models(fs@)),
    }
}

/// What the filesystem snapshot holds at a path: the first entry with
/// that path, or nothing.
pub open spec fn find_node_spec(sources: Seq<PathSource>, path: Seq<char>) -> PathNode
    decreases sources.len(),
{
    if sources.len() == 0 {
        PathNode::Missing
    } else if sources[0].path@ == path {
        sources[0].node
    } else {
        find_node_spec(sources.skip(1), path)
    }
}

fn find_node_idx(sources: &Vec<PathSource>, path: &String) -> (r: Option<usize>)
    ensures
        match r {
            Some(i) => i < sources@.len() && find_node_spec(sources@, path@) == sources@[
                i as int
            ].node,
            None => find_node_spec(sources@, path@) is Missing,
        },
{
    let mut k: usize = 0;
    proof {
        assert(sources@.skip(0) =~= sources@);
    }
    while k < sources.len()
        invariant
            k <= sources.len(),
            find_node_spec(sources@, path@) == find_node_spec(sources@.skip(k as int), path@),
        decreases sources.len() - k,
    {
        proof {
            assert(sources@.skip(k as int)[0] == sources@[k as int]);
            assert(sources@.skip(k as int).skip(1) =~= sources@.skip(k + 1));
        }
        if strutil::str_eq(sources[k].path.as_str(), path.as_str()) {
            return Some(k);
        }
        k = k + 1;
    }
    proof {
        assert(sources@.skip(sources@.len() as int) =~= Seq::<PathSource>::empty());
    }
    None
}

/// The estimated size of a backup: what the snapshot holds at each root,
/// summed; missing roots count zero.
pub open spec fn estimated_size(roots: Seq<Seq<char>>, sources: Seq<PathSource>) -> int
    decreases roots.len(),
{
    if roots.len() == 0 {
        0
    } else {
        node_size(find_node_spec(sources, roots[0])) + estimated_size(roots.skip(1), sources)
    }
}

pub proof fn lemma_estimated_size_nonneg(roots: Seq<Seq<char>>, sources: Seq<PathSource>)
    ensures
        estimated_size(roots, sources) >= 0,
    decreases roots.len(),
{
    if roots.len() > 0 {
        lemma_node_size_nonneg(find_node_spec(sources, roots[0]));
        lemma_estimated_size_nonneg(roots.skip(1), sources);
    }
}

/// The model of one recorded backup item.
pub open spec fn item_model_of(root: Seq<char>, node: PathNode, dir: Seq<char>, id: Seq<char>) -> BackupItemModel {
    BackupItemModel {
        original_path: root,
        backup_path: dir + "/"@ + id + "/"@ + sanitize_spec(root),
        size: node_size(node) as nat,
        checksum: node_checksum(node),
    }
}

/// The items a backup records: one per existing root, in root order.
pub open spec fn build_items_spec(
    roots: Seq<Seq<char>>,
    sources: Seq<PathSource>,
    dir: Seq<char>,
    id: Seq<char>,
) -> Seq<BackupItemModel>
    decreases roots.len(),
{
    if roots.len() == 0 {
        Seq::empty()
    } else {
        let node = find_node_spec(sources, roots[0]);
        let rest = build_items_spec(roots.skip(1), sources, dir, id);
        if node is Missing {
            rest
        } else {
            seq![item_model_of(roots[0], node, dir, id)] + rest
        }
    }
}

/// A planned backup: the generation to write and the generations that
/// retention evicts to make room for it.
#[derive(Debug)]
pub struct BackupPlan {
    pub backup: Backup,
    pub evict: Vec<String>,
}

fn node_size_exec(n: &PathNode) -> (r: u128)
    ensures
        r == node_size(*n),
{
    match n {
        PathNode::Missing => 0,
        PathNode::File(d) => d.len() as u128,
        PathNode::Dir(fs) => {
            let mut total: u128 = 0;
            let mut i: usize = 0;
            proof {
                assert(fs@.take(0) =~= Seq::<TreeFile>::empty());
                lemma_tree_size_nonneg(fs@);
            }
            while i < fs.len()
                invariant
                    i <= fs.len(),
                    total == tree_size(fs@.take(i as int)),
                    total <= i * 0x1_0000_0000_0000_0000,
                decreases fs.len() - i,
            {
                proof {
                    assert(fs@.take(i + 1).drop_last() =~= fs@.take(i as int));
                    assert(fs@.take(i + 1).last() == fs@[i as int]);
                    lemma_tree_size_nonneg(fs@.take(i as int));
                }
                let m = fs[i].data.len();
                total = total + (m as u128);
                i = i + 1;
            }
            proof {
                assert(fs@.take(fs@.len() as int) =~= fs@);
            }
            total
        }
    }
}

fn node_checksum_exec(n: &PathNode) -> (r: String)
    requires
        !(n is Missing),
    ensures
        r@ == node_checksum(*n),
{
    match n {
        PathNode::Missing => String::new(),
        PathNode::File(d) => checksum::file_checksum(d),
        PathNode::Dir(fs) => checksum::dir_checksum(fs),
    }
}

impl BackupManager {
    /// Plans one backup generation from the selected items and the
    /// snapshot of what the filesystem holds at the selected roots.
    ///
    /// Nothing to back up yields `Ok(None)`. A backup that cannot fit
    /// the budget even after evicting every generation is refused, and
    /// the plan then deletes nothing. Otherwise the generation record
    /// is assembled: one item per existing root, fingerprinted, placed
    /// under the generation directory, together with the retention
    /// evictions that make room for it.
    pub fn create_backup(
        &self,
        items: &Vec<CleanupItem>,
        sources: &Vec<PathSource>,
        existing: &Vec<Backup>,
        id: String,
        timestamp: i64,
    ) -> (r: Result<Option<BackupPlan>, RcleanerError>)
        requires
            estimated_size(select_roots_spec(items@), sources@) <= u64::MAX,
        ensures
            ({
                let roots = select_roots_spec(items@);
                let est = estimated_size(roots, sources@);
                &&& (roots.len() == 0 ==> r matches Ok(None))
                &&& (roots.len() > 0 && self.max_size > 0 && est > self.max_size ==> (
                    r matches Err(e) && e matches RcleanerError::Backup(_)))
                &&& (roots.len() > 0 && (self.max_size == 0 || est <= self.max_size) ==> (
                    r matches Ok(p) && p matches Some(plan) && {
                    &&& plan.backup.id@ == id@
                    &&& plan.backup.timestamp == timestamp
                    &&& item_models(plan.backup.items@) == build_items_spec(
                        roots,
                        sources@,
                        self.backup_dir@,
                        id@,
                    )
                    &&& plan.backup.size == est
                    &&& (self.max_size == 0 ==> plan.evict@.len() == 0)
                    &&& (self.max_size > 0 ==> strutil::strs_of(plan.evict@) == evict_ids_spec(
                        backup_models(existing@),
                        est,
                        self.max_size as int,
                    ))
                }))
            }),
    {
        let ghost roots_spec = select_roots_spec(items@);
        let roots = select_backup_roots(items);
        if roots.len() == 0 {
            return Ok(None);
        }
        proof {
            lemma_estimated_size_nonneg(roots_spec, sources@);
        }
        // Estimate the total size of what the roots hold.
        let mut est: u128 = 0;
        let mut i: usize = 0;
        proof {
            assert(roots_spec.skip(0) =~= roots_spec);
        }
        while i < roots.len()
            invariant
                i <= roots.len(),
                strutil::strs_of(roots@) == roots_spec,
                estimated_size(roots_spec, sources@) <= u64::MAX,
                estimated_size(roots_spec, sources@) == est + estimated_size(
                    roots_spec.skip(i as int),
                    sources@,
                ),
                est >= 0,
            decreases roots.len() - i,
        {
            proof {
                assert(roots_spec.skip(i as int)[0] == roots_spec[i as int]);
                assert(roots_spec.skip(i as int).skip(1) =~= roots_spec.skip(i + 1));
                assert(roots_spec[i as int] == roots@[i as int]@);
                lemma_estimated_size_nonneg(roots_spec.skip(i + 1), sources@);
                lemma_estimated_size_nonneg(roots_spec.skip(i as int), sources@);
            }
            let sz = match find_node_idx(sources, &roots[i]) {
                Some(k) => node_size_exec(&sources[k].node),
                None => 0,
            };
            proof {
                lemma_node_size_nonneg(find_node_spec(sources@, roots_spec[i as int]));
            }
            est = est + sz;
            i = i + 1;
        }
        proof {
            assert(roots_spec.skip(roots@.len() as int) =~= Seq::<Seq<char>>::empty());
            assert(est == estimated_size(roots_spec, sources@));
        }
        let est64: u64 = est as u64;
        let evict = match self.plan_capacity(existing, est64) {
            Ok(v) => v,
            Err(e) => {
                return Err(e);
            }
        };
        // Assemble the generation record.
        let mut built: Vec<BackupItem> = Vec::new();
        let mut total: u64 = 0;
        let mut i: usize = 0;
        proof {
            assert(item_models(built@) =~= Seq::<BackupItemModel>::empty());
            assert(build_items_spec(roots_spec, sources@, self.backup_dir@, id@) =~= item_models(
                built@,
            ) + build_items_spec(roots_spec.skip(0), sources@, self.backup_dir@, id@));
        }
        while i < roots.len()
            invariant
                i <= roots.len(),
                strutil::strs_of(roots@) == roots_spec,
                estimated_size(roots_spec, sources@) <= u64::MAX,
                build_items_spec(roots_spec, sources@, self.backup_dir@, id@) == item_models(
                    built@,
                ) + build_items_spec(roots_spec.skip(i as int), sources@, self.backup_dir@, id@),
                estimated_size(roots_spec, sources@) == total + estimated_size(
                    roots_spec.skip(i as int),
                    sources@,
                ),
            decreases roots.len() - i,
        {
            proof {
                assert(roots_spec.skip(i as int)[0] == roots_spec[i as int]);
                assert(roots_spec.skip(i as int).skip(1) =~= roots_spec.skip(i + 1));
                assert(roots_spec[i as int] == roots@[i as int]@);
                lemma_estimated_size_nonneg(roots_spec.skip(i + 1), sources@);
                lemma_node_size_nonneg(find_node_spec(sources@, roots_spec[i as int]));
            }
            match find_node_idx(sources, &roots[i]) {
                None => {
                    proof {
                        assert(item_models(built@) + build_items_spec(
                            roots_spec.skip(i + 1),
                            sources@,
                            self.backup_dir@,
                            id@,
                        ) =~= item_models(built@) + build_items_spec(
                            roots_spec.skip(i as int),
                            sources@,
                            self.backup_dir@,
                            id@,
                        ));
                    }
                }
                Some(k) => {
                    let node = &sources[k].node;
                    if matches!(node, PathNode::Missing) {
                        proof {
                            assert(item_models(built@) + build_items_spec(
                                roots_spec.skip(i + 1),
                                sources@,
                                self.backup_dir@,
                                id@,
                            ) =~= item_models(built@) + build_items_spec(
                                roots_spec.skip(i as int),
                                sources@,
                                self.backup_dir@,
                                id@,
                            ));
                        }
                    } else {
                        let sz128 = node_size_exec(node);
                        let sz: u64 = sz128 as u64;
                        let checksum_str = node_checksum_exec(node);
                        let sanitized = sanitize_path(roots[i].as_str());
                        let mut backup_path = self.backup_dir.clone();
                        backup_path.append("/");
                        backup_path.append(id.as_str());
                        backup_path.append("/");
                        backup_path.append(sanitized.as_str());
                        let ghost built_pre = item_models(built@);
                        let item = BackupItem {
                            original_path: roots[i].clone(),
                            backup_path,
                            size: sz,
                            checksum: checksum_str,
                        };
                        built.push(item);
                        total = total + sz;
                        proof {
                            let m = item_model_of(
                                roots_spec[i as int],
                                find_node_spec(sources@, roots_spec[i as int]),
                                self.backup_dir@,
                                id@,
                            );
                            assert(item_models(built@) =~= built_pre.push(m));
                            assert(built_pre.push(m) =~= built_pre + seq![m]);
                            assert(item_models(built@) + build_items_spec(
                                roots_spec.skip(i + 1),
                                sources@,
                                self.backup_dir@,
                                id@,
                            ) =~= built_pre + (seq![m] + build_items_spec(
                                roots_spec.skip(i + 1),
                                sources@,
                                self.backup_dir@,
                                id@,
                            )));
                        }
                    }
                }
            }
            i = i + 1;
        }
        proof {
            assert(roots_spec.skip(roots@.len() as int) =~= Seq::<Seq<char>>::empty());
            assert(item_models(built@) + Seq::<BackupItemModel>::empty() =~= item_models(built@));
            assert(item_models(built@) =~= build_items_spec(
                roots_spec,
                sources@,
                self.backup_dir@,
                id@,
            ));
        }
        let backup = Backup { id, timestamp, items: built, size: total };
        Ok(Some(BackupPlan { backup, evict }))
    }
}

/// Whether a preserved copy still matches its recorded fingerprint:
/// the optional verify-before-restore gate of a rollback.
pub fn verify_backup_item(item: &BackupItem, node: &PathNode) -> (r: bool)
    ensures
        r == (!(node is Missing) && item.checksum@ == node_checksum(*node)),
{
    match node {
        PathNode::Missing => false,
        _ => {
            let expected = node_checksum_exec(node);
            strutil::str_eq(item.checksum.as_str(), expected.as_str())
        }
    }
}

// ---------------------------------------------------------------------------
// Deletion model
// ---------------------------------------------------------------------------

/// The listed store after one generation is deleted by id: every other
/// generation stays, in order.
pub open spec fn store_after_delete(gens: Seq<BackupModel>, id: Seq<char>) -> Seq<BackupModel>
    decreases gens.len(),
{
    if gens.len() == 0 {
        Seq::empty()
    } else {
        let rest = store_after_delete(gens.drop_last(), id);
        if gens.last().id == id {
            rest
        } else {
            rest.push(gens.last())
        }
    }
}

/// Deleting an id that no listed generation carries changes nothing:
/// deletion is idempotent, and deleting an absent id succeeds trivially.
pub proof fn lemma_delete_absent_id_noop(gens: Seq<BackupModel>, id: Seq<char>)
    requires
        forall|i: int| 0 <= i < gens.len() ==> (#[trigger] gens[i]).id != id,
    ensures
        store_after_delete(gens, id) == gens,
    decreases gens.len(),
{
    if gens.len() > 0 {
        assert(forall|i: int|
            0 <= i < gens.drop_last().len() ==> gens.drop_last()[i] == gens[i]);
        lemma_delete_absent_id_noop(gens.drop_last(), id);
        assert(store_after_delete(gens, id) =~= gens);
    } else {
        assert(store_after_delete(gens, id) =~= gens);
    }
}

} // verus!
