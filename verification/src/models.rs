//! Core data model: cleanup candidates and aggregated cleanup results.

use vstd::prelude::*;

verus! {

/// Category a cleanup candidate belongs to.
#[derive(Clone, Copy, PartialEq, Eq, Structural, Debug)]
pub enum CleanupCategory {
    Cache,
    Applications,
    TempFiles,
    Logs,
    OldPackages,
    OldKernels,
}

/// Where a cleanup candidate came from.
#[derive(Clone, Debug)]
pub enum CleanupSource {
    FileSystem,
    PackageManager(String),
    Container(String),
}

/// A candidate for deletion.
#[derive(Clone, Debug)]
pub struct CleanupItem {
    /// Stable, backend-namespaced key.
    pub id: String,
    /// Display name.
    pub name: String,
    /// Filesystem path, absent for package or container items.
    pub path: Option<String>,
    /// Size in bytes, best effort.
    pub size: u64,
    /// Human-readable description.
    pub description: String,
    /// Cleanup category.
    pub category: CleanupCategory,
    /// Backend source.
    pub source: CleanupSource,
    /// Operator intent.
    pub selected: bool,
    /// Policy verdict; true until a check rejects the item.
    pub can_clean: bool,
    /// Reason the item was blocked, when a check rejected it.
    pub blocked_reason: Option<String>,
    /// Packages that would break if this item were removed.
    pub dependencies: Vec<String>,
}

/// Invariant of a checked item: a recorded blocking reason always comes
/// with a negative verdict.
pub open spec fn item_wf(item: CleanupItem) -> bool {
    item.blocked_reason is Some ==> !item.can_clean
}

/// Accumulated outcome of one or more clean operations.
#[derive(Clone, Debug)]
pub struct CleanupResult {
    /// Number of items cleaned.
    pub cleaned_items: usize,
    /// Bytes freed.
    pub freed_bytes: u64,
    /// Number of items skipped.
    pub skipped_items: usize,
    /// Ordered, human-readable failure messages.
    pub errors: Vec<String>,
}

/// Mathematical model of a `CleanupResult`.
#[verifier::ext_equal]
pub ghost struct ResultModel {
    pub cleaned: int,
    pub freed: int,
    pub skipped: int,
    pub errors: Seq<String>,
}

impl View for CleanupResult {
    type V = ResultModel;

    open spec fn view(&self) -> ResultModel {
        ResultModel {
            cleaned: self.cleaned_items as int,
            freed: self.freed_bytes as int,
            skipped: self.skipped_items as int,
            errors: self.errors@,
        }
    }
}

/// The empty result: merging it with any other result is the identity.
pub open spec fn empty_result() -> ResultModel {
    ResultModel { cleaned: 0, freed: 0, skipped: 0, errors: Seq::<String>::empty() }
}

/// Merging sums the three counters and concatenates the error lists in
/// order.
pub open spec fn spec_merge(a: ResultModel, b: ResultModel) -> ResultModel {
    ResultModel {
        cleaned: a.cleaned + b.cleaned,
        freed: a.freed + b.freed,
        skipped: a.skipped + b.skipped,
        errors: a.errors + b.errors,
    }
}

impl Default for CleanupResult {
    /// The all-zero result with no errors.
    fn default() -> (r: Self)
        ensures
            r@ == empty_result(),
    {
        let r = CleanupResult {
            cleaned_items: 0,
            freed_bytes: 0,
            skipped_items: 0,
            errors: Vec::new(),
        };
        proof {
            assert(r@.errors =~= Seq::<String>::empty());
            assert(r@ =~= empty_result());
        }
        r
    }
}

impl CleanupResult {
    /// Folds `other` into `self`: counters are summed, errors appended.
    pub fn merge(&mut self, other: &CleanupResult)
        requires
            old(self).cleaned_items + other.cleaned_items <= usize::MAX,
            old(self).freed_bytes + other.freed_bytes <= u64::MAX,
            old(self).skipped_items + other.skipped_items <= usize::MAX,
        ensures
            final(self)@ == spec_merge(old(self)@, other@),
    {
        self.cleaned_items = self.cleaned_items + other.cleaned_items;
        self.freed_bytes = self.freed_bytes + other.freed_bytes;
        self.skipped_items = self.skipped_items + other.skipped_items;
        let mut i: usize = 0;
        while i < other.errors.len()
            invariant
                i <= other.errors.len(),
                self.cleaned_items as int == old(self).cleaned_items + other.cleaned_items,
                self.freed_bytes as int == old(self).freed_bytes + other.freed_bytes,
                self.skipped_items as int == old(self).skipped_items + other.skipped_items,
                self.errors@ =~= old(self).errors@ + other.errors@.take(i as int),
            decreases other.errors.len() - i,
        {
            let msg = other.errors[i].clone();
            self.errors.push(msg);
            proof {
                assert(self.errors@ =~= old(self).errors@ + other.errors@.take(i + 1));
            }
            i = i + 1;
        }
        proof {
            assert(other.errors@.take(other.errors.len() as int) =~= other.errors@);
            assert(final(self)@ =~= spec_merge(old(self)@, other@));
        }
    }
}

/// Merging results is associative: folding `[a, b]` then `c` equals
/// folding `a` then `[b, c]`.
pub proof fn lemma_merge_associative(a: ResultModel, b: ResultModel, c: ResultModel)
    ensures
        spec_merge(spec_merge(a, b), c) == spec_merge(a, spec_merge(b, c)),
{
    assert(spec_merge(spec_merge(a, b), c) =~= spec_merge(a, spec_merge(b, c)));
}

/// The three counters of a merge do not depend on the merge order; only
/// the error list keeps the order of its operands.
pub proof fn lemma_merge_totals_commutative(a: ResultModel, b: ResultModel)
    ensures
        spec_merge(a, b).cleaned == spec_merge(b, a).cleaned,
        spec_merge(a, b).freed == spec_merge(b, a).freed,
        spec_merge(a, b).skipped == spec_merge(b, a).skipped,
{
}

/// The empty result is a two-sided identity of the merge.
pub proof fn lemma_merge_identity(a: ResultModel)
    ensures
        spec_merge(empty_result(), a) == a,
        spec_merge(a, empty_result()) == a,
{
    assert(spec_merge(empty_result(), a) =~= a);
    assert(spec_merge(a, empty_result()) =~= a);
}

} // verus!
