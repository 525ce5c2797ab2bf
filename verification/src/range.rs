//! Immutable ranges of Debian versions: a finite union of intervals under
//! the version order, with containment and algebraic combination. All
//! operations are total.

use vstd::prelude::*;
use core::cmp::Ordering;
use crate::debian_version::{version_cmp, DebianVersion};
use crate::version_order::{lemma_compare_antisymmetric, lemma_compare_reflexive, lemma_compare_transitive};

verus! {

/// One end of an interval.
#[derive(Debug)]
pub enum VersionBound {
    Unbounded,
    Included(DebianVersion),
    Excluded(DebianVersion),
}

/// Spec model of a bound: the version as a character sequence.
pub enum BoundModel {
    Unbounded,
    Included(Seq<char>),
    Excluded(Seq<char>),
}

impl View for VersionBound {
    type V = BoundModel;

    open spec fn view(&self) -> BoundModel {
        match self {
            VersionBound::Unbounded => BoundModel::Unbounded,
            VersionBound::Included(x) => BoundModel::Included(x@),
            VersionBound::Excluded(x) => BoundModel::Excluded(x@),
        }
    }
}

impl Clone for VersionBound {
    fn clone(&self) -> (r: Self)
        ensures
            r@ == self@,
    {
        match self {
            VersionBound::Unbounded => VersionBound::Unbounded,
            VersionBound::Included(x) => VersionBound::Included(x.clone()),
            VersionBound::Excluded(x) => VersionBound::Excluded(x.clone()),
        }
    }
}

/// Does `v` satisfy `b` read as a lower bound?
pub open spec fn lo_sat(b: BoundModel, v: Seq<char>) -> bool {
    match b {
        BoundModel::Unbounded => true,
        BoundModel::Included(x) => version_cmp(x, v) != Ordering::Greater,
        BoundModel::Excluded(x) => version_cmp(x, v) == Ordering::Less,
    }
}

/// Does `v` satisfy `b` read as an upper bound?
pub open spec fn hi_sat(b: BoundModel, v: Seq<char>) -> bool {
    match b {
        BoundModel::Unbounded => true,
        BoundModel::Included(x) => version_cmp(v, x) != Ordering::Greater,
        BoundModel::Excluded(x) => version_cmp(v, x) == Ordering::Less,
    }
}

/// A contiguous interval of versions.
#[derive(Debug)]
pub struct Interval {
    pub lo: VersionBound,
    pub hi: VersionBound,
}

pub struct IntervalModel {
    pub lo: BoundModel,
    pub hi: BoundModel,
}

impl View for Interval {
    type V = IntervalModel;

    open spec fn view(&self) -> IntervalModel {
        IntervalModel { lo: self.lo@, hi: self.hi@ }
    }
}

impl Clone for Interval {
    fn clone(&self) -> (r: Self)
        ensures
            r@ == self@,
    {
        Interval { lo: self.lo.clone(), hi: self.hi.clone() }
    }
}

pub open spec fn iv_contains(iv: IntervalModel, v: Seq<char>) -> bool {
    lo_sat(iv.lo, v) && hi_sat(iv.hi, v)
}

/// A set of versions expressible as a finite union of intervals.
#[derive(Debug)]
pub struct VersionRange {
    pub intervals: Vec<Interval>,
}

/// The models of a sequence of intervals.
pub open spec fn ivs_view(v: Seq<Interval>) -> Seq<IntervalModel> {
    v.map_values(|iv: Interval| iv@)
}

impl View for VersionRange {
    type V = Seq<IntervalModel>;

    open spec fn view(&self) -> Seq<IntervalModel> {
        ivs_view(self.intervals@)
    }
}

impl Clone for VersionRange {
    fn clone(&self) -> (r: Self)
        ensures
            r@ == self@,
    {
        let mut ivs: Vec<Interval> = Vec::new();
        let mut k: usize = 0;
        while k < self.intervals.len()
            invariant
                k <= self.intervals.len(),
                ivs@.len() == k,
                forall|j: int| 0 <= j < k ==> ivs@[j]@ == self.intervals@[j]@,
            decreases self.intervals.len() - k,
        {
            ivs.push(self.intervals[k].clone());
            k = k + 1;
        }
        let r = VersionRange { intervals: ivs };
        proof {
            assert(r@ =~= self@);
        }
        r
    }
}

pub open spec fn range_contains(r: Seq<IntervalModel>, v: Seq<char>) -> bool {
    exists|i: int| 0 <= i < r.len() && iv_contains(r[i], v)
}

proof fn lemma_range_concat(a: Seq<IntervalModel>, b: Seq<IntervalModel>, v: Seq<char>)
    ensures
        range_contains(a + b, v) <==> range_contains(a, v) || range_contains(b, v),
{
    if range_contains(a, v) {
        let i = choose|i: int| 0 <= i < a.len() && iv_contains(a[i], v);
        assert(iv_contains((a + b)[i], v));
    }
    if range_contains(b, v) {
        let i = choose|i: int| 0 <= i < b.len() && iv_contains(b[i], v);
        assert(iv_contains((a + b)[a.len() + i], v));
    }
    if range_contains(a + b, v) {
        let i = choose|i: int| 0 <= i < (a + b).len() && iv_contains((a + b)[i], v);
        if i < a.len() {
            assert(iv_contains(a[i], v));
        } else {
            assert(iv_contains(b[i - a.len()], v));
        }
    }
}

proof fn lemma_range_singleton(x: IntervalModel, v: Seq<char>)
    ensures
        range_contains(seq![x], v) <==> iv_contains(x, v),
{
    if iv_contains(x, v) {
        assert(iv_contains(seq![x][0], v));
    }
    if range_contains(seq![x], v) {
        let i = choose|i: int| 0 <= i < seq![x].len() && iv_contains(seq![x][i], v);
        assert(i == 0);
    }
}

impl VersionRange {
    /// Does the range contain the version `v`?
    pub open spec fn contains_spec(&self, v: Seq<char>) -> bool {
        range_contains(self@, v)
    }

    /// The range of all versions.
    pub fn full() -> (r: Self)
        ensures
            forall|v: Seq<char>| r.contains_spec(v),
            r@ == seq![IntervalModel { lo: BoundModel::Unbounded, hi: BoundModel::Unbounded }],
    {
        let mut ivs: Vec<Interval> = Vec::new();
        ivs.push(Interval { lo: VersionBound::Unbounded, hi: VersionBound::Unbounded });
        let r = VersionRange { intervals: ivs };
        proof {
            assert forall|v: Seq<char>| r.contains_spec(v) by {
                assert(iv_contains(r@[0], v));
            }
            assert(r@ =~= seq![
                IntervalModel { lo: BoundModel::Unbounded, hi: BoundModel::Unbounded },
            ]);
        }
        r
    }

    /// The range with no versions.
    pub fn empty() -> (r: Self)
        ensures
            forall|v: Seq<char>| !r.contains_spec(v),
    {
        VersionRange { intervals: Vec::new() }
    }

    /// Exactly the versions that compare equal to `v`.
    pub fn singleton(v: DebianVersion) -> (r: Self)
        ensures
            forall|w: Seq<char>| r.contains_spec(w) <==> version_cmp(v@, w) == Ordering::Equal,
            r.contains_spec(v@),
    {
        let ghost vv = v@;
        let mut ivs: Vec<Interval> = Vec::new();
        ivs.push(Interval { lo: VersionBound::Included(v.clone()), hi: VersionBound::Included(v) });
        let r = VersionRange { intervals: ivs };
        proof {
            assert forall|w: Seq<char>| r.contains_spec(w) <==> version_cmp(vv, w) == Ordering::Equal by {
                lemma_compare_antisymmetric(vv, w);
                assert(iv_contains(r@[0], w) <==> version_cmp(vv, w) == Ordering::Equal);
            }
            lemma_compare_reflexive(vv);
        }
        r
    }

    /// Versions greater than or equal to `v`.
    pub fn higher_or_equal(v: DebianVersion) -> (r: Self)
        ensures
            forall|w: Seq<char>| r.contains_spec(w) <==> version_cmp(v@, w) != Ordering::Greater,
            r.contains_spec(v@),
    {
        let ghost vv = v@;
        let mut ivs: Vec<Interval> = Vec::new();
        ivs.push(Interval { lo: VersionBound::Included(v), hi: VersionBound::Unbounded });
        let r = VersionRange { intervals: ivs };
        proof {
            assert forall|w: Seq<char>| r.contains_spec(w) <==> version_cmp(vv, w) != Ordering::Greater by {
                assert(iv_contains(r@[0], w) <==> version_cmp(vv, w) != Ordering::Greater);
            }
            lemma_compare_reflexive(vv);
        }
        r
    }

    /// Versions strictly greater than `v`.
    pub fn strictly_higher(v: DebianVersion) -> (r: Self)
        ensures
            forall|w: Seq<char>| r.contains_spec(w) <==> version_cmp(v@, w) == Ordering::Less,
            !r.contains_spec(v@),
    {
        let ghost vv = v@;
        let mut ivs: Vec<Interval> = Vec::new();
        ivs.push(Interval { lo: VersionBound::Excluded(v), hi: VersionBound::Unbounded });
        let r = VersionRange { intervals: ivs };
        proof {
            assert forall|w: Seq<char>| r.contains_spec(w) <==> version_cmp(vv, w) == Ordering::Less by {
                assert(iv_contains(r@[0], w) <==> version_cmp(vv, w) == Ordering::Less);
            }
            lemma_compare_reflexive(vv);
        }
        r
    }

    /// Versions less than or equal to `v`.
    pub fn lower_or_equal(v: DebianVersion) -> (r: Self)
        ensures
            forall|w: Seq<char>| r.contains_spec(w) <==> version_cmp(w, v@) != Ordering::Greater,
            r.contains_spec(v@),
    {
        let ghost vv = v@;
        let mut ivs: Vec<Interval> = Vec::new();
        ivs.push(Interval { lo: VersionBound::Unbounded, hi: VersionBound::Included(v) });
        let r = VersionRange { intervals: ivs };
        proof {
            assert forall|w: Seq<char>| r.contains_spec(w) <==> version_cmp(w, vv) != Ordering::Greater by {
                assert(iv_contains(r@[0], w) <==> version_cmp(w, vv) != Ordering::Greater);
            }
            lemma_compare_reflexive(vv);
        }
        r
    }

    /// Versions strictly less than `v`.
    pub fn strictly_lower(v: DebianVersion) -> (r: Self)
        ensures
            forall|w: Seq<char>| r.contains_spec(w) <==> version_cmp(w, v@) == Ordering::Less,
            !r.contains_spec(v@),
    {
        let ghost vv = v@;
        let mut ivs: Vec<Interval> = Vec::new();
        ivs.push(Interval { lo: VersionBound::Unbounded, hi: VersionBound::Excluded(v) });
        let r = VersionRange { intervals: ivs };
        proof {
            assert forall|w: Seq<char>| r.contains_spec(w) <==> version_cmp(w, vv) == Ordering::Less by {
                assert(iv_contains(r@[0], w) <==> version_cmp(w, vv) == Ordering::Less);
            }
            lemma_compare_reflexive(vv);
        }
        r
    }

    /// Membership test, consistent with the comparator.
    pub fn contains(&self, v: &DebianVersion) -> (r: bool)
        ensures
            r == self.contains_spec(v@),
    {
        let n = self.intervals.len();
        let mut k: usize = 0;
        while k < n
            invariant
                k <= n,
                n == self.intervals@.len(),
                forall|j: int| 0 <= j < k ==> !iv_contains(self@[j], v@),
            decreases n - k,
        {
            if interval_contains(&self.intervals[k], v) {
                proof {
                    assert(iv_contains(self@[k as int], v@));
                }
                return true;
            }
            k = k + 1;
        }
        false
    }

    /// The set union of two ranges.
    pub fn union(&self, other: &Self) -> (r: Self)
        ensures
            forall|w: Seq<char>|
                r.contains_spec(w) <==> self.contains_spec(w) || other.contains_spec(w),
    {
        let mut ivs: Vec<Interval> = self.clone().intervals;
        let mut k: usize = 0;
        let ghost base = self@;
        proof {
            assert(ivs_view(ivs@) =~= base + other@.take(0));
        }
        while k < other.intervals.len()
            invariant
                k <= other.intervals@.len(),
                ivs_view(ivs@) =~= base + other@.take(k as int),
            decreases other.intervals.len() - k,
        {
            let nxt = other.intervals[k].clone();
            let ghost gn = nxt@;
            let ghost mid = ivs_view(ivs@);
            proof {
                assert(other@[k as int] == other.intervals@[k as int]@);
                assert(gn == other@[k as int]);
            }
            ivs.push(nxt);
            proof {
                assert(ivs_view(ivs@) =~= mid + seq![gn]);
                assert(mid + seq![gn] =~= base + other@.take(k as int + 1));
            }
            k = k + 1;
        }
        let r = VersionRange { intervals: ivs };
        proof {
            assert(other@.take(other.intervals@.len() as int) =~= other@);
            assert(r@ =~= self@ + other@);
            assert forall|w: Seq<char>|
                r.contains_spec(w) <==> self.contains_spec(w) || other.contains_spec(w) by {
                lemma_range_concat(self@, other@, w);
            }
        }
        r
    }

    /// The set intersection of two ranges: every pairwise intersection of
    /// an interval of one with an interval of the other.
    pub fn intersection(&self, other: &Self) -> (r: Self)
        ensures
            forall|w: Seq<char>|
                r.contains_spec(w) <==> self.contains_spec(w) && other.contains_spec(w),
    {
        let mut acc = VersionRange::empty();
        let mut i: usize = 0;
        while i < self.intervals.len()
            invariant
                i <= self.intervals@.len(),
                forall|w: Seq<char>|
                    #[trigger] acc.contains_spec(w) <==> range_contains(
                        self@.take(i as int),
                        w,
                    ) && range_contains(other@, w),
            decreases self.intervals.len() - i,
        {
            let part = VersionRange { intervals: intersect_one(&self.intervals[i], other) };
            let next = acc.union(&part);
            proof {
                assert(self@[i as int] == self.intervals@[i as int]@);
                assert forall|w: Seq<char>|
                    #[trigger] next.contains_spec(w) <==> range_contains(self@.take(i as int + 1), w)
                        && range_contains(other@, w) by {
                    assert(self@.take(i as int + 1) =~= self@.take(i as int) + seq![
                        self@[i as int],
                    ]);
                    lemma_range_concat(self@.take(i as int), seq![self@[i as int]], w);
                    lemma_range_singleton(self@[i as int], w);
                }
            }
            acc = next;
            i = i + 1;
        }
        proof {
            assert(self@.take(self.intervals@.len() as int) =~= self@);
        }
        acc
    }

    /// A range that is syntactically empty holds no version at all. The
    /// test is conservative on an interval with two exclusive bounds in
    /// order: deciding that one would need a version strictly between them.
    pub fn is_empty(&self) -> (r: bool)
        ensures
            r == (forall|k: int| 0 <= k < self@.len() ==> iv_empty(#[trigger] self@[k])),
            r ==> forall|w: Seq<char>| !self.contains_spec(w),
    {
        let n = self.intervals.len();
        let mut k: usize = 0;
        while k < n
            invariant
                k <= n,
                n == self.intervals@.len(),
                forall|j: int| 0 <= j < k ==> iv_empty(#[trigger] self@[j]),
            decreases n - k,
        {
            if !interval_empty(&self.intervals[k]) {
                proof {
                    assert(self@[k as int] == self.intervals@[k as int]@);
                }
                return false;
            }
            k = k + 1;
        }
        proof {
            assert forall|w: Seq<char>| !self.contains_spec(w) by {
                if self.contains_spec(w) {
                    let j = choose|j: int| 0 <= j < self@.len() && iv_contains(self@[j], w);
                    lemma_iv_empty_sound(self@[j], w);
                }
            }
        }
        true
    }
}

fn interval_contains(iv: &Interval, v: &DebianVersion) -> (r: bool)
    ensures
        r == iv_contains(iv@, v@),
{
    let lo_ok = match &iv.lo {
        VersionBound::Unbounded => true,
        VersionBound::Included(x) => !matches!(x.compare(v), Ordering::Greater),
        VersionBound::Excluded(x) => matches!(x.compare(v), Ordering::Less),
    };
    if !lo_ok {
        return false;
    }
    match &iv.hi {
        VersionBound::Unbounded => true,
        VersionBound::Included(x) => !matches!(v.compare(x), Ordering::Greater),
        VersionBound::Excluded(x) => matches!(v.compare(x), Ordering::Less),
    }
}

/// The stricter of two lower bounds.
#[verifier::rlimit(100)]
fn max_lo(a: &VersionBound, b: &VersionBound) -> (r: VersionBound)
    ensures
        forall|w: Seq<char>| lo_sat(r@, w) <==> lo_sat(a@, w) && lo_sat(b@, w),
{
    match (a, b) {
        (VersionBound::Unbounded, _) => b.clone(),
        (_, VersionBound::Unbounded) => a.clone(),
        (VersionBound::Included(x1), VersionBound::Included(x2)) => {
            let r = if matches!(x1.compare(x2), Ordering::Less) {
                VersionBound::Included(x2.clone())
            } else {
                VersionBound::Included(x1.clone())
            };
            proof {
                lemma_compare_antisymmetric(x1@, x2@);
                assert forall|w: Seq<char>| lo_sat(r@, w) <==> lo_sat(a@, w) && lo_sat(b@, w) by {
                    lemma_compare_transitive(x1@, x2@, w);
                    lemma_compare_transitive(x2@, x1@, w);
                }
            }
            r
        },
        (VersionBound::Included(x1), VersionBound::Excluded(x2)) => {
            let r = if matches!(x1.compare(x2), Ordering::Greater) {
                VersionBound::Included(x1.clone())
            } else {
                VersionBound::Excluded(x2.clone())
            };
            proof {
                lemma_compare_antisymmetric(x1@, x2@);
                assert forall|w: Seq<char>| lo_sat(r@, w) <==> lo_sat(a@, w) && lo_sat(b@, w) by {
                    lemma_compare_transitive(x1@, x2@, w);
                    lemma_compare_transitive(x2@, x1@, w);
                }
            }
            r
        },
        (VersionBound::Excluded(x1), VersionBound::Included(x2)) => {
            let r = if matches!(x1.compare(x2), Ordering::Less) {
                VersionBound::Included(x2.clone())
            } else {
                VersionBound::Excluded(x1.clone())
            };
            proof {
                lemma_compare_antisymmetric(x1@, x2@);
                assert forall|w: Seq<char>| lo_sat(r@, w) <==> lo_sat(a@, w) && lo_sat(b@, w) by {
                    lemma_compare_transitive(x1@, x2@, w);
                    lemma_compare_transitive(x2@, x1@, w);
                }
            }
            r
        },
        (VersionBound::Excluded(x1), VersionBound::Excluded(x2)) => {
            let r = if matches!(x1.compare(x2), Ordering::Less) {
                VersionBound::Excluded(x2.clone())
            } else {
                VersionBound::Excluded(x1.clone())
            };
            proof {
                lemma_compare_antisymmetric(x1@, x2@);
                assert forall|w: Seq<char>| lo_sat(r@, w) <==> lo_sat(a@, w) && lo_sat(b@, w) by {
                    lemma_compare_transitive(x1@, x2@, w);
                    lemma_compare_transitive(x2@, x1@, w);
                }
            }
            r
        },
    }
}

/// The stricter of two upper bounds.
#[verifier::rlimit(100)]
fn min_hi(a: &VersionBound, b: &VersionBound) -> (r: VersionBound)
    ensures
        forall|w: Seq<char>| hi_sat(r@, w) <==> hi_sat(a@, w) && hi_sat(b@, w),
{
    match (a, b) {
        (VersionBound::Unbounded, _) => b.clone(),
        (_, VersionBound::Unbounded) => a.clone(),
        (VersionBound::Included(x1), VersionBound::Included(x2)) => {
            let r = if matches!(x1.compare(x2), Ordering::Greater) {
                VersionBound::Included(x2.clone())
            } else {
                VersionBound::Included(x1.clone())
            };
            proof {
                lemma_compare_antisymmetric(x1@, x2@);
                assert forall|w: Seq<char>| hi_sat(r@, w) <==> hi_sat(a@, w) && hi_sat(b@, w) by {
                    lemma_compare_transitive(w, x1@, x2@);
                    lemma_compare_transitive(w, x2@, x1@);
                }
            }
            r
        },
        (VersionBound::Included(x1), VersionBound::Excluded(x2)) => {
            let r = if matches!(x1.compare(x2), Ordering::Less) {
                VersionBound::Included(x1.clone())
            } else {
                VersionBound::Excluded(x2.clone())
            };
            proof {
                lemma_compare_antisymmetric(x1@, x2@);
                assert forall|w: Seq<char>| hi_sat(r@, w) <==> hi_sat(a@, w) && hi_sat(b@, w) by {
                    lemma_compare_transitive(w, x1@, x2@);
                    lemma_compare_transitive(w, x2@, x1@);
                }
            }
            r
        },
        (VersionBound::Excluded(x1), VersionBound::Included(x2)) => {
            let r = if matches!(x1.compare(x2), Ordering::Greater) {
                VersionBound::Included(x2.clone())
            } else {
                VersionBound::Excluded(x1.clone())
            };
            proof {
                lemma_compare_antisymmetric(x1@, x2@);
                assert forall|w: Seq<char>| hi_sat(r@, w) <==> hi_sat(a@, w) && hi_sat(b@, w) by {
                    lemma_compare_transitive(w, x1@, x2@);
                    lemma_compare_transitive(w, x2@, x1@);
                }
            }
            r
        },
        (VersionBound::Excluded(x1), VersionBound::Excluded(x2)) => {
            let r = if matches!(x1.compare(x2), Ordering::Greater) {
                VersionBound::Excluded(x2.clone())
            } else {
                VersionBound::Excluded(x1.clone())
            };
            proof {
                lemma_compare_antisymmetric(x1@, x2@);
                assert forall|w: Seq<char>| hi_sat(r@, w) <==> hi_sat(a@, w) && hi_sat(b@, w) by {
                    lemma_compare_transitive(w, x1@, x2@);
                    lemma_compare_transitive(w, x2@, x1@);
                }
            }
            r
        },
    }
}

fn intersect_interval(x: &Interval, y: &Interval) -> (r: Interval)
    ensures
        forall|w: Seq<char>| iv_contains(r@, w) <==> iv_contains(x@, w) && iv_contains(y@, w),
{
    Interval { lo: max_lo(&x.lo, &y.lo), hi: min_hi(&x.hi, &y.hi) }
}

/// Intersect one interval with every interval of `other`.
fn intersect_one(iv: &Interval, other: &VersionRange) -> (out: Vec<Interval>)
    ensures
        forall|w: Seq<char>|
            range_contains(#[trigger] ivs_view(out@), w) <==> iv_contains(iv@, w)
                && range_contains(other@, w),
{
    let mut out: Vec<Interval> = Vec::new();
    let mut j: usize = 0;
    while j < other.intervals.len()
        invariant
            j <= other.intervals@.len(),
            forall|w: Seq<char>|
                range_contains(#[trigger] ivs_view(out@), w) <==> iv_contains(iv@, w)
                    && range_contains(other@.take(j as int), w),
        decreases other.intervals.len() - j,
    {
        let ghost mid = ivs_view(out@);
        let cut = intersect_interval(iv, &other.intervals[j]);
        let ghost gc = cut@;
        out.push(cut);
        proof {
            let after = ivs_view(out@);
            assert(after =~= mid + seq![gc]);
            assert(other@[j as int] == other.intervals@[j as int]@);
            assert forall|w: Seq<char>|
                range_contains(after, w) <==> iv_contains(iv@, w) && range_contains(
                    other@.take(j as int + 1),
                    w,
                ) by {
                lemma_range_concat(mid, seq![gc], w);
                lemma_range_singleton(gc, w);
                assert(other@.take(j as int + 1) =~= other@.take(j as int) + seq![
                    other@[j as int],
                ]);
                lemma_range_concat(other@.take(j as int), seq![other@[j as int]], w);
                lemma_range_singleton(other@[j as int], w);
            }
        }
        j = j + 1;
    }
    proof {
        assert(other@.take(other.intervals@.len() as int) =~= other@);
    }
    out
}

/// Syntactic emptiness of an interval: its lower bound already rules out
/// everything its upper bound admits.
pub open spec fn iv_empty(iv: IntervalModel) -> bool {
    match (iv.lo, iv.hi) {
        (BoundModel::Included(x), BoundModel::Included(y)) => version_cmp(x, y)
            == Ordering::Greater,
        (BoundModel::Included(x), BoundModel::Excluded(y)) => version_cmp(x, y)
            != Ordering::Less,
        (BoundModel::Excluded(x), BoundModel::Included(y)) => version_cmp(x, y)
            != Ordering::Less,
        (BoundModel::Excluded(x), BoundModel::Excluded(y)) => version_cmp(x, y)
            != Ordering::Less,
        _ => false,
    }
}

proof fn lemma_iv_empty_sound(iv: IntervalModel, w: Seq<char>)
    requires
        iv_empty(iv),
    ensures
        !iv_contains(iv, w),
{
    match (iv.lo, iv.hi) {
        (BoundModel::Included(x), BoundModel::Included(y)) => {
            lemma_compare_transitive(x, w, y);
        },
        (BoundModel::Included(x), BoundModel::Excluded(y)) => {
            lemma_compare_transitive(x, w, y);
        },
        (BoundModel::Excluded(x), BoundModel::Included(y)) => {
            lemma_compare_transitive(x, w, y);
        },
        (BoundModel::Excluded(x), BoundModel::Excluded(y)) => {
            lemma_compare_transitive(x, w, y);
        },
        _ => {},
    }
}

fn interval_empty(iv: &Interval) -> (r: bool)
    ensures
        r == iv_empty(iv@),
{
    match (&iv.lo, &iv.hi) {
        (VersionBound::Included(x), VersionBound::Included(y)) => {
            matches!(x.compare(y), Ordering::Greater)
        },
        (VersionBound::Included(x), VersionBound::Excluded(y)) => {
            !matches!(x.compare(y), Ordering::Less)
        },
        (VersionBound::Excluded(x), VersionBound::Included(y)) => {
            !matches!(x.compare(y), Ordering::Less)
        },
        (VersionBound::Excluded(x), VersionBound::Excluded(y)) => {
            !matches!(x.compare(y), Ordering::Less)
        },
        _ => false,
    }
}

} // verus!
