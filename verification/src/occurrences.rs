//! Counting the occurrences of a literal pattern.
//!
//! Occurrences are counted by a scan from the left that resumes behind each
//! occurrence it finds, so counted occurrences never overlap: the pattern
//! `aa` is counted once in `aaa`. What is counted is defined for sequences of
//! any kind of element; the counting itself is done on bytes.

use vstd::prelude::*;

verus! {

/// Whether `pattern` stands in `content` at index `at`, element for element.
pub open spec fn occurs_at<A>(content: Seq<A>, pattern: Seq<A>, at: int) -> bool {
    &&& 0 <= at
    &&& at + pattern.len() <= content.len()
    &&& content.subrange(at, at + pattern.len()) == pattern
}

/// The number of occurrences that the scan counts from index `from` on.
///
/// An empty pattern is counted nowhere.
pub open spec fn occurrences_from<A>(content: Seq<A>, pattern: Seq<A>, from: int) -> nat
    decreases content.len() - from,
{
    if pattern.len() == 0 || from < 0 || from + pattern.len() > content.len() {
        0
    } else if occurs_at(content, pattern, from) {
        1 + occurrences_from(content, pattern, from + pattern.len())
    } else {
        occurrences_from(content, pattern, from + 1)
    }
}

/// The number of non-overlapping occurrences of `pattern` in `content`.
pub open spec fn occurrence_count<A>(content: Seq<A>, pattern: Seq<A>) -> nat {
    occurrences_from(content, pattern, 0)
}

/// Whether `starts` lists occurrences of `pattern` in `content` from left to
/// right, each ending before the next one begins.
pub open spec fn disjoint_occurrences<A>(content: Seq<A>, pattern: Seq<A>, starts: Seq<int>) -> bool {
    &&& forall|k: int| 0 <= k < starts.len() ==> occurs_at(content, pattern, #[trigger] starts[k])
    &&& forall|j: int, k: int|
        0 <= j < k < starts.len() ==> #[trigger] starts[j] + pattern.len() <= #[trigger] starts[k]
}

/// The start indices of the occurrences that the scan counts from `from` on.
pub open spec fn scanned_starts<A>(content: Seq<A>, pattern: Seq<A>, from: int) -> Seq<int>
    decreases content.len() - from,
{
    if pattern.len() == 0 || from < 0 || from + pattern.len() > content.len() {
        Seq::empty()
    } else if occurs_at(content, pattern, from) {
        seq![from] + scanned_starts(content, pattern, from + pattern.len())
    } else {
        scanned_starts(content, pattern, from + 1)
    }
}

proof fn lemma_scanned_starts<A>(content: Seq<A>, pattern: Seq<A>, from: int)
    ensures
        scanned_starts(content, pattern, from).len() == occurrences_from(content, pattern, from),
        disjoint_occurrences(content, pattern, scanned_starts(content, pattern, from)),
        forall|k: int|
            0 <= k < scanned_starts(content, pattern, from).len() ==> from <= #[trigger] scanned_starts(
                content,
                pattern,
                from,
            )[k],
    decreases content.len() - from,
{
    if pattern.len() == 0 || from < 0 || from + pattern.len() > content.len() {
    } else if occurs_at(content, pattern, from) {
        lemma_scanned_starts(content, pattern, from + pattern.len());
    } else {
        lemma_scanned_starts(content, pattern, from + 1);
    }
}

proof fn lemma_scan_is_ahead<A>(content: Seq<A>, pattern: Seq<A>, from: int, starts: Seq<int>)
    requires
        pattern.len() > 0,
        0 <= from,
        disjoint_occurrences(content, pattern, starts),
        forall|k: int| 0 <= k < starts.len() ==> from <= #[trigger] starts[k],
    ensures
        starts.len() <= occurrences_from(content, pattern, from),
    decreases content.len() - from,
{
    if starts.len() > 0 {
        let first = starts[0];
        assert(occurs_at(content, pattern, first));
        let rest = starts.drop_first();
        assert forall|k: int| 0 <= k < rest.len() implies occurs_at(
            content,
            pattern,
            #[trigger] rest[k],
        ) by {
            assert(rest[k] == starts[k + 1]);
        }
        assert forall|j: int, k: int| 0 <= j < k < rest.len() implies #[trigger] rest[j]
            + pattern.len() <= #[trigger] rest[k] by {
            assert(rest[j] == starts[j + 1]);
            assert(rest[k] == starts[k + 1]);
        }
        if occurs_at(content, pattern, from) {
            assert forall|k: int| 0 <= k < rest.len() implies from + pattern.len()
                <= #[trigger] rest[k] by {
                assert(rest[k] == starts[k + 1]);
                assert(starts[0] + pattern.len() <= starts[k + 1]);
            }
            lemma_scan_is_ahead(content, pattern, from + pattern.len(), rest);
        } else {
            assert forall|k: int| 0 <= k < starts.len() implies from + 1 <= #[trigger] starts[k] by {
                assert(occurs_at(content, pattern, starts[k]));
            }
            lemma_scan_is_ahead(content, pattern, from + 1, starts);
        }
    }
}

/// The occurrences that are counted are occurrences, and no two of them
/// overlap: the listed start indices are as many as the count.
pub proof fn occurrence_count_is_attained<A>(content: Seq<A>, pattern: Seq<A>)
    ensures
        disjoint_occurrences(content, pattern, scanned_starts(content, pattern, 0)),
        scanned_starts(content, pattern, 0).len() == occurrence_count(content, pattern),
{
    lemma_scanned_starts(content, pattern, 0);
}

/// No choice of non-overlapping occurrences of a non-empty pattern has more
/// members than the count.
pub proof fn occurrence_count_is_maximal<A>(content: Seq<A>, pattern: Seq<A>, starts: Seq<int>)
    requires
        pattern.len() > 0,
        disjoint_occurrences(content, pattern, starts),
    ensures
        starts.len() <= occurrence_count(content, pattern),
{
    assert forall|k: int| 0 <= k < starts.len() implies 0 <= #[trigger] starts[k] by {
        assert(occurs_at(content, pattern, starts[k]));
    }
    lemma_scan_is_ahead(content, pattern, 0, starts);
}

/// The count of a non-empty pattern is zero exactly when the pattern occurs
/// nowhere in the content.
pub proof fn occurrence_count_zero_iff_absent<A>(content: Seq<A>, pattern: Seq<A>)
    requires
        pattern.len() > 0,
    ensures
        occurrence_count(content, pattern) == 0 <==> forall|at: int|
            !occurs_at(content, pattern, at),
{
    if occurrence_count(content, pattern) == 0 {
        assert forall|at: int| !occurs_at(content, pattern, at) by {
            if occurs_at(content, pattern, at) {
                occurrence_count_is_maximal(content, pattern, seq![at]);
            }
        }
    } else {
        occurrence_count_is_attained(content, pattern);
        assert(occurs_at(content, pattern, scanned_starts(content, pattern, 0)[0]));
    }
}

/// The counted occurrences fit into the content side by side.
pub proof fn occurrence_count_is_bounded<A>(content: Seq<A>, pattern: Seq<A>)
    ensures
        occurrence_count(content, pattern) * pattern.len() <= content.len(),
{
    lemma_occurrences_fit(content, pattern, 0);
}

proof fn lemma_occurrences_fit<A>(content: Seq<A>, pattern: Seq<A>, from: int)
    requires
        0 <= from,
    ensures
        occurrences_from(content, pattern, from) * pattern.len() <= if from <= content.len() {
            content.len() - from
        } else {
            0
        },
    decreases content.len() - from,
{
    let m = pattern.len();
    if m == 0 || from + m > content.len() {
        assert(0 * m == 0) by (nonlinear_arith);
    } else if occurs_at(content, pattern, from) {
        lemma_occurrences_fit(content, pattern, from + m);
        let behind = occurrences_from(content, pattern, from + m);
        assert((1 + behind) * m == m + behind * m) by (nonlinear_arith);
    } else {
        lemma_occurrences_fit(content, pattern, from + 1);
    }
}

/// Tells whether `pattern` stands in `content` at index `at`. It stands
/// nowhere where it would reach beyond the end of the content.
pub fn matches_at(content: &[u8], pattern: &[u8], at: usize) -> (found: bool)
    ensures
        found == occurs_at(content@, pattern@, at as int),
{
    let n: usize = content.len();
    let m: usize = pattern.len();
    if at > n || m > n - at {
        return false;
    }
    let mut k: usize = 0;
    while k < m
        invariant
            n == content@.len(),
            m == pattern@.len(),
            at + m <= n,
            k <= m,
            forall|j: int| 0 <= j < k ==> content@[at + j] == pattern@[j],
        decreases m - k,
    {
        if content[at + k] != pattern[k] {
            proof {
                let window = content@.subrange(at as int, at + m);
                assert(window[k as int] == content@[at + k]);
            }
            return false;
        }
        k += 1;
    }
    assert(content@.subrange(at as int, at + m) =~= pattern@);
    true
}

/// Counts the non-overlapping occurrences of `pattern` in `content`.
pub fn count_occurrences(content: &[u8], pattern: &[u8]) -> (count: usize)
    ensures
        count == occurrence_count(content@, pattern@),
{
    let n: usize = content.len();
    let m: usize = pattern.len();
    if m == 0 || m > n {
        return 0;
    }
    let last: usize = n - m;
    let mut count: usize = 0;
    let mut at: usize = 0;
    while at <= last
        invariant
            n == content@.len(),
            m == pattern@.len(),
            0 < m <= n,
            last == n - m,
            at <= n,
            count <= at,
            count + occurrences_from(content@, pattern@, at as int) == occurrence_count(
                content@,
                pattern@,
            ),
        decreases n - at,
    {
        if matches_at(content, pattern, at) {
            count += 1;
            at += m;
        } else {
            at += 1;
        }
    }
    count
}

} // verus!
