//! An ordered map of non-overlapping ranges.
//!
//! Entries are kept sorted by the start rank of their range; no two
//! stored ranges overlap (touching is allowed).  Every mutating
//! operation either re-establishes this invariant or returns an error
//! and leaves the map unchanged.

use vstd::prelude::*;

use core::cmp::Ordering;

use crate::bound_ord::{
    end_key, end_rank, flip_end, flip_start, flipped_end, flipped_start,
    lemma_flipped_end_key, lemma_flipped_start_key, lemma_key_bounds, lemma_unbounded_end_max,
    lemma_unbounded_start_min, max_end, max_start, min_end, min_start, pick_max_end,
    pick_max_start, pick_min_end, pick_min_start, start_key, start_rank, Bound,
};
use crate::helpers::{r_end, r_start, spec_overlap, spec_valid};
use crate::try_from_bounds::TryFromBounds;

verus! {

/// A type usable as a stored range: it exposes its start and end bound
/// by value.
pub trait NiceRange: Sized + Copy {
    /// The start bound, as specifications see it.
    spec fn spec_start(&self) -> Bound;

    /// The end bound, as specifications see it.
    spec fn spec_end(&self) -> Bound;

    /// The start bound of the range.
    fn start(&self) -> (b: Bound)
        ensures
            b == self.spec_start(),
    ;

    /// The end bound of the range.
    fn end(&self) -> (b: Bound)
        ensures
            b == self.spec_end(),
    ;
}

/// A write collided with existing coverage where strict semantics were
/// requested.
#[derive(Clone, Copy, Debug, PartialEq, Eq, Structural)]
pub struct OverlapError;

/// A derived range could not be represented by the map's range type.
#[derive(Clone, Copy, Debug, PartialEq, Eq, Structural)]
pub struct TryFromBoundsError;

/// Either an [`OverlapError`] or a [`TryFromBoundsError`].
#[derive(Clone, Copy, Debug, PartialEq, Eq, Structural)]
pub enum OverlapOrTryFromBoundsError {
    Overlap(OverlapError),
    TryFromBounds(TryFromBoundsError),
}

/// Compares a stored range against the position at which a bound `bound`
/// begins when read as a start bound: `Less` if the range lies entirely
/// before that position, `Greater` if entirely after, `Equal` if the
/// position falls within the range.
pub fn comp_start<K: NiceRange>(bound: Bound, range: &K) -> (o: Ordering)
    requires
        spec_valid(*range),
    ensures
        (o == Ordering::Less) <==> r_end(*range) < start_key(bound),
        (o == Ordering::Greater) <==> start_key(bound) < r_start(*range),
        (o == Ordering::Equal) <==> (r_start(*range) <= start_key(bound) <= r_end(*range)),
{
    let p = start_rank(bound);
    if end_rank(range.end()) < p {
        Ordering::Less
    } else if p < start_rank(range.start()) {
        Ordering::Greater
    } else {
        Ordering::Equal
    }
}

/// Compares a stored range against the position at which a bound `bound`
/// stops when read as an end bound.
pub fn comp_end<K: NiceRange>(bound: Bound, range: &K) -> (o: Ordering)
    requires
        spec_valid(*range),
    ensures
        (o == Ordering::Less) <==> r_end(*range) < end_key(bound),
        (o == Ordering::Greater) <==> end_key(bound) < r_start(*range),
        (o == Ordering::Equal) <==> (r_start(*range) <= end_key(bound) <= r_end(*range)),
{
    let p = end_rank(bound);
    if end_rank(range.end()) < p {
        Ordering::Less
    } else if p < start_rank(range.start()) {
        Ordering::Greater
    } else {
        Ordering::Equal
    }
}

/// Well-formed entry sequence: every range is valid, and each entry
/// ends strictly below the rank where the next begins.  Entries are
/// therefore ascending by start rank and pairwise non-overlapping.
pub open spec fn entries_wf<K: NiceRange, V>(s: Seq<(K, V)>) -> bool {
    &&& forall|i: int| 0 <= i < s.len() ==> spec_valid((#[trigger] s[i]).0)
    &&& forall|i: int| 0 <= i < s.len() - 1 ==> r_end((#[trigger] s[i]).0) < r_start(s[i + 1].0)
}

/// In a well-formed sequence, any earlier entry ends strictly before
/// any later entry begins.
pub proof fn lemma_wf_far<K: NiceRange, V>(s: Seq<(K, V)>, i: int, j: int)
    requires
        entries_wf(s),
        0 <= i < j < s.len(),
    ensures
        r_end(s[i].0) < r_start(s[j].0),
        r_start(s[i].0) < r_start(s[j].0),
        r_end(s[i].0) < r_end(s[j].0),
    decreases j - i,
{
    assert(spec_valid(s[i].0));
    assert(spec_valid(s[j].0));
    if i + 1 < j {
        lemma_wf_far(s, i + 1, j);
        assert(spec_valid(s[i + 1].0));
    }
}

/// Every contiguous part of a well-formed sequence is well-formed.
pub proof fn lemma_wf_subrange<K: NiceRange, V>(s: Seq<(K, V)>, a: int, b: int)
    requires
        entries_wf(s),
        0 <= a <= b <= s.len(),
    ensures
        entries_wf(s.subrange(a, b)),
{
    let t = s.subrange(a, b);
    assert forall|i: int| 0 <= i < t.len() implies spec_valid((#[trigger] t[i]).0) by {
        assert(t[i] == s[a + i]);
    }
    assert forall|i: int| 0 <= i < t.len() - 1 implies r_end((#[trigger] t[i]).0) < r_start(
        t[i + 1].0,
    ) by {
        assert(t[i] == s[a + i]);
        assert(t[i + 1] == s[a + i + 1]);
    }
}

/// The number of leading entries lying entirely before start rank `qs`.
pub open spec fn lo_of<K: NiceRange, V>(s: Seq<(K, V)>, qs: int) -> int
    decreases s.len(),
{
    if s.len() == 0 {
        0
    } else if r_end(s[0].0) < qs {
        1 + lo_of(s.drop_first(), qs)
    } else {
        0
    }
}

/// One past the last entry whose start rank is at most `qe`: every
/// entry from this index on begins strictly after `qe`.
pub open spec fn hi_of<K: NiceRange, V>(s: Seq<(K, V)>, qe: int) -> int
    decreases s.len(),
{
    if s.len() == 0 {
        0
    } else if qe < r_start(s[s.len() - 1].0) {
        hi_of(s.drop_last(), qe)
    } else {
        s.len() as int
    }
}

/// What `lo_of` returns: the split point between the leading entries
/// ending below `qs` and the rest.
pub proof fn lemma_lo_of_char<K: NiceRange, V>(s: Seq<(K, V)>, qs: int)
    ensures
        0 <= lo_of(s, qs) <= s.len(),
        forall|i: int| 0 <= i < lo_of(s, qs) ==> r_end((#[trigger] s[i]).0) < qs,
        lo_of(s, qs) < s.len() ==> !(r_end(s[lo_of(s, qs)].0) < qs),
    decreases s.len(),
{
    if s.len() > 0 && r_end(s[0].0) < qs {
        let t = s.drop_first();
        lemma_lo_of_char(t, qs);
        assert forall|i: int| 0 <= i < lo_of(s, qs) implies r_end((#[trigger] s[i]).0) < qs by {
            if i >= 1 {
                assert(s[i] == t[i - 1]);
            }
        }
        if lo_of(s, qs) < s.len() {
            assert(s[lo_of(s, qs)] == t[lo_of(t, qs)]);
        }
    }
}

/// What `hi_of` returns, for a well-formed sequence: the split point
/// between the entries starting at or below `qe` and the rest.
pub proof fn lemma_hi_of_char<K: NiceRange, V>(s: Seq<(K, V)>, qe: int)
    requires
        entries_wf(s),
    ensures
        0 <= hi_of(s, qe) <= s.len(),
        forall|i: int| hi_of(s, qe) <= i < s.len() ==> qe < r_start((#[trigger] s[i]).0),
        forall|i: int| 0 <= i < hi_of(s, qe) ==> r_start((#[trigger] s[i]).0) <= qe,
    decreases s.len(),
{
    if s.len() > 0 && qe < r_start(s[s.len() - 1].0) {
        let t = s.drop_last();
        assert(t =~= s.subrange(0, s.len() - 1));
        lemma_wf_subrange(s, 0, s.len() - 1);
        lemma_hi_of_char(t, qe);
        assert forall|i: int| hi_of(s, qe) <= i < s.len() implies qe < r_start(
            (#[trigger] s[i]).0,
        ) by {
            if i < s.len() - 1 {
                assert(s[i] == t[i]);
            }
        }
        assert forall|i: int| 0 <= i < hi_of(s, qe) implies r_start((#[trigger] s[i]).0) <= qe by {
            assert(s[i] == t[i]);
        }
    } else if s.len() > 0 {
        assert forall|i: int| 0 <= i < hi_of(s, qe) implies r_start((#[trigger] s[i]).0) <= qe by {
            if i < s.len() - 1 {
                lemma_wf_far(s, i, s.len() - 1);
            }
        }
    }
}

/// For a valid query the two split points are ordered, and they bracket
/// exactly the entries overlapping the query.
pub proof fn lemma_window<K: NiceRange, V>(s: Seq<(K, V)>, qs: int, qe: int)
    requires
        entries_wf(s),
        qs <= qe,
    ensures
        0 <= lo_of(s, qs) <= hi_of(s, qe) <= s.len(),
        forall|i: int|
            lo_of(s, qs) <= i < hi_of(s, qe) ==> qs <= r_end((#[trigger] s[i]).0) && r_start(
                s[i].0,
            ) <= qe,
        forall|i: int| 0 <= i < lo_of(s, qs) ==> r_end((#[trigger] s[i]).0) < qs,
        forall|i: int| hi_of(s, qe) <= i < s.len() ==> qe < r_start((#[trigger] s[i]).0),
{
    lemma_lo_of_char(s, qs);
    lemma_hi_of_char(s, qe);
    let lo = lo_of(s, qs);
    let hi = hi_of(s, qe);
    if hi < lo {
        assert(spec_valid(s[hi].0));
        assert(false);
    }
    assert forall|i: int| lo <= i < hi implies qs <= r_end((#[trigger] s[i]).0) && r_start(s[i].0)
        <= qe by {
        if i > lo {
            lemma_wf_far(s, lo, i);
            assert(spec_valid(s[i].0));
        }
    }
}

/// The contiguous run of entries overlapping the query with start rank
/// `qs` and end rank `qe`.
pub open spec fn overlapping_entries<K: NiceRange, V>(s: Seq<(K, V)>, qs: int, qe: int) -> Seq<
    (K, V),
> {
    s.subrange(lo_of(s, qs), hi_of(s, qe))
}

/// A query overlaps some stored entry exactly when the overlapping run
/// is non-empty.
pub proof fn lemma_overlaps_iff_overlapping_nonempty<K: NiceRange, V, Q: NiceRange>(
    s: Seq<(K, V)>,
    q: Q,
)
    requires
        entries_wf(s),
        spec_valid(q),
    ensures
        (exists|i: int| 0 <= i < s.len() && spec_overlap((#[trigger] s[i]).0, q))
            <==> overlapping_entries(s, r_start(q), r_end(q)).len() > 0,
{
    let qs = r_start(q);
    let qe = r_end(q);
    lemma_window(s, qs, qe);
    let lo = lo_of(s, qs);
    let hi = hi_of(s, qe);
    if lo < hi {
        assert(spec_overlap(s[lo].0, q));
    } else {
        assert forall|i: int| 0 <= i < s.len() implies !spec_overlap((#[trigger] s[i]).0, q) by {
            if i < lo {
                assert(r_end(s[i].0) < qs);
            } else {
                assert(qe < r_start(s[i].0));
            }
        }
    }
}

/// The value stored at rank position `x`, if any entry covers it.
pub open spec fn value_at<K: NiceRange, V>(s: Seq<(K, V)>, x: int) -> Option<V>
    decreases s.len(),
{
    if s.len() == 0 {
        None
    } else if r_start(s[0].0) <= x <= r_end(s[0].0) {
        Some(s[0].1)
    } else {
        value_at(s.drop_first(), x)
    }
}

/// In a well-formed sequence, an entry covering `x` determines the
/// value there.
pub proof fn lemma_value_at_some<K: NiceRange, V>(s: Seq<(K, V)>, x: int, i: int)
    requires
        entries_wf(s),
        0 <= i < s.len(),
        r_start(s[i].0) <= x <= r_end(s[i].0),
    ensures
        value_at(s, x) == Some(s[i].1),
    decreases s.len(),
{
    if i > 0 {
        lemma_wf_far(s, 0, i);
        let t = s.drop_first();
        assert(t =~= s.subrange(1, s.len() as int));
        lemma_wf_subrange(s, 1, s.len() as int);
        assert(t[i - 1] == s[i]);
        lemma_value_at_some(t, x, i - 1);
    }
}

/// If no entry covers `x`, no value is stored there.
pub proof fn lemma_value_at_none<K: NiceRange, V>(s: Seq<(K, V)>, x: int)
    requires
        forall|i: int|
            0 <= i < s.len() ==> !(r_start((#[trigger] s[i]).0) <= x <= r_end(s[i].0)),
    ensures
        value_at(s, x) is None,
    decreases s.len(),
{
    if s.len() > 0 {
        let t = s.drop_first();
        assert forall|i: int|
            0 <= i < t.len() implies !(r_start((#[trigger] t[i]).0) <= x <= r_end(t[i].0)) by {
            assert(t[i] == s[i + 1]);
        }
        lemma_value_at_none(t, x);
    }
}

/// A stored value is witnessed by some entry covering the position.
pub proof fn lemma_value_at_cover<K: NiceRange, V>(s: Seq<(K, V)>, x: int)
    requires
        value_at(s, x) is Some,
    ensures
        exists|i: int|
            0 <= i < s.len() && r_start((#[trigger] s[i]).0) <= x <= r_end(s[i].0) && value_at(
                s,
                x,
            ) == Some(s[i].1),
    decreases s.len(),
{
    if s.len() > 0 {
        if r_start(s[0].0) <= x <= r_end(s[0].0) {
            assert(value_at(s, x) == Some(s[0].1));
        } else {
            let t = s.drop_first();
            lemma_value_at_cover(t, x);
            let j = choose|j: int|
                0 <= j < t.len() && r_start((#[trigger] t[j]).0) <= x <= r_end(t[j].0) && value_at(
                    t,
                    x,
                ) == Some(t[j].1);
            assert(t[j] == s[j + 1]);
        }
    }
}

/// The entry sequence wrapped by an option: empty, or a single entry.
pub open spec fn opt_seq<T>(o: Option<T>) -> Seq<T> {
    match o {
        Some(t) => seq![t],
        None => Seq::empty(),
    }
}

/// Dropping a contiguous run of entries keeps the sequence
/// well-formed.
pub proof fn lemma_drop_run_ok<K: NiceRange, V>(s: Seq<(K, V)>, t: Seq<(K, V)>, a: int, b: int)
    requires
        entries_wf(s),
        0 <= a <= b <= s.len(),
        t == s.subrange(0, a) + s.subrange(b, s.len() as int),
    ensures
        entries_wf(t),
{
    assert forall|i: int| 0 <= i < t.len() implies spec_valid((#[trigger] t[i]).0) by {
        if i < a {
            assert(t[i] == s[i]);
        } else {
            assert(t[i] == s[i - a + b]);
        }
    }
    assert forall|i: int| 0 <= i < t.len() - 1 implies r_end((#[trigger] t[i]).0) < r_start(
        t[i + 1].0,
    ) by {
        if i + 1 < a {
            assert(t[i] == s[i]);
            assert(t[i + 1] == s[i + 1]);
        } else if i + 1 == a {
            assert(t[i] == s[i]);
            assert(t[i + 1] == s[b]);
            if a < b {
                lemma_wf_far(s, i, b);
            }
        } else {
            assert(t[i] == s[i - a + b]);
            assert(t[i + 1] == s[i + 1 - a + b]);
        }
    }
}

/// The stored range covering rank position `x`, if any.
pub open spec fn lookup_at<K: NiceRange, V>(s: Seq<(K, V)>, x: int) -> Option<K> {
    if exists|i: int| 0 <= i < s.len() && r_start((#[trigger] s[i]).0) <= x <= r_end(s[i].0) {
        Some(
            s[choose|i: int|
                0 <= i < s.len() && r_start((#[trigger] s[i]).0) <= x <= r_end(s[i].0)].0,
        )
    } else {
        None
    }
}

/// A raw bound pair read as a range: valid when its start rank does not
/// exceed its end rank.
pub open spec fn pair_valid(p: (Bound, Bound)) -> bool {
    start_key(p.0) <= end_key(p.1)
}

/// Well-formed sequence of raw pieces: valid, ascending, pairwise
/// non-overlapping.
pub open spec fn pairs_wf<V>(ps: Seq<((Bound, Bound), V)>) -> bool {
    &&& forall|i: int| 0 <= i < ps.len() ==> pair_valid((#[trigger] ps[i]).0)
    &&& forall|i: int|
        0 <= i < ps.len() - 1 ==> end_key((#[trigger] ps[i]).0.1) < start_key(ps[i + 1].0.0)
}

/// The value a piece sequence holds at rank position `x`, if any.
pub open spec fn pair_value_at<V>(ps: Seq<((Bound, Bound), V)>, x: int) -> Option<V>
    decreases ps.len(),
{
    if ps.len() == 0 {
        None
    } else if start_key(ps[0].0.0) <= x <= end_key(ps[0].0.1) {
        Some(ps[0].1)
    } else {
        pair_value_at(ps.drop_first(), x)
    }
}

/// An entry clipped to its intersection with the cut bounds.
pub open spec fn clip_entry<K: NiceRange, V>(e: (K, V), qsb: Bound, qeb: Bound) -> (
    (Bound, Bound),
    V,
) {
    ((max_start(e.0.spec_start(), qsb), min_end(e.0.spec_end(), qeb)), e.1)
}

/// The pieces a cut returns: every overlapping entry clipped to the cut
/// bounds, in ascending order.
pub open spec fn cut_pieces<K: NiceRange, V>(s: Seq<(K, V)>, qsb: Bound, qeb: Bound) -> Seq<
    ((Bound, Bound), V),
> {
    overlapping_entries(s, start_key(qsb), end_key(qeb)).map_values(
        |e: (K, V)| clip_entry(e, qsb, qeb),
    )
}

/// Whether cutting with the given bounds must fail: a boundary
/// remainder that has to be re-inserted is not representable as `K`.
pub open spec fn cut_would_fail<K: NiceRange + TryFromBounds, V>(
    s: Seq<(K, V)>,
    qsb: Bound,
    qeb: Bound,
) -> bool {
    let qs = start_key(qsb);
    let qe = end_key(qeb);
    let lo = lo_of(s, qs);
    let hi = hi_of(s, qe);
    ||| (lo < hi && r_start(s[lo].0) < qs && !K::representable(
        s[lo].0.spec_start(),
        flipped_start(qsb),
    ))
    ||| (lo < hi && qe < r_end(s[hi - 1].0) && !K::representable(
        flipped_end(qeb),
        s[hi - 1].0.spec_end(),
    ))
}

/// The pieces of a cut are valid, ascending and pairwise
/// non-overlapping.
pub proof fn lemma_cut_pieces_wf<K: NiceRange, V>(s: Seq<(K, V)>, qsb: Bound, qeb: Bound)
    requires
        entries_wf(s),
        start_key(qsb) <= end_key(qeb),
    ensures
        pairs_wf(cut_pieces(s, qsb, qeb)),
{
    let qs = start_key(qsb);
    let qe = end_key(qeb);
    lemma_window(s, qs, qe);
    let lo = lo_of(s, qs);
    let hi = hi_of(s, qe);
    let ps = cut_pieces(s, qsb, qeb);
    assert forall|j: int| 0 <= j < ps.len() implies pair_valid((#[trigger] ps[j]).0) by {
        assert(ps[j] == clip_entry(s[lo + j], qsb, qeb));
        assert(spec_valid(s[lo + j].0));
    }
    assert forall|j: int| 0 <= j < ps.len() - 1 implies end_key((#[trigger] ps[j]).0.1)
        < start_key(ps[j + 1].0.0) by {
        assert(ps[j] == clip_entry(s[lo + j], qsb, qeb));
        assert(ps[j + 1] == clip_entry(s[lo + j + 1], qsb, qeb));
        assert(r_end(s[lo + j].0) < r_start(s[lo + j + 1].0));
    }
}

/// Relates the entry sequences before and after a successful cut: the
/// overlapping run is removed; a left remainder survives exactly when
/// the first overlapped entry started before the cut, a right remainder
/// exactly when the last overlapped entry ended after it.
pub open spec fn cut_shape<K: NiceRange, V>(
    s: Seq<(K, V)>,
    t: Seq<(K, V)>,
    qsb: Bound,
    qeb: Bound,
) -> bool {
    let qs = start_key(qsb);
    let qe = end_key(qeb);
    let lo = lo_of(s, qs);
    let hi = hi_of(s, qe);
    let nb: int = if lo < hi && r_start(s[lo].0) < qs {
        1
    } else {
        0
    };
    let na: int = if lo < hi && qe < r_end(s[hi - 1].0) {
        1
    } else {
        0
    };
    &&& t.len() == s.len() - (hi - lo) + nb + na
    &&& forall|i: int| 0 <= i < lo ==> t[i] == s[i]
    &&& nb == 1 ==> t[lo].0.spec_start() == s[lo].0.spec_start() && t[lo].0.spec_end()
        == flipped_start(qsb) && t[lo].1 == s[lo].1
    &&& na == 1 ==> t[lo + nb].0.spec_start() == flipped_end(qeb) && t[lo + nb].0.spec_end()
        == s[hi - 1].0.spec_end() && t[lo + nb].1 == s[hi - 1].1
    &&& forall|i: int| hi <= i < s.len() ==> t[i - (hi - lo) + nb + na] == #[trigger] s[i]
}

/// Whether splitting at the given start bound must fail: some entry
/// straddles the bound and one of its two parts is not representable
/// as `K`.
pub open spec fn split_would_fail<K: NiceRange + TryFromBounds, V>(s: Seq<(K, V)>, b: Bound) -> bool {
    let sb = start_key(b);
    let m = lo_of(s, sb);
    &&& m < s.len()
    &&& r_start(s[m].0) < sb
    &&& (!K::representable(s[m].0.spec_start(), flipped_start(b)) || !K::representable(
        b,
        s[m].0.spec_end(),
    ))
}

/// Relates the entry sequences of a successful split: `t` keeps the
/// entries lying entirely before the bound, `u` receives those
/// starting at or after it, and an entry straddling the bound is split
/// between the two with its value duplicated.
pub open spec fn split_shape<K: NiceRange, V>(
    s: Seq<(K, V)>,
    t: Seq<(K, V)>,
    u: Seq<(K, V)>,
    b: Bound,
) -> bool {
    let sb = start_key(b);
    let m = lo_of(s, sb);
    let st: int = if m < s.len() && r_start(s[m].0) < sb {
        1
    } else {
        0
    };
    &&& t.len() == m + st
    &&& u.len() == s.len() - m
    &&& forall|i: int| 0 <= i < m ==> t[i] == s[i]
    &&& st == 1 ==> t[m].0.spec_start() == s[m].0.spec_start() && t[m].0.spec_end()
        == flipped_start(b) && t[m].1 == s[m].1
    &&& st == 1 ==> u[0].0.spec_start() == b && u[0].0.spec_end() == s[m].0.spec_end() && u[0].1
        == s[m].1
    &&& forall|i: int| m + st <= i < s.len() ==> u[i - m] == #[trigger] s[i]
}

/// Whether some stored entry covers rank position `x`.
pub open spec fn covers_key<K: NiceRange, V>(s: Seq<(K, V)>, x: int) -> bool {
    exists|i: int| 0 <= i < s.len() && r_start((#[trigger] s[i]).0) <= x <= r_end(s[i].0)
}

/// Whether some gap of the sequence covers rank position `x`.
pub open spec fn gap_covers(gs: Seq<(Bound, Bound)>, x: int) -> bool {
    exists|g: int| 0 <= g < gs.len() && start_key((#[trigger] gs[g]).0) <= x <= end_key(gs[g].1)
}

/// Inserting an entry anywhere in a sequence adds exactly that entry
/// to its multiset of entries.
pub proof fn lemma_to_multiset_insert<A>(s: Seq<A>, i: int, a: A)
    requires
        0 <= i <= s.len(),
    ensures
        s.insert(i, a).to_multiset() == s.to_multiset().insert(a),
{
    broadcast use vstd::seq_lib::group_seq_properties;

    let x = s.subrange(0, i);
    let y = s.subrange(i, s.len() as int);
    assert(s =~= x + y);
    vstd::seq_lib::lemma_multiset_commutative(x, y);
    vstd::seq_lib::lemma_multiset_commutative(x.push(a), y);
    assert(s.insert(i, a) =~= x.push(a) + y);
    assert(x.push(a).to_multiset() =~= x.to_multiset().insert(a));
    assert(s.insert(i, a).to_multiset() =~= s.to_multiset().insert(a));
}

/// Whether, in the absence of overlap, a stored entry touches the
/// given range on its left (ends at the rank just below the range's
/// start).
pub open spec fn touch_left_of<K: NiceRange, V>(s: Seq<(K, V)>, k: K) -> bool {
    let lo = lo_of(s, r_start(k));
    lo > 0 && r_end(s[lo - 1].0) + 1 == r_start(k)
}

/// Whether, in the absence of overlap, a stored entry touches the
/// given range on its right.
pub open spec fn touch_right_of<K: NiceRange, V>(s: Seq<(K, V)>, k: K) -> bool {
    let lo = lo_of(s, r_start(k));
    lo < s.len() && r_start(s[lo].0) == r_end(k) + 1
}

/// The start bound of the range coalesced from `k` and its touching
/// neighbours.
pub open spec fn merged_touching_start<K: NiceRange, V>(s: Seq<(K, V)>, k: K) -> Bound {
    if touch_left_of(s, k) {
        s[lo_of(s, r_start(k)) - 1].0.spec_start()
    } else {
        k.spec_start()
    }
}

/// The end bound of the range coalesced from `k` and its touching
/// neighbours.
pub open spec fn merged_touching_end<K: NiceRange, V>(s: Seq<(K, V)>, k: K) -> Bound {
    if touch_right_of(s, k) {
        s[lo_of(s, r_start(k))].0.spec_end()
    } else {
        k.spec_end()
    }
}

/// The start bound of the range coalesced from `k` and everything it
/// overlaps.
pub open spec fn merged_overlapping_start<K: NiceRange, V>(s: Seq<(K, V)>, k: K) -> Bound {
    min_start(s[lo_of(s, r_start(k))].0.spec_start(), k.spec_start())
}

/// The end bound of the range coalesced from `k` and everything it
/// overlaps.
pub open spec fn merged_overlapping_end<K: NiceRange, V>(s: Seq<(K, V)>, k: K) -> Bound {
    max_end(s[hi_of(s, r_end(k)) - 1].0.spec_end(), k.spec_end())
}

/// The first entry absorbed when `k` coalesces with everything it
/// touches or overlaps.
pub open spec fn absorb_lo<K: NiceRange, V>(s: Seq<(K, V)>, k: K) -> int {
    let lo = lo_of(s, r_start(k));
    if lo > 0 && r_end(s[lo - 1].0) + 1 == r_start(k) {
        lo - 1
    } else {
        lo
    }
}

/// One past the last entry absorbed when `k` coalesces with everything
/// it touches or overlaps.
pub open spec fn absorb_hi<K: NiceRange, V>(s: Seq<(K, V)>, k: K) -> int {
    let hi = hi_of(s, r_end(k));
    if hi < s.len() && r_start(s[hi].0) == r_end(k) + 1 {
        hi + 1
    } else {
        hi
    }
}

/// Replacing a run of entries by one entry spanning no less keeps the
/// sequence well-formed, provided the new entry still fits strictly
/// between its neighbours.
#[verifier::rlimit(100)]
pub proof fn lemma_replace_run_ok<K: NiceRange, V>(
    s: Seq<(K, V)>,
    t: Seq<(K, V)>,
    a: int,
    b: int,
    e: (K, V),
)
    requires
        entries_wf(s),
        0 <= a <= b <= s.len(),
        spec_valid(e.0),
        a > 0 ==> r_end(s[a - 1].0) < r_start(e.0),
        b < s.len() ==> r_end(e.0) < r_start(s[b].0),
        t == s.subrange(0, a) + seq![e] + s.subrange(b, s.len() as int),
    ensures
        entries_wf(t),
{
    assert forall|i: int| 0 <= i < t.len() implies spec_valid((#[trigger] t[i]).0) by {
        if i < a {
            assert(t[i] == s[i]);
        } else if i > a {
            assert(t[i] == s[i - a - 1 + b]);
        }
    }
    assert forall|i: int| 0 <= i < t.len() - 1 implies r_end((#[trigger] t[i]).0) < r_start(
        t[i + 1].0,
    ) by {
        if i + 1 < a {
            assert(t[i] == s[i]);
            assert(t[i + 1] == s[i + 1]);
        } else if i + 1 == a {
            assert(t[i] == s[i]);
        } else if i == a {
            assert(t[i + 1] == s[b]);
        } else {
            assert(t[i] == s[i - a - 1 + b]);
            assert(t[i + 1] == s[i - a + b]);
        }
    }
}

/// Splitting at a bound, with the straddling entry (if any) replaced
/// by its two parts, yields two well-formed sequences of the split
/// shape.
#[verifier::rlimit(100)]
pub proof fn lemma_split_splice_ok<K: NiceRange, V>(
    s: Seq<(K, V)>,
    b: Bound,
    left_entry: Option<(K, V)>,
    right_entry: Option<(K, V)>,
    t: Seq<(K, V)>,
    u: Seq<(K, V)>,
)
    requires
        entries_wf(s),
        (left_entry is Some) <==> (lo_of(s, start_key(b)) < s.len() && r_start(
            s[lo_of(s, start_key(b))].0,
        ) < start_key(b)),
        (right_entry is Some) <==> (left_entry is Some),
        left_entry matches Some(e) ==> e.0.spec_start() == s[lo_of(s, start_key(b))].0.spec_start()
            && e.0.spec_end() == flipped_start(b) && e.1 == s[lo_of(s, start_key(b))].1,
        right_entry matches Some(e) ==> e.0.spec_start() == b && e.0.spec_end() == s[lo_of(
            s,
            start_key(b),
        )].0.spec_end() && e.1 == s[lo_of(s, start_key(b))].1,
        t == s.subrange(0, lo_of(s, start_key(b))) + opt_seq(left_entry),
        u == opt_seq(right_entry) + s.subrange(
            lo_of(s, start_key(b)) + (if left_entry is Some { 1int } else { 0 }),
            s.len() as int,
        ),
    ensures
        entries_wf(t),
        entries_wf(u),
        split_shape(s, t, u, b),
{
    let sb = start_key(b);
    lemma_lo_of_char(s, sb);
    let m = lo_of(s, sb);
    let st: int = if left_entry is Some {
        1
    } else {
        0
    };
    if st == 1 {
        lemma_unbounded_start_min(s[m].0.spec_start());
        lemma_flipped_start_key(b);
        assert(spec_valid(s[m].0));
    }
    assert(t.len() == m + st);
    assert(u.len() == s.len() - m);
    assert forall|i: int| 0 <= i < m implies t[i] == s[i] by {}
    assert forall|i: int| m + st <= i < s.len() implies u[i - m] == #[trigger] s[i] by {}
    assert(split_shape(s, t, u, b));
    assert forall|i: int| 0 <= i < t.len() implies spec_valid((#[trigger] t[i]).0) by {
        if i < m {
            assert(t[i] == s[i]);
        } else {
            assert(r_end(t[i].0) == sb - 1);
            assert(r_start(t[i].0) == r_start(s[m].0));
        }
    }
    assert forall|i: int| 0 <= i < t.len() - 1 implies r_end((#[trigger] t[i]).0) < r_start(
        t[i + 1].0,
    ) by {
        if i + 1 < m {
            assert(t[i] == s[i]);
            assert(t[i + 1] == s[i + 1]);
        } else {
            assert(t[i] == s[i]);
            assert(r_start(t[i + 1].0) == r_start(s[m].0));
        }
    }
    assert forall|i: int| 0 <= i < u.len() implies spec_valid((#[trigger] u[i]).0) by {
        if st == 1 && i == 0 {
            assert(r_start(u[0].0) == sb);
            assert(r_end(u[0].0) == r_end(s[m].0));
            assert(!(r_end(s[m].0) < sb));
        } else {
            assert(u[i] == s[i + m]);
        }
    }
    assert forall|i: int| 0 <= i < u.len() - 1 implies r_end((#[trigger] u[i]).0) < r_start(
        u[i + 1].0,
    ) by {
        if st == 1 && i == 0 {
            assert(r_end(u[0].0) == r_end(s[m].0));
            assert(u[1] == s[m + 1]);
        } else {
            assert(u[i] == s[i + m]);
            assert(u[i + 1] == s[i + 1 + m]);
        }
    }
}

/// The first half of the cut-splice proof: the shape relation and the
/// validity of every resulting entry.
#[verifier::rlimit(100)]
proof fn lemma_cut_splice_valid_part<K: NiceRange, V>(
    s: Seq<(K, V)>,
    t: Seq<(K, V)>,
    qsb: Bound,
    qeb: Bound,
    before_entry: Option<(K, V)>,
    after_entry: Option<(K, V)>,
)
    requires
        entries_wf(s),
        start_key(qsb) <= end_key(qeb),
        lo_of(s, start_key(qsb)) < hi_of(s, end_key(qeb)),
        t == s.subrange(0, lo_of(s, start_key(qsb))) + opt_seq(before_entry) + opt_seq(after_entry)
            + s.subrange(hi_of(s, end_key(qeb)), s.len() as int),
        (before_entry is Some) <==> r_start(s[lo_of(s, start_key(qsb))].0) < start_key(qsb),
        before_entry matches Some(e) ==> e.0.spec_start() == s[lo_of(s, start_key(qsb))].0.spec_start()
            && e.0.spec_end() == flipped_start(qsb) && e.1 == s[lo_of(s, start_key(qsb))].1,
        (after_entry is Some) <==> end_key(qeb) < r_end(s[hi_of(s, end_key(qeb)) - 1].0),
        after_entry matches Some(e) ==> e.0.spec_start() == flipped_end(qeb) && e.0.spec_end()
            == s[hi_of(s, end_key(qeb)) - 1].0.spec_end() && e.1 == s[hi_of(s, end_key(qeb)) - 1].1,
    ensures
        cut_shape(s, t, qsb, qeb),
        forall|j: int| 0 <= j < t.len() ==> spec_valid((#[trigger] t[j]).0),
{
    let qs = start_key(qsb);
    let qe = end_key(qeb);
    lemma_window(s, qs, qe);
    let lo = lo_of(s, qs);
    let hi = hi_of(s, qe);
    let nb: int = if before_entry is Some {
        1
    } else {
        0
    };
    let na: int = if after_entry is Some {
        1
    } else {
        0
    };
    if before_entry is Some {
        lemma_unbounded_start_min(s[lo].0.spec_start());
        lemma_flipped_start_key(qsb);
    }
    if after_entry is Some {
        lemma_unbounded_end_max(s[hi - 1].0.spec_end());
        lemma_flipped_end_key(qeb);
    }
    assert(spec_valid(s[lo].0));
    assert(spec_valid(s[hi - 1].0));
    assert forall|i: int| 0 <= i < lo implies t[i] == s[i] by {}
    assert forall|i: int| hi <= i < s.len() implies t[i - (hi - lo) + nb + na]
        == #[trigger] s[i] by {}
    assert(cut_shape(s, t, qsb, qeb));
    assert forall|j: int| 0 <= j < t.len() implies spec_valid((#[trigger] t[j]).0) by {
        if j < lo {
            assert(t[j] == s[j]);
        } else if j < lo + nb {
            assert(t[j] == (before_entry->Some_0));
        } else if j < lo + nb + na {
            assert(t[j] == (after_entry->Some_0));
        } else {
            assert(t[j] == s[j - (lo + nb + na) + hi]);
        }
    }
}

/// Replacing a non-empty overlapping run by its two boundary
/// remainders yields a well-formed sequence of the cut shape.
#[verifier::rlimit(100)]
pub proof fn lemma_cut_splice_ok<K: NiceRange, V>(
    s: Seq<(K, V)>,
    t: Seq<(K, V)>,
    qsb: Bound,
    qeb: Bound,
    before_entry: Option<(K, V)>,
    after_entry: Option<(K, V)>,
)
    requires
        entries_wf(s),
        start_key(qsb) <= end_key(qeb),
        lo_of(s, start_key(qsb)) < hi_of(s, end_key(qeb)),
        t == s.subrange(0, lo_of(s, start_key(qsb))) + opt_seq(before_entry) + opt_seq(after_entry)
            + s.subrange(hi_of(s, end_key(qeb)), s.len() as int),
        (before_entry is Some) <==> r_start(s[lo_of(s, start_key(qsb))].0) < start_key(qsb),
        before_entry matches Some(e) ==> e.0.spec_start() == s[lo_of(s, start_key(qsb))].0.spec_start()
            && e.0.spec_end() == flipped_start(qsb) && e.1 == s[lo_of(s, start_key(qsb))].1,
        (after_entry is Some) <==> end_key(qeb) < r_end(s[hi_of(s, end_key(qeb)) - 1].0),
        after_entry matches Some(e) ==> e.0.spec_start() == flipped_end(qeb) && e.0.spec_end()
            == s[hi_of(s, end_key(qeb)) - 1].0.spec_end() && e.1 == s[hi_of(s, end_key(qeb)) - 1].1,
    ensures
        entries_wf(t),
        cut_shape(s, t, qsb, qeb),
{
    lemma_cut_splice_valid_part(s, t, qsb, qeb, before_entry, after_entry);
    let qs = start_key(qsb);
    let qe = end_key(qeb);
    lemma_window(s, qs, qe);
    let lo = lo_of(s, qs);
    let hi = hi_of(s, qe);
    let nb: int = if before_entry is Some {
        1
    } else {
        0
    };
    let na: int = if after_entry is Some {
        1
    } else {
        0
    };
    if before_entry is Some {
        lemma_unbounded_start_min(s[lo].0.spec_start());
        lemma_flipped_start_key(qsb);
    }
    if after_entry is Some {
        lemma_unbounded_end_max(s[hi - 1].0.spec_end());
        lemma_flipped_end_key(qeb);
    }
    assert(spec_valid(s[lo].0));
    assert(spec_valid(s[hi - 1].0));
    assert forall|j: int| 0 <= j < t.len() - 1 implies r_end((#[trigger] t[j]).0) < r_start(
        t[j + 1].0,
    ) by {
        let x = t[j];
        let y = t[j + 1];
        if j + 1 < lo {
            assert(x == s[j]);
            assert(y == s[j + 1]);
        } else if j + 1 == lo {
            // prefix against what replaced the run
            assert(x == s[j]);
            assert(r_end(s[j].0) < r_start(s[lo].0));
            if nb == 1 {
                assert(r_start(y.0) == r_start(s[lo].0));
            } else if na == 1 {
                assert(r_start(y.0) == qe + 1);
                assert(r_end(s[j].0) < qs);
            } else {
                assert(y == s[hi]);
                assert(r_end(s[j].0) < qs);
                assert(qe < r_start(s[hi].0));
            }
        } else if j == lo && nb == 1 {
            // left remainder against what follows it
            assert(r_end(x.0) == qs - 1);
            if na == 1 {
                assert(r_start(y.0) == qe + 1);
            } else {
                assert(y == s[hi]);
                assert(qe < r_start(s[hi].0));
            }
        } else if j == lo + nb && na == 1 {
            // right remainder against the suffix
            assert(r_end(x.0) == r_end(s[hi - 1].0));
            assert(y == s[hi]);
            lemma_wf_far(s, hi - 1, hi);
        } else {
            // within the suffix
            assert(x == s[j - (lo + nb + na) + hi]);
            assert(y == s[j + 1 - (lo + nb + na) + hi]);
        }
    }
}

/// Compares two ranges by the rank of their start bound, the order in
/// which the map stores its entries.
pub fn double_comp<K: NiceRange>(a: &K, b: &K) -> (o: Ordering)
    ensures
        (o == Ordering::Less) <==> r_start(*a) < r_start(*b),
        (o == Ordering::Greater) <==> r_start(*b) < r_start(*a),
        (o == Ordering::Equal) <==> r_start(*a) == r_start(*b),
{
    let ka = start_rank(a.start());
    let kb = start_rank(b.start());
    if ka < kb {
        Ordering::Less
    } else if kb < ka {
        Ordering::Greater
    } else {
        Ordering::Equal
    }
}

/// One step of the gap computation: absorbing the next stored entry,
/// and the gap possibly emitted just before it, preserves all gap
/// invariants.
#[verifier::rlimit(100)]
proof fn lemma_gaps_step<K: NiceRange, V>(
    s: Seq<(K, V)>,
    old_out: Seq<(Bound, Bound)>,
    new_out: Seq<(Bound, Bound)>,
    old_cur: Bound,
    gend: Bound,
    old_key: int,
    new_key: int,
    osi: int,
    oei: int,
    k: int,
    emit: bool,
)
    requires
        entries_wf(s),
        0 <= k < s.len(),
        osi <= oei,
        osi <= old_key,
        new_key == if old_key >= r_end(s[k].0) + 1 {
            old_key
        } else {
            r_end(s[k].0) + 1
        },
        emit <==> (old_key <= end_key(gend) && old_key < r_start(s[k].0)),
        emit ==> start_key(old_cur) == old_key,
        emit ==> end_key(gend) <= oei,
        emit ==> end_key(gend) <= r_start(s[k].0) - 1,
        emit ==> (end_key(gend) == r_start(s[k].0) - 1 || end_key(gend) == oei),
        emit ==> new_out == old_out.push((old_cur, gend)),
        !emit ==> new_out == old_out,
        !emit ==> (old_key >= r_start(s[k].0) || old_key > oei),
        forall|i: int| 0 <= i < k ==> r_end((#[trigger] s[i]).0) < old_key,
        forall|g: int| 0 <= g < old_out.len() ==> pair_valid(#[trigger] old_out[g]),
        forall|g: int|
            0 <= g < old_out.len() ==> osi <= start_key((#[trigger] old_out[g]).0) && end_key(
                old_out[g].1,
            ) <= oei,
        forall|g: int| 0 <= g < old_out.len() ==> end_key((#[trigger] old_out[g]).1) + 1 < old_key,
        forall|g: int, i: int|
            0 <= g < old_out.len() && 0 <= i < s.len() ==> !(start_key((#[trigger] old_out[g]).0)
                <= r_end((#[trigger] s[i]).0) && r_start(s[i].0) <= end_key(old_out[g].1)),
        forall|g: int|
            0 <= g < old_out.len() - 1 ==> end_key((#[trigger] old_out[g]).1) + 1 < start_key(
                old_out[g + 1].0,
            ),
        forall|x: int|
            osi <= x <= oei && x < old_key ==> covers_key(s, x) || gap_covers(old_out, x),
    ensures
        osi <= new_key,
        forall|i: int| 0 <= i < k + 1 ==> r_end((#[trigger] s[i]).0) < new_key,
        forall|g: int| 0 <= g < new_out.len() ==> pair_valid(#[trigger] new_out[g]),
        forall|g: int|
            0 <= g < new_out.len() ==> osi <= start_key((#[trigger] new_out[g]).0) && end_key(
                new_out[g].1,
            ) <= oei,
        forall|g: int| 0 <= g < new_out.len() ==> end_key((#[trigger] new_out[g]).1) + 1 < new_key,
        forall|g: int, i: int|
            0 <= g < new_out.len() && 0 <= i < s.len() ==> !(start_key((#[trigger] new_out[g]).0)
                <= r_end((#[trigger] s[i]).0) && r_start(s[i].0) <= end_key(new_out[g].1)),
        forall|g: int|
            0 <= g < new_out.len() - 1 ==> end_key((#[trigger] new_out[g]).1) + 1 < start_key(
                new_out[g + 1].0,
            ),
        forall|x: int|
            osi <= x <= oei && x < new_key ==> covers_key(s, x) || gap_covers(new_out, x),
{
    assert(spec_valid(s[k].0));
    assert forall|g: int| 0 <= g < new_out.len() implies pair_valid(#[trigger] new_out[g]) && osi
        <= start_key(new_out[g].0) && end_key(new_out[g].1) <= oei && end_key(new_out[g].1) + 1
        < new_key by {
        if g < old_out.len() {
            assert(new_out[g] == old_out[g]);
        } else {
            assert(new_out[g] == (old_cur, gend));
        }
    }
    assert forall|g: int, i: int|
        0 <= g < new_out.len() && 0 <= i < s.len() implies !(start_key((#[trigger] new_out[g]).0)
        <= r_end((#[trigger] s[i]).0) && r_start(s[i].0) <= end_key(new_out[g].1)) by {
        if g < old_out.len() {
            assert(new_out[g] == old_out[g]);
        } else {
            assert(new_out[g] == (old_cur, gend));
            if i < k {
                assert(r_end(s[i].0) < old_key);
            } else {
                if i > k {
                    lemma_wf_far(s, k, i);
                }
                assert(end_key(gend) < r_start(s[i].0));
            }
        }
    }
    assert forall|g: int| 0 <= g < new_out.len() - 1 implies end_key((#[trigger] new_out[g]).1) + 1
        < start_key(new_out[g + 1].0) by {
        if g + 1 < old_out.len() {
            assert(new_out[g] == old_out[g]);
            assert(new_out[g + 1] == old_out[g + 1]);
        } else {
            assert(new_out[g] == old_out[g]);
            assert(new_out[g + 1] == (old_cur, gend));
            assert(end_key(old_out[g].1) + 1 < start_key(old_cur));
        }
    }
    assert forall|x: int|
        osi <= x <= oei && x < new_key implies covers_key(s, x) || gap_covers(new_out, x) by {
        if x < old_key {
            if gap_covers(old_out, x) {
                let g = choose|g: int|
                    0 <= g < old_out.len() && start_key((#[trigger] old_out[g]).0) <= x <= end_key(
                        old_out[g].1,
                    );
                assert(new_out[g] == old_out[g]);
                assert(gap_covers(new_out, x));
            }
        } else {
            // x lies between the old cursor and the new one
            if emit && x <= end_key(gend) {
                assert(new_out[new_out.len() - 1] == (old_cur, gend));
                assert(gap_covers(new_out, x));
            } else {
                assert(r_start(s[k].0) <= x) by {
                    if emit {
                        assert(x > end_key(gend));
                    }
                }
                assert(x <= r_end(s[k].0));
                assert(covers_key(s, x));
            }
        }
    }
}

/// An ordered map of non-overlapping ranges to values, stored sorted by
/// the start rank of the range.
pub struct RangeBoundsMap<K, V> {
    inner: Vec<(K, V)>,
}

impl<K, V> View for RangeBoundsMap<K, V> {
    type V = Seq<(K, V)>;

    closed spec fn view(&self) -> Seq<(K, V)> {
        self.inner@
    }
}

impl<K: NiceRange + TryFromBounds, V: Copy> RangeBoundsMap<K, V> {
    /// The map invariant: entries are valid, ascending by start rank,
    /// and pairwise non-overlapping.
    pub open spec fn wf(self) -> bool {
        entries_wf(self@)
    }

    /// Makes a new, empty map.
    pub fn new() -> (r: Self)
        ensures
            r@ == Seq::<(K, V)>::empty(),
            r.wf(),
    {
        RangeBoundsMap { inner: Vec::new() }
    }

    /// The number of ranges in the map.
    pub fn len(&self) -> (r: usize)
        ensures
            r == self@.len(),
    {
        self.inner.len()
    }

    /// Whether the map contains no ranges.
    pub fn is_empty(&self) -> (r: bool)
        ensures
            r == (self@.len() == 0),
    {
        self.inner.is_empty()
    }

    /// The split point below the run of entries overlapping a query
    /// with start rank `qs`.
    #[verifier::rlimit(50)]
    fn find_lo(&self, qs: i128) -> (lo: usize)
        requires
            self.wf(),
        ensures
            lo as int == lo_of(self@, qs as int),
    {
        let ghost q = qs as int;
        let mut a: usize = 0;
        let mut b: usize = self.inner.len();
        while a < b
            invariant
                q == qs as int,
                0 <= a <= b <= self@.len(),
                self.wf(),
                forall|i: int| 0 <= i < a ==> r_end((#[trigger] self@[i]).0) < q,
                forall|i: int| b <= i < self@.len() ==> !(r_end((#[trigger] self@[i]).0) < q),
            decreases b - a,
        {
            let mid = a + (b - a) / 2;
            let e = self.inner[mid];
            proof {
                assert(e == self@[mid as int]);
            }
            let ek = end_rank(e.0.end());
            if ek < qs {
                proof {
                    assert(r_end(self@[mid as int].0) < q);
                    assert forall|i: int| 0 <= i < mid + 1 implies r_end((#[trigger] self@[i]).0)
                        < q by {
                        if i < mid {
                            lemma_wf_far(self@, i, mid as int);
                            assert(spec_valid(self@[mid as int].0));
                        }
                    }
                }
                a = mid + 1;
            } else {
                proof {
                    assert(!(r_end(self@[mid as int].0) < q));
                    assert forall|i: int| mid <= i < self@.len() implies !(r_end(
                        (#[trigger] self@[i]).0,
                    ) < q) by {
                        if i > mid {
                            lemma_wf_far(self@, mid as int, i);
                            assert(spec_valid(self@[i].0));
                        }
                    }
                }
                b = mid;
            }
        }
        proof {
            lemma_lo_of_char(self@, q);
            let l = lo_of(self@, q);
            if l < a {
                assert(r_end(self@[l].0) < q);
            }
            if a < l {
                assert(r_end(self@[a as int].0) < q);
            }
        }
        a
    }

    /// The split point above the run of entries overlapping a query
    /// with end rank `qe`.
    #[verifier::rlimit(50)]
    fn find_hi(&self, qe: i128) -> (hi: usize)
        requires
            self.wf(),
        ensures
            hi as int == hi_of(self@, qe as int),
    {
        let ghost q = qe as int;
        let mut a: usize = 0;
        let mut b: usize = self.inner.len();
        while a < b
            invariant
                q == qe as int,
                0 <= a <= b <= self@.len(),
                self.wf(),
                forall|i: int| 0 <= i < a ==> r_start((#[trigger] self@[i]).0) <= q,
                forall|i: int| b <= i < self@.len() ==> q < r_start((#[trigger] self@[i]).0),
            decreases b - a,
        {
            let mid = a + (b - a) / 2;
            let e = self.inner[mid];
            proof {
                assert(e == self@[mid as int]);
            }
            let sk = start_rank(e.0.start());
            if sk <= qe {
                proof {
                    assert(r_start(self@[mid as int].0) <= q);
                    assert forall|i: int| 0 <= i < mid + 1 implies r_start(
                        (#[trigger] self@[i]).0,
                    ) <= q by {
                        if i < mid {
                            lemma_wf_far(self@, i, mid as int);
                        }
                    }
                }
                a = mid + 1;
            } else {
                proof {
                    assert(q < r_start(self@[mid as int].0));
                    assert forall|i: int| mid <= i < self@.len() implies q < r_start(
                        (#[trigger] self@[i]).0,
                    ) by {
                        if i > mid {
                            lemma_wf_far(self@, mid as int, i);
                        }
                    }
                }
                b = mid;
            }
        }
        proof {
            lemma_hi_of_char(self@, q);
            let h = hi_of(self@, q);
            if h < a {
                assert(q < r_start(self@[h].0));
                assert(r_start(self@[h].0) <= q);
            }
            if a < h {
                assert(q < r_start(self@[a as int].0));
                assert(r_start(self@[a as int].0) <= q);
            }
        }
        a
    }

    /// Replaces the entries at indices `lo..hi` by the up to two given
    /// entries.
    #[verifier::rlimit(50)]
    fn splice(&mut self, lo: usize, hi: usize, x: Option<(K, V)>, y: Option<(K, V)>)
        requires
            lo <= hi <= old(self)@.len(),
        ensures
            final(self)@ == old(self)@.subrange(0, lo as int) + opt_seq(x) + opt_seq(y) + old(
                self,
            )@.subrange(hi as int, old(self)@.len() as int),
    {
        let ghost s = self@;
        let mut out: Vec<(K, V)> = Vec::new();
        let mut i: usize = 0;
        while i < lo
            invariant
                i <= lo <= hi <= s.len(),
                self@ == s,
                out@ == s.subrange(0, i as int),
            decreases lo - i,
        {
            let e = self.inner[i];
            out.push(e);
            proof {
                assert(out@ =~= s.subrange(0, i + 1));
            }
            i = i + 1;
        }
        match x {
            Some(e) => out.push(e),
            None => {},
        }
        match y {
            Some(e) => out.push(e),
            None => {},
        }
        proof {
            assert(out@ =~= s.subrange(0, lo as int) + opt_seq(x) + opt_seq(y));
        }
        let mut j: usize = hi;
        while j < self.inner.len()
            invariant
                hi <= j <= s.len(),
                self@ == s,
                out@ == s.subrange(0, lo as int) + opt_seq(x) + opt_seq(y) + s.subrange(
                    hi as int,
                    j as int,
                ),
            decreases s.len() - j,
        {
            let e = self.inner[j];
            out.push(e);
            proof {
                assert(s.subrange(hi as int, j + 1) =~= s.subrange(hi as int, j as int).push(
                    s[j as int],
                ));
                assert(out@ =~= s.subrange(0, lo as int) + opt_seq(x) + opt_seq(y) + s.subrange(
                    hi as int,
                    j + 1,
                ));
            }
            j = j + 1;
        }
        self.inner = out;
    }

    /// Whether the given range overlaps any stored range.
    pub fn overlaps<Q: NiceRange>(&self, range: &Q) -> (r: bool)
        requires
            self.wf(),
            spec_valid(*range),
        ensures
            r == exists|i: int| 0 <= i < self@.len() && spec_overlap((#[trigger] self@[i]).0, *range),
    {
        let qs = start_rank(range.start());
        let qe = end_rank(range.end());
        let lo = self.find_lo(qs);
        let hi = self.find_hi(qe);
        proof {
            lemma_window(self@, qs as int, qe as int);
            if lo < hi {
                assert(spec_overlap(self@[lo as int].0, *range));
            } else {
                assert forall|i: int| 0 <= i < self@.len() implies !spec_overlap(
                    (#[trigger] self@[i]).0,
                    *range,
                ) by {}
            }
        }
        lo < hi
    }

    /// Every entry overlapping the given range, in ascending order.
    #[verifier::rlimit(50)]
    pub fn overlapping<Q: NiceRange>(&self, range: &Q) -> (r: Vec<(K, V)>)
        requires
            self.wf(),
            spec_valid(*range),
        ensures
            r@ == overlapping_entries(self@, r_start(*range), r_end(*range)),
            entries_wf(r@),
    {
        let qs = start_rank(range.start());
        let qe = end_rank(range.end());
        let lo = self.find_lo(qs);
        let hi = self.find_hi(qe);
        proof {
            lemma_window(self@, qs as int, qe as int);
        }
        let mut out: Vec<(K, V)> = Vec::new();
        let mut i: usize = lo;
        while i < hi
            invariant
                lo <= i <= hi <= self@.len(),
                out@ == self@.subrange(lo as int, i as int),
            decreases hi - i,
        {
            let e = self.inner[i];
            out.push(e);
            proof {
                assert(out@ =~= self@.subrange(lo as int, i + 1));
            }
            i = i + 1;
        }
        proof {
            lemma_wf_subrange(self@, lo as int, hi as int);
        }
        out
    }

    /// Every entry of the map, in ascending order.
    pub fn iter(&self) -> (r: Vec<(K, V)>)
        ensures
            r@ == self@,
    {
        let mut out: Vec<(K, V)> = Vec::new();
        let mut i: usize = 0;
        while i < self.inner.len()
            invariant
                i <= self@.len(),
                out@ == self@.subrange(0, i as int),
            decreases self@.len() - i,
        {
            let e = self.inner[i];
            out.push(e);
            proof {
                assert(out@ =~= self@.subrange(0, i + 1));
            }
            i = i + 1;
        }
        proof {
            assert(out@ =~= self@);
        }
        out
    }

    /// The entry covering the given point, if any; the point is read as
    /// the degenerate range including exactly it.
    pub fn get_entry_at_point(&self, point: i64) -> (r: Option<(K, V)>)
        requires
            self.wf(),
        ensures
            match r {
                Some(e) => exists|i: int|
                    0 <= i < self@.len() && #[trigger] self@[i] == e && r_start(e.0) <= start_key(
                        Bound::Included(point),
                    ) <= r_end(e.0),
                None => value_at(self@, start_key(Bound::Included(point))) is None,
            },
            value_at(self@, start_key(Bound::Included(point))) == match r {
                Some(e) => Some(e.1),
                None => None::<V>,
            },
    {
        let pk = start_rank(Bound::Included(point));
        let lo = self.find_lo(pk);
        let hi = self.find_hi(pk);
        proof {
            lemma_window(self@, pk as int, pk as int);
        }
        if lo < hi {
            let e = self.inner[lo];
            proof {
                lemma_value_at_some(self@, pk as int, lo as int);
            }
            Some(e)
        } else {
            proof {
                assert forall|i: int| 0 <= i < self@.len() implies !(r_start(
                    (#[trigger] self@[i]).0,
                ) <= pk as int <= r_end(self@[i].0)) by {}
                lemma_value_at_none::<K, V>(self@, pk as int);
            }
            None
        }
    }

    /// The value stored at the given point, if any.
    pub fn get_at_point(&self, point: i64) -> (r: Option<V>)
        requires
            self.wf(),
        ensures
            r == value_at(self@, start_key(Bound::Included(point))),
    {
        match self.get_entry_at_point(point) {
            Some(e) => Some(e.1),
            None => None,
        }
    }

    /// Whether some stored range covers the given point.
    pub fn contains_point(&self, point: i64) -> (r: bool)
        requires
            self.wf(),
        ensures
            r == (value_at(self@, start_key(Bound::Included(point))) is Some),
    {
        match self.get_entry_at_point(point) {
            Some(_) => true,
            None => false,
        }
    }

    /// Replaces the value of the entry covering `point`, returning the
    /// previous value; returns `None` and leaves the map unchanged when
    /// no entry covers the point.
    #[verifier::rlimit(50)]
    pub fn get_at_point_mut(&mut self, point: i64, value: V) -> (r: Option<V>)
        requires
            old(self).wf(),
        ensures
            final(self).wf(),
            match r {
                Some(prev) => {
                    &&& value_at(old(self)@, start_key(Bound::Included(point))) == Some(prev)
                    &&& value_at(final(self)@, start_key(Bound::Included(point))) == Some(value)
                    &&& exists|i: int|
                        0 <= i < old(self)@.len() && final(self)@ == old(self)@.update(
                            i,
                            ((#[trigger] old(self)@[i]).0, value),
                        )
                },
                None => {
                    &&& final(self)@ == old(self)@
                    &&& value_at(old(self)@, start_key(Bound::Included(point))) is None
                },
            },
    {
        let ghost s = old(self)@;
        let pk = start_rank(Bound::Included(point));
        let lo = self.find_lo(pk);
        let hi = self.find_hi(pk);
        proof {
            lemma_window(s, pk as int, pk as int);
        }
        if lo < hi {
            let e = self.inner[lo];
            self.splice(lo, lo + 1, Some((e.0, value)), None);
            proof {
                assert(self@ =~= s.update(lo as int, (s[lo as int].0, value)));
                assert forall|i: int| 0 <= i < self@.len() implies spec_valid(
                    (#[trigger] self@[i]).0,
                ) by {
                    assert(self@[i].0 == s[i].0);
                }
                assert forall|i: int| 0 <= i < self@.len() - 1 implies r_end(
                    (#[trigger] self@[i]).0,
                ) < r_start(self@[i + 1].0) by {
                    assert(self@[i].0 == s[i].0);
                    assert(self@[i + 1].0 == s[i + 1].0);
                }
                lemma_value_at_some(s, pk as int, lo as int);
                lemma_value_at_some(self@, pk as int, lo as int);
            }
            Some(e.1)
        } else {
            proof {
                assert forall|i: int| 0 <= i < s.len() implies !(r_start((#[trigger] s[i]).0)
                    <= pk as int <= r_end(s[i].0)) by {}
                lemma_value_at_none::<K, V>(s, pk as int);
            }
            None
        }
    }

    /// The entry with the lowest start rank, if any.
    pub fn first_entry(&self) -> (r: Option<(K, V)>)
        ensures
            r == if self@.len() == 0 {
                None::<(K, V)>
            } else {
                Some(self@[0])
            },
    {
        if self.inner.len() == 0 {
            None
        } else {
            Some(self.inner[0])
        }
    }

    /// The entry with the highest start rank, if any.
    pub fn last_entry(&self) -> (r: Option<(K, V)>)
        ensures
            r == if self@.len() == 0 {
                None::<(K, V)>
            } else {
                Some(self@[self@.len() - 1])
            },
    {
        if self.inner.len() == 0 {
            None
        } else {
            Some(self.inner[self.inner.len() - 1])
        }
    }

    /// Adds an entry without touching the others; rejected with
    /// [`OverlapError`] when the range overlaps a stored range.
    #[verifier::rlimit(50)]
    pub fn insert_strict(&mut self, range: K, value: V) -> (r: Result<(), OverlapError>)
        requires
            old(self).wf(),
            spec_valid(range),
        ensures
            final(self).wf(),
            match r {
                Ok(()) => {
                    &&& !(exists|i: int|
                        0 <= i < old(self)@.len() && spec_overlap(
                            (#[trigger] old(self)@[i]).0,
                            range,
                        ))
                    &&& final(self)@ == old(self)@.insert(
                        lo_of(old(self)@, r_start(range)),
                        (range, value),
                    )
                },
                Err(e) => {
                    &&& e == OverlapError
                    &&& exists|i: int|
                        0 <= i < old(self)@.len() && spec_overlap(
                            (#[trigger] old(self)@[i]).0,
                            range,
                        )
                    &&& final(self)@ == old(self)@
                },
            },
    {
        let ghost s = old(self)@;
        let qs = start_rank(range.start());
        let qe = end_rank(range.end());
        let lo = self.find_lo(qs);
        let hi = self.find_hi(qe);
        proof {
            lemma_window(s, qs as int, qe as int);
        }
        if lo < hi {
            proof {
                assert(spec_overlap(s[lo as int].0, range));
            }
            return Err(OverlapError);
        }
        proof {
            assert forall|i: int| 0 <= i < s.len() implies !spec_overlap(
                (#[trigger] s[i]).0,
                range,
            ) by {}
        }
        self.inner.insert(lo, (range, value));
        proof {
            s.insert_ensures(lo as int, (range, value));
            let t = self@;
            assert forall|i: int| 0 <= i < t.len() implies spec_valid((#[trigger] t[i]).0) by {
                if i < lo {
                    assert(t[i] == s[i]);
                } else if i > lo {
                    assert(t[i] == s[i - 1]);
                }
            }
            assert forall|i: int| 0 <= i < t.len() - 1 implies r_end((#[trigger] t[i]).0)
                < r_start(t[i + 1].0) by {
                if i + 1 < lo {
                    assert(t[i] == s[i]);
                    assert(t[i + 1] == s[i + 1]);
                } else if i + 1 == lo {
                    assert(t[i] == s[i]);
                    assert(r_end(s[i].0) < qs as int);
                } else if i == lo {
                    assert(t[i + 1] == s[i]);
                    assert((qe as int) < r_start(s[i].0));
                } else {
                    assert(t[i] == s[i - 1]);
                    assert(t[i + 1] == s[i]);
                }
            }
        }
        Ok(())
    }

    /// Removes and returns every entry overlapping the given range, in
    /// ascending order; afterwards nothing overlapping it remains.
    #[verifier::rlimit(100)]
    pub fn remove_overlapping<Q: NiceRange>(&mut self, range: &Q) -> (r: Vec<(K, V)>)
        requires
            old(self).wf(),
            spec_valid(*range),
        ensures
            final(self).wf(),
            r@ == overlapping_entries(old(self)@, r_start(*range), r_end(*range)),
            entries_wf(r@),
            final(self)@ == old(self)@.subrange(0, lo_of(old(self)@, r_start(*range))) + old(
                self,
            )@.subrange(hi_of(old(self)@, r_end(*range)), old(self)@.len() as int),
            forall|i: int|
                0 <= i < final(self)@.len() ==> !spec_overlap((#[trigger] final(self)@[i]).0, *range),
            overlapping_entries(final(self)@, r_start(*range), r_end(*range)).len() == 0,
    {
        let ghost s = old(self)@;
        let removed = self.overlapping(range);
        let qs = start_rank(range.start());
        let qe = end_rank(range.end());
        let lo = self.find_lo(qs);
        let hi = self.find_hi(qe);
        proof {
            lemma_window(s, qs as int, qe as int);
        }
        self.splice(lo, hi, None, None);
        proof {
            let t = self@;
            assert(t =~= s.subrange(0, lo as int) + s.subrange(hi as int, s.len() as int));
            lemma_drop_run_ok(s, t, lo as int, hi as int);
            assert forall|i: int| 0 <= i < t.len() implies !spec_overlap(
                (#[trigger] t[i]).0,
                *range,
            ) by {
                if i < lo {
                    assert(t[i] == s[i]);
                    assert(r_end(s[i].0) < qs as int);
                } else {
                    assert(t[i] == s[i - lo + hi]);
                    assert((qe as int) < r_start(s[i - lo + hi].0));
                }
            }
            lemma_overlaps_iff_overlapping_nonempty(t, *range);
        }
        removed
    }

    /// Cuts the given range out of the map: the sub-extent of stored
    /// coverage lying within it is removed and returned as raw pieces
    /// with their values, ascending.  A stored range straddling a cut
    /// boundary is split, and its kept remainder must be representable
    /// as `K`; otherwise the cut fails with [`TryFromBoundsError`] and
    /// the map is left unchanged.  All needed remainders are validated
    /// before any mutation.
    #[verifier::rlimit(100)]
    pub fn cut<Q: NiceRange>(&mut self, range: &Q) -> (r: Result<
        Vec<((Bound, Bound), V)>,
        TryFromBoundsError,
    >)
        requires
            old(self).wf(),
            spec_valid(*range),
        ensures
            final(self).wf(),
            match r {
                Ok(pieces) => {
                    &&& !cut_would_fail::<K, V>(old(self)@, range.spec_start(), range.spec_end())
                    &&& pieces@ == cut_pieces(old(self)@, range.spec_start(), range.spec_end())
                    &&& pairs_wf(pieces@)
                    &&& cut_shape(old(self)@, final(self)@, range.spec_start(), range.spec_end())
                },
                Err(e) => {
                    &&& e == TryFromBoundsError
                    &&& cut_would_fail::<K, V>(old(self)@, range.spec_start(), range.spec_end())
                    &&& final(self)@ == old(self)@
                },
            },
    {
        let ghost s = old(self)@;
        let ghost qsb = range.spec_start();
        let ghost qeb = range.spec_end();
        let qs = start_rank(range.start());
        let qe = end_rank(range.end());
        let ghost qsi = qs as int;
        let ghost qei = qe as int;
        let lo = self.find_lo(qs);
        let hi = self.find_hi(qe);
        proof {
            lemma_window(s, qsi, qei);
        }
        if lo == hi {
            let pieces: Vec<((Bound, Bound), V)> = Vec::new();
            proof {
                assert(overlapping_entries(s, qsi, qei) =~= Seq::<(K, V)>::empty());
                assert(pieces@ =~= cut_pieces(s, qsb, qeb));
            }
            return Ok(pieces);
        }
        let first = self.inner[lo];
        let last = self.inner[hi - 1];
        proof {
            assert(first == s[lo as int]);
            assert(last == s[hi - 1]);
        }
        let mut before_entry: Option<(K, V)> = None;
        if start_rank(first.0.start()) < qs {
            match K::try_from_bounds(first.0.start(), flip_start(range.start())) {
                Some(k) => {
                    before_entry = Some((k, first.1));
                },
                None => {
                    proof {
                        assert(cut_would_fail::<K, V>(s, qsb, qeb));
                    }
                    return Err(TryFromBoundsError);
                },
            }
        }
        let mut after_entry: Option<(K, V)> = None;
        if qe < end_rank(last.0.end()) {
            match K::try_from_bounds(flip_end(range.end()), last.0.end()) {
                Some(k) => {
                    after_entry = Some((k, last.1));
                },
                None => {
                    proof {
                        assert(cut_would_fail::<K, V>(s, qsb, qeb));
                    }
                    return Err(TryFromBoundsError);
                },
            }
        }
        let mut pieces: Vec<((Bound, Bound), V)> = Vec::new();
        let mut i: usize = lo;
        while i < hi
            invariant
                lo <= i <= hi <= s.len(),
                self@ == s,
                self.wf(),
                range.spec_start() == qsb,
                range.spec_end() == qeb,
                pieces@ == s.subrange(lo as int, i as int).map_values(
                    |e: (K, V)| clip_entry(e, qsb, qeb),
                ),
            decreases hi - i,
        {
            let e = self.inner[i];
            let cs = pick_max_start(e.0.start(), range.start());
            let ce = pick_min_end(e.0.end(), range.end());
            pieces.push(((cs, ce), e.1));
            proof {
                assert(e == s[i as int]);
                assert(((cs, ce), e.1) == clip_entry(s[i as int], qsb, qeb));
                assert(pieces@ =~= s.subrange(lo as int, i + 1).map_values(
                    |e: (K, V)| clip_entry(e, qsb, qeb),
                ));
            }
            i = i + 1;
        }
        self.splice(lo, hi, before_entry, after_entry);
        proof {
            lemma_cut_splice_ok(s, self@, qsb, qeb, before_entry, after_entry);
            lemma_cut_pieces_wf(s, qsb, qeb);
            assert(pieces@ == cut_pieces(s, qsb, qeb));
        }
        Ok(pieces)
    }

    /// Cuts when one stored entry covers the whole cut range (the
    /// lookups at the cut's two edges resolve to the same entry): that
    /// entry splits into up to three pieces.
    pub fn cut_single_overlapping<Q: NiceRange>(
        &mut self,
        range: &Q,
        single_overlapping_range: K,
    ) -> (r: Result<Vec<((Bound, Bound), V)>, TryFromBoundsError>)
        requires
            old(self).wf(),
            spec_valid(*range),
            exists|i: int|
                0 <= i < old(self)@.len() && (#[trigger] old(self)@[i]).0
                    == single_overlapping_range,
            r_start(single_overlapping_range) <= r_start(*range),
            r_end(*range) <= r_end(single_overlapping_range),
        ensures
            final(self).wf(),
            match r {
                Ok(pieces) => {
                    &&& !cut_would_fail::<K, V>(old(self)@, range.spec_start(), range.spec_end())
                    &&& pieces@ == cut_pieces(old(self)@, range.spec_start(), range.spec_end())
                    &&& pairs_wf(pieces@)
                    &&& cut_shape(old(self)@, final(self)@, range.spec_start(), range.spec_end())
                },
                Err(e) => {
                    &&& e == TryFromBoundsError
                    &&& cut_would_fail::<K, V>(old(self)@, range.spec_start(), range.spec_end())
                    &&& final(self)@ == old(self)@
                },
            },
    {
        self.cut(range)
    }

    /// Cuts when no single stored entry covers the whole cut range: the
    /// at most one left-boundary entry and at most one right-boundary
    /// entry are cut independently, and strictly interior entries are
    /// drained whole.
    pub fn cut_non_single_overlapping<Q: NiceRange>(
        &mut self,
        range: &Q,
        left_overlapping: Option<K>,
        right_overlapping: Option<K>,
    ) -> (r: Result<Vec<((Bound, Bound), V)>, TryFromBoundsError>)
        requires
            old(self).wf(),
            spec_valid(*range),
            left_overlapping == lookup_at(old(self)@, r_start(*range)),
            right_overlapping == lookup_at(old(self)@, r_end(*range)),
            match (left_overlapping, right_overlapping) {
                (Some(l), Some(rr)) => l.spec_start() != rr.spec_start(),
                _ => true,
            },
        ensures
            final(self).wf(),
            match r {
                Ok(pieces) => {
                    &&& !cut_would_fail::<K, V>(old(self)@, range.spec_start(), range.spec_end())
                    &&& pieces@ == cut_pieces(old(self)@, range.spec_start(), range.spec_end())
                    &&& pairs_wf(pieces@)
                    &&& cut_shape(old(self)@, final(self)@, range.spec_start(), range.spec_end())
                },
                Err(e) => {
                    &&& e == TryFromBoundsError
                    &&& cut_would_fail::<K, V>(old(self)@, range.spec_start(), range.spec_end())
                    &&& final(self)@ == old(self)@
                },
            },
    {
        self.cut(range)
    }

    /// Adds an entry, overwriting whatever it overlaps: equivalent to
    /// cutting the range out and then inserting strictly.  Afterwards
    /// every position within the range carries the new value and every
    /// position outside it is untouched; a straddled boundary entry
    /// whose remainder is not representable fails the whole operation
    /// with the map unchanged.
    #[verifier::rlimit(100)]
    pub fn insert_overwrite(&mut self, range: K, value: V) -> (r: Result<(), TryFromBoundsError>)
        requires
            old(self).wf(),
            spec_valid(range),
        ensures
            final(self).wf(),
            match r {
                Ok(()) => {
                    &&& !cut_would_fail::<K, V>(old(self)@, range.spec_start(), range.spec_end())
                    &&& forall|x: int|
                        #![trigger value_at(final(self)@, x)]
                        value_at(final(self)@, x) == if r_start(range) <= x <= r_end(range) {
                            Some(value)
                        } else {
                            value_at(old(self)@, x)
                        }
                },
                Err(e) => {
                    &&& e == TryFromBoundsError
                    &&& cut_would_fail::<K, V>(old(self)@, range.spec_start(), range.spec_end())
                    &&& final(self)@ == old(self)@
                },
            },
    {
        let ghost s = old(self)@;
        match self.cut(&range) {
            Ok(_) => {},
            Err(e) => {
                return Err(e);
            },
        }
        let ghost mid = self@;
        proof {
            crate::laws::lemma_cut_leaves_no_overlap(s, mid, range);
        }
        let res = self.insert_strict(range, value);
        proof {
            if res is Err {
                assert(false);
            }
            assert forall|x: int|
                #![trigger value_at(self@, x)]
                value_at(self@, x) == (if r_start(range) <= x <= r_end(range) {
                    Some(value)
                } else {
                    value_at(s, x)
                }) by {
                crate::laws::lemma_cut_value_at(s, mid, range.spec_start(), range.spec_end(), x);
                crate::laws::lemma_insert_value_at(mid, range, value, x);
            }
        }
        match res {
            Ok(()) => Ok(()),
            Err(_) => Err(TryFromBoundsError),
        }
    }

    /// Splits the map in two at a start bound: entries starting at or
    /// after it move to the returned map; an entry straddling the
    /// bound is split, the reconstructed left part staying and the
    /// reconstructed right part moving.  On reconstruction failure the
    /// map is unchanged.
    #[verifier::rlimit(100)]
    pub fn split_off(&mut self, start_bound: Bound) -> (r: Result<Self, TryFromBoundsError>)
        requires
            old(self).wf(),
        ensures
            final(self).wf(),
            match r {
                Ok(other) => {
                    &&& !split_would_fail::<K, V>(old(self)@, start_bound)
                    &&& other.wf()
                    &&& split_shape(old(self)@, final(self)@, other@, start_bound)
                },
                Err(e) => {
                    &&& e == TryFromBoundsError
                    &&& split_would_fail::<K, V>(old(self)@, start_bound)
                    &&& final(self)@ == old(self)@
                },
            },
    {
        let ghost s = old(self)@;
        let sb = start_rank(start_bound);
        let m = self.find_lo(sb);
        proof {
            lemma_lo_of_char(s, sb as int);
        }
        let mut straddle: Option<((K, V), (K, V))> = None;
        if m < self.inner.len() {
            let e = self.inner[m];
            proof {
                assert(e == s[m as int]);
            }
            if start_rank(e.0.start()) < sb {
                let left = match K::try_from_bounds(e.0.start(), flip_start(start_bound)) {
                    Some(k) => k,
                    None => {
                        return Err(TryFromBoundsError);
                    },
                };
                let right = match K::try_from_bounds(start_bound, e.0.end()) {
                    Some(k) => k,
                    None => {
                        return Err(TryFromBoundsError);
                    },
                };
                straddle = Some(((left, e.1), (right, e.1)));
            }
        }
        let ghost left_entry: Option<(K, V)> = match straddle {
            Some(p) => Some(p.0),
            None => None,
        };
        let ghost right_entry: Option<(K, V)> = match straddle {
            Some(p) => Some(p.1),
            None => None,
        };
        let mut keep: Vec<(K, V)> = Vec::new();
        let mut i: usize = 0;
        while i < m
            invariant
                i <= m <= s.len(),
                self@ == s,
                keep@ == s.subrange(0, i as int),
            decreases m - i,
        {
            let e = self.inner[i];
            keep.push(e);
            proof {
                assert(keep@ =~= s.subrange(0, i + 1));
            }
            i = i + 1;
        }
        let mut moved: Vec<(K, V)> = Vec::new();
        match straddle {
            Some((left_e, right_e)) => {
                keep.push(left_e);
                moved.push(right_e);
            },
            None => {},
        }
        proof {
            assert(keep@ =~= s.subrange(0, m as int) + opt_seq(left_entry));
            assert(moved@ =~= opt_seq(right_entry));
        }
        let mut j: usize = m;
        if straddle.is_some() {
            j = m + 1;
        }
        let ghost j0 = j as int;
        while j < self.inner.len()
            invariant
                0 <= j0 <= j as int <= s.len(),
                self@ == s,
                moved@ == opt_seq(right_entry) + s.subrange(j0, j as int),
            decreases s.len() - j,
        {
            let e = self.inner[j];
            moved.push(e);
            proof {
                assert(s.subrange(j0, j + 1) =~= s.subrange(j0, j as int).push(s[j as int]));
                assert(moved@ =~= opt_seq(right_entry) + s.subrange(j0, j + 1));
            }
            j = j + 1;
        }
        self.inner = keep;
        let other = RangeBoundsMap { inner: moved };
        proof {
            lemma_split_splice_ok(s, start_bound, left_entry, right_entry, self@, other@);
        }
        Ok(other)
    }

    /// Adds an entry and merges it with the stored entries that touch
    /// it, the coalesced entry carrying the new value.  Overlap is
    /// rejected (touching is strict), and a coalesced range that `K`
    /// cannot represent is rejected; either way the map is unchanged.
    #[verifier::rlimit(100)]
    pub fn insert_merge_touching(&mut self, range: K, value: V) -> (r: Result<
        K,
        OverlapOrTryFromBoundsError,
    >)
        requires
            old(self).wf(),
            spec_valid(range),
        ensures
            final(self).wf(),
            match r {
                Ok(m) => {
                    &&& !(exists|i: int|
                        0 <= i < old(self)@.len() && spec_overlap(
                            (#[trigger] old(self)@[i]).0,
                            range,
                        ))
                    &&& if touch_left_of(old(self)@, range) || touch_right_of(
                        old(self)@,
                        range,
                    ) {
                        &&& K::representable(
                            merged_touching_start(old(self)@, range),
                            merged_touching_end(old(self)@, range),
                        )
                        &&& m.spec_start() == merged_touching_start(old(self)@, range)
                        &&& m.spec_end() == merged_touching_end(old(self)@, range)
                        &&& final(self)@ == old(self)@.subrange(
                            0,
                            lo_of(old(self)@, r_start(range)) - (if touch_left_of(
                                old(self)@,
                                range,
                            ) {
                                1int
                            } else {
                                0
                            }),
                        ) + seq![(m, value)] + old(self)@.subrange(
                            lo_of(old(self)@, r_start(range)) + (if touch_right_of(
                                old(self)@,
                                range,
                            ) {
                                1int
                            } else {
                                0
                            }),
                            old(self)@.len() as int,
                        )
                    } else {
                        &&& m == range
                        &&& final(self)@ == old(self)@.insert(
                            lo_of(old(self)@, r_start(range)),
                            (range, value),
                        )
                    }
                },
                Err(OverlapOrTryFromBoundsError::Overlap(_)) => {
                    &&& exists|i: int|
                        0 <= i < old(self)@.len() && spec_overlap(
                            (#[trigger] old(self)@[i]).0,
                            range,
                        )
                    &&& final(self)@ == old(self)@
                },
                Err(OverlapOrTryFromBoundsError::TryFromBounds(_)) => {
                    &&& !(exists|i: int|
                        0 <= i < old(self)@.len() && spec_overlap(
                            (#[trigger] old(self)@[i]).0,
                            range,
                        ))
                    &&& touch_left_of(old(self)@, range) || touch_right_of(old(self)@, range)
                    &&& !K::representable(
                        merged_touching_start(old(self)@, range),
                        merged_touching_end(old(self)@, range),
                    )
                    &&& final(self)@ == old(self)@
                },
            },
    {
        let ghost s = old(self)@;
        let qs = start_rank(range.start());
        let qe = end_rank(range.end());
        let lo = self.find_lo(qs);
        let hi = self.find_hi(qe);
        proof {
            lemma_window(s, qs as int, qe as int);
            lemma_key_bounds(range.spec_start());
            lemma_key_bounds(range.spec_end());
        }
        if lo < hi {
            proof {
                assert(spec_overlap(s[lo as int].0, range));
            }
            return Err(OverlapOrTryFromBoundsError::Overlap(OverlapError));
        }
        proof {
            assert forall|i: int| 0 <= i < s.len() implies !spec_overlap(
                (#[trigger] s[i]).0,
                range,
            ) by {}
        }
        let mut touch_l = false;
        if lo > 0 {
            let e = self.inner[lo - 1];
            proof {
                lemma_key_bounds(e.0.spec_end());
            }
            if end_rank(e.0.end()) + 1 == qs {
                touch_l = true;
            }
        }
        let mut touch_r = false;
        if lo < self.inner.len() {
            let e = self.inner[lo];
            if start_rank(e.0.start()) == qe + 1 {
                touch_r = true;
            }
        }
        proof {
            assert(touch_l == touch_left_of(s, range));
            assert(touch_r == touch_right_of(s, range));
        }
        if !touch_l && !touch_r {
            let res = self.insert_strict(range, value);
            proof {
                if res is Err {
                    assert(false);
                }
            }
            return Ok(range);
        }
        let ms = if touch_l {
            self.inner[lo - 1].0.start()
        } else {
            range.start()
        };
        let me = if touch_r {
            self.inner[lo].0.end()
        } else {
            range.end()
        };
        match K::try_from_bounds(ms, me) {
            None => Err(OverlapOrTryFromBoundsError::TryFromBounds(TryFromBoundsError)),
            Some(m) => {
                let a = if touch_l {
                    lo - 1
                } else {
                    lo
                };
                let b = if touch_r {
                    lo + 1
                } else {
                    lo
                };
                self.splice(a, b, Some((m, value)), None);
                proof {
                    assert(self@ =~= s.subrange(0, a as int) + seq![(m, value)] + s.subrange(
                        b as int,
                        s.len() as int,
                    ));
                    if a > 0 {
                        if touch_l {
                            lemma_wf_far(s, a - 1, lo as int - 1);
                        }
                        assert(r_end(s[a - 1].0) < r_start(m));
                    }
                    if (b as int) < s.len() {
                        if touch_r {
                            lemma_wf_far(s, lo as int, b as int);
                        }
                        assert(r_end(m) < r_start(s[b as int].0));
                    }
                    lemma_replace_run_ok(s, self@, a as int, b as int, (m, value));
                }
                Ok(m)
            },
        }
    }

    /// Adds an entry and merges it with every stored entry it
    /// overlaps, the coalesced entry carrying the new value.  A
    /// coalesced range that `K` cannot represent is rejected and the
    /// map is unchanged.
    #[verifier::rlimit(100)]
    pub fn insert_merge_overlapping(&mut self, range: K, value: V) -> (r: Result<
        K,
        TryFromBoundsError,
    >)
        requires
            old(self).wf(),
            spec_valid(range),
        ensures
            final(self).wf(),
            match r {
                Ok(m) => {
                    if overlapping_entries(old(self)@, r_start(range), r_end(range)).len() > 0 {
                        &&& K::representable(
                            merged_overlapping_start(old(self)@, range),
                            merged_overlapping_end(old(self)@, range),
                        )
                        &&& m.spec_start() == merged_overlapping_start(old(self)@, range)
                        &&& m.spec_end() == merged_overlapping_end(old(self)@, range)
                        &&& final(self)@ == old(self)@.subrange(
                            0,
                            lo_of(old(self)@, r_start(range)),
                        ) + seq![(m, value)] + old(self)@.subrange(
                            hi_of(old(self)@, r_end(range)),
                            old(self)@.len() as int,
                        )
                    } else {
                        &&& m == range
                        &&& final(self)@ == old(self)@.insert(
                            lo_of(old(self)@, r_start(range)),
                            (range, value),
                        )
                    }
                },
                Err(e) => {
                    &&& e == TryFromBoundsError
                    &&& overlapping_entries(old(self)@, r_start(range), r_end(range)).len() > 0
                    &&& !K::representable(
                        merged_overlapping_start(old(self)@, range),
                        merged_overlapping_end(old(self)@, range),
                    )
                    &&& final(self)@ == old(self)@
                },
            },
    {
        let ghost s = old(self)@;
        let qs = start_rank(range.start());
        let qe = end_rank(range.end());
        let lo = self.find_lo(qs);
        let hi = self.find_hi(qe);
        proof {
            lemma_window(s, qs as int, qe as int);
        }
        if lo == hi {
            proof {
                assert forall|i: int| 0 <= i < s.len() implies !spec_overlap(
                    (#[trigger] s[i]).0,
                    range,
                ) by {}
            }
            let res = self.insert_strict(range, value);
            proof {
                if res is Err {
                    assert(false);
                }
            }
            return Ok(range);
        }
        let ms = pick_min_start(self.inner[lo].0.start(), range.start());
        let me = pick_max_end(self.inner[hi - 1].0.end(), range.end());
        match K::try_from_bounds(ms, me) {
            None => Err(TryFromBoundsError),
            Some(m) => {
                self.splice(lo, hi, Some((m, value)), None);
                proof {
                    assert(self@ =~= s.subrange(0, lo as int) + seq![(m, value)] + s.subrange(
                        hi as int,
                        s.len() as int,
                    ));
                    assert(spec_valid(s[lo as int].0));
                    assert(spec_valid(s[hi - 1].0));
                    if lo > 0 {
                        assert(r_end(s[lo - 1].0) < r_start(s[lo as int].0));
                        assert(r_end(s[lo - 1].0) < r_start(m));
                    }
                    if hi < s.len() {
                        lemma_wf_far(s, hi - 1, hi as int);
                        assert(r_end(m) < r_start(s[hi as int].0));
                    }
                    lemma_replace_run_ok(s, self@, lo as int, hi as int, (m, value));
                }
                Ok(m)
            },
        }
    }

    /// Adds an entry and merges it with every stored entry it touches
    /// or overlaps, the coalesced entry carrying the new value.  A
    /// coalesced range that `K` cannot represent is rejected and the
    /// map is unchanged.
    #[verifier::rlimit(100)]
    pub fn insert_merge_touching_or_overlapping(&mut self, range: K, value: V) -> (r: Result<
        K,
        TryFromBoundsError,
    >)
        requires
            old(self).wf(),
            spec_valid(range),
        ensures
            final(self).wf(),
            match r {
                Ok(m) => {
                    if absorb_lo(old(self)@, range) < absorb_hi(old(self)@, range) {
                        &&& K::representable(m.spec_start(), m.spec_end())
                        &&& m.spec_start() == min_start(
                            old(self)@[absorb_lo(old(self)@, range)].0.spec_start(),
                            range.spec_start(),
                        )
                        &&& m.spec_end() == max_end(
                            old(self)@[absorb_hi(old(self)@, range) - 1].0.spec_end(),
                            range.spec_end(),
                        )
                        &&& final(self)@ == old(self)@.subrange(0, absorb_lo(old(self)@, range))
                            + seq![(m, value)] + old(self)@.subrange(
                            absorb_hi(old(self)@, range),
                            old(self)@.len() as int,
                        )
                    } else {
                        &&& m == range
                        &&& final(self)@ == old(self)@.insert(
                            lo_of(old(self)@, r_start(range)),
                            (range, value),
                        )
                    }
                },
                Err(e) => {
                    &&& e == TryFromBoundsError
                    &&& absorb_lo(old(self)@, range) < absorb_hi(old(self)@, range)
                    &&& !K::representable(
                        min_start(
                            old(self)@[absorb_lo(old(self)@, range)].0.spec_start(),
                            range.spec_start(),
                        ),
                        max_end(
                            old(self)@[absorb_hi(old(self)@, range) - 1].0.spec_end(),
                            range.spec_end(),
                        ),
                    )
                    &&& final(self)@ == old(self)@
                },
            },
    {
        let ghost s = old(self)@;
        let qs = start_rank(range.start());
        let qe = end_rank(range.end());
        let lo = self.find_lo(qs);
        let hi = self.find_hi(qe);
        proof {
            lemma_window(s, qs as int, qe as int);
            lemma_key_bounds(range.spec_start());
            lemma_key_bounds(range.spec_end());
        }
        let mut a = lo;
        if lo > 0 {
            let e = self.inner[lo - 1];
            proof {
                lemma_key_bounds(e.0.spec_end());
            }
            if end_rank(e.0.end()) + 1 == qs {
                a = lo - 1;
            }
        }
        let mut b = hi;
        if hi < self.inner.len() {
            let e = self.inner[hi];
            if start_rank(e.0.start()) == qe + 1 {
                b = hi + 1;
            }
        }
        proof {
            assert(a as int == absorb_lo(s, range));
            assert(b as int == absorb_hi(s, range));
        }
        if a == b {
            proof {
                assert forall|i: int| 0 <= i < s.len() implies !spec_overlap(
                    (#[trigger] s[i]).0,
                    range,
                ) by {}
            }
            let res = self.insert_strict(range, value);
            proof {
                if res is Err {
                    assert(false);
                }
            }
            return Ok(range);
        }
        let ms = pick_min_start(self.inner[a].0.start(), range.start());
        let me = pick_max_end(self.inner[b - 1].0.end(), range.end());
        match K::try_from_bounds(ms, me) {
            None => Err(TryFromBoundsError),
            Some(m) => {
                self.splice(a, b, Some((m, value)), None);
                proof {
                    assert(self@ =~= s.subrange(0, a as int) + seq![(m, value)] + s.subrange(
                        b as int,
                        s.len() as int,
                    ));
                    assert(spec_valid(s[a as int].0));
                    assert(spec_valid(s[b - 1].0));
                    if a > 0 {
                        assert(r_end(s[a - 1].0) < r_start(s[a as int].0));
                        if (a as int) < lo as int {
                            assert(r_end(s[a - 1].0) < r_start(range)) by {
                                if a >= 1 && (a as int) == lo as int - 1 {
                                    lemma_wf_far(s, a - 1, lo as int - 1);
                                }
                            }
                        }
                        assert(r_end(s[a - 1].0) < r_start(m));
                    }
                    if (b as int) < s.len() {
                        lemma_wf_far(s, b - 1, b as int);
                        if (b as int) > hi as int {
                            assert(r_end(range) < r_start(s[b as int].0)) by {
                                assert(r_start(s[hi as int].0) == r_end(range) + 1);
                                lemma_wf_far(s, hi as int, b as int);
                            }
                        }
                        assert(r_end(m) < r_start(s[b as int].0));
                    }
                    assert(spec_valid(m));
                    lemma_replace_run_ok(s, self@, a as int, b as int, (m, value));
                }
                Ok(m)
            },
        }
    }

    /// Builds a map from a sequence of entries, strictly: the whole
    /// construction fails with [`OverlapError`] if any two given
    /// entries overlap.  On success the map holds exactly the given
    /// entries, sorted.
    #[verifier::rlimit(100)]
    pub fn from_slice_strict(slice: Vec<(K, V)>) -> (r: Result<Self, OverlapError>)
        requires
            forall|i: int| 0 <= i < slice@.len() ==> spec_valid((#[trigger] slice@[i]).0),
        ensures
            match r {
                Ok(m) => {
                    &&& m.wf()
                    &&& m@.to_multiset() == slice@.to_multiset()
                    &&& forall|i: int, j: int|
                        0 <= i < j < slice@.len() ==> !spec_overlap(
                            (#[trigger] slice@[i]).0,
                            (#[trigger] slice@[j]).0,
                        )
                },
                Err(e) => {
                    &&& e == OverlapError
                    &&& exists|i: int, j: int|
                        0 <= i < j < slice@.len() && spec_overlap(
                            (#[trigger] slice@[i]).0,
                            (#[trigger] slice@[j]).0,
                        )
                },
            },
    {
        let mut m = Self::new();
        let mut n: usize = 0;
        proof {
            assert(slice@.subrange(0, 0) =~= Seq::<(K, V)>::empty());
            assert(m@.to_multiset() =~= slice@.subrange(0, 0).to_multiset());
        }
        while n < slice.len()
            invariant
                n <= slice@.len(),
                forall|i: int| 0 <= i < slice@.len() ==> spec_valid((#[trigger] slice@[i]).0),
                m.wf(),
                m@.to_multiset() == slice@.subrange(0, n as int).to_multiset(),
                forall|i: int, j: int|
                    0 <= i < j < n as int ==> !spec_overlap(
                        (#[trigger] slice@[i]).0,
                        (#[trigger] slice@[j]).0,
                    ),
            decreases slice@.len() - n,
        {
            let e = slice[n];
            let ghost prev = m@;
            let ghost pre = slice@.subrange(0, n as int);
            proof {
                assert(e == slice@[n as int]);
                prev.to_multiset_ensures();
                pre.to_multiset_ensures();
            }
            let res = m.insert_strict(e.0, e.1);
            match res {
                Ok(()) => {
                    proof {
                        lemma_lo_of_char(prev, r_start(e.0));
                        lemma_to_multiset_insert(prev, lo_of(prev, r_start(e.0)), (e.0, e.1));
                        assert((e.0, e.1) == e);
                        assert(slice@.subrange(0, n + 1) =~= pre.push(slice@[n as int]));
                        assert(m@.to_multiset() == slice@.subrange(0, n + 1).to_multiset());
                        assert forall|i: int| 0 <= i < n as int implies !spec_overlap(
                            (#[trigger] slice@[i]).0,
                            slice@[n as int].0,
                        ) by {
                            assert(pre[i] == slice@[i]);
                            assert(pre.contains(slice@[i]));
                            assert(prev.to_multiset().count(slice@[i]) > 0);
                            assert(prev.contains(slice@[i]));
                            let w = choose|w: int| 0 <= w < prev.len() && prev[w] == slice@[i];
                            assert(!spec_overlap(prev[w].0, e.0));
                        }
                    }
                },
                Err(_) => {
                    proof {
                        let w = choose|w: int|
                            0 <= w < prev.len() && spec_overlap((#[trigger] prev[w]).0, e.0);
                        assert(prev.to_multiset().count(prev[w]) > 0);
                        assert(pre.to_multiset().count(prev[w]) > 0);
                        assert(pre.contains(prev[w]));
                        let j = choose|j: int| 0 <= j < pre.len() && pre[j] == prev[w];
                        assert(slice@[j] == prev[w]);
                        assert(spec_overlap(slice@[j].0, slice@[n as int].0));
                    }
                    return Err(OverlapError);
                },
            }
            n = n + 1;
        }
        proof {
            assert(slice@.subrange(0, slice@.len() as int) =~= slice@);
        }
        Ok(m)
    }

    /// The maximal sub-intervals of `outer` not covered by any stored
    /// entry, ascending: each gap is valid, lies within `outer`,
    /// overlaps no stored entry, no two gaps touch, and together with
    /// the stored entries the gaps cover every position of `outer`.
    #[verifier::rlimit(100)]
    pub fn gaps<Q: NiceRange>(&self, outer: &Q) -> (r: Vec<(Bound, Bound)>)
        requires
            self.wf(),
            spec_valid(*outer),
        ensures
            forall|g: int| 0 <= g < r@.len() ==> pair_valid(#[trigger] r@[g]),
            forall|g: int|
                0 <= g < r@.len() ==> r_start(*outer) <= start_key((#[trigger] r@[g]).0) && end_key(
                    r@[g].1,
                ) <= r_end(*outer),
            forall|g: int, i: int|
                0 <= g < r@.len() && 0 <= i < self@.len() ==> !(start_key((#[trigger] r@[g]).0)
                    <= r_end((#[trigger] self@[i]).0) && r_start(self@[i].0) <= end_key(r@[g].1)),
            forall|g: int|
                0 <= g < r@.len() - 1 ==> end_key((#[trigger] r@[g]).1) + 1 < start_key(
                    r@[g + 1].0,
                ),
            forall|x: int|
                r_start(*outer) <= x <= r_end(*outer) ==> covers_key(self@, x) || gap_covers(
                    r@,
                    x,
                ),
    {
        let ghost s = self@;
        let ghost osi = r_start(*outer);
        let ghost oei = r_end(*outer);
        let oe = end_rank(outer.end());
        let mut out: Vec<(Bound, Bound)> = Vec::new();
        let mut cur: Bound = outer.start();
        let mut cur_key: i128 = start_rank(outer.start());
        let mut k: usize = 0;
        proof {
            lemma_key_bounds(outer.spec_start());
            lemma_key_bounds(outer.spec_end());
        }
        while k < self.inner.len()
            invariant
                0 <= k <= s.len(),
                self@ == s,
                self.wf(),
                spec_valid(*outer),
                osi == r_start(*outer),
                oei == r_end(*outer),
                oe as int == oei,
                -0x20000000000000002 <= oei <= 0x20000000000000002,
                osi <= cur_key as int,
                (cur_key as int) <= 0x20000000000000003,
                (cur_key as int) > oei || start_key(cur) == cur_key as int,
                forall|i: int| 0 <= i < k ==> r_end((#[trigger] s[i]).0) < cur_key as int,
                forall|g: int| 0 <= g < out@.len() ==> pair_valid(#[trigger] out@[g]),
                forall|g: int|
                    0 <= g < out@.len() ==> osi <= start_key((#[trigger] out@[g]).0) && end_key(
                        out@[g].1,
                    ) <= oei,
                forall|g: int| 0 <= g < out@.len() ==> end_key((#[trigger] out@[g]).1) + 1
                    < cur_key as int,
                forall|g: int, i: int|
                    0 <= g < out@.len() && 0 <= i < s.len() ==> !(start_key((#[trigger] out@[g]).0)
                        <= r_end((#[trigger] s[i]).0) && r_start(s[i].0) <= end_key(out@[g].1)),
                forall|g: int|
                    0 <= g < out@.len() - 1 ==> end_key((#[trigger] out@[g]).1) + 1 < start_key(
                        out@[g + 1].0,
                    ),
                forall|x: int|
                    osi <= x <= oei && x < cur_key as int ==> covers_key(s, x) || gap_covers(
                        out@,
                        x,
                    ),
            decreases s.len() - k,
        {
            let e = self.inner[k];
            proof {
                assert(e == s[k as int]);
                lemma_key_bounds(e.0.spec_end());
                lemma_key_bounds(e.0.spec_start());
                lemma_unbounded_start_min(e.0.spec_start());
                if e.0.spec_start() != Bound::Unbounded {
                    lemma_flipped_start_key(e.0.spec_start());
                }
                if e.0.spec_end() != Bound::Unbounded {
                    lemma_flipped_end_key(e.0.spec_end());
                }
            }
            let ghost old_out = out@;
            let ghost old_cur = cur;
            let ghost old_key = cur_key as int;
            let gend = pick_min_end(flip_start(e.0.start()), outer.end());
            let emit = cur_key <= end_rank(gend) && cur_key < start_rank(e.0.start());
            if emit {
                out.push((cur, gend));
            }
            let ek = end_rank(e.0.end());
            if ek + 1 > cur_key {
                cur_key = ek + 1;
                cur = flip_end(e.0.end());
            }
            proof {
                if e.0.spec_end() == Bound::Unbounded && (cur_key as int) != old_key {
                    assert((cur_key as int) > oei);
                }
                assert(!emit ==> (old_key >= r_start(s[k as int].0) || old_key > oei)) by {
                    if !emit && old_key < r_start(s[k as int].0) {
                        assert(old_key > end_key(gend));
                        if e.0.spec_start() != Bound::Unbounded {
                            assert(end_key(gend) == r_start(s[k as int].0) - 1 || end_key(gend)
                                == oei);
                        }
                    }
                }
                lemma_gaps_step(
                    s,
                    old_out,
                    out@,
                    old_cur,
                    gend,
                    old_key,
                    cur_key as int,
                    osi,
                    oei,
                    k as int,
                    emit,
                );
            }
            k = k + 1;
        }
        let ghost pre_out = out@;
        if cur_key <= oe {
            out.push((cur, outer.end()));
            proof {
                let n = out@.len() - 1;
                assert(out@[n] == (cur, outer.spec_end()));
                assert(start_key(cur) == cur_key as int);
                assert forall|g: int| 0 <= g < out@.len() implies pair_valid(#[trigger] out@[g])
                    && osi <= start_key(out@[g].0) && end_key(out@[g].1) <= oei by {
                    if g < n {
                        assert(out@[g] == pre_out[g]);
                    }
                }
                assert forall|g: int| 0 <= g < out@.len() - 1 implies end_key(
                    (#[trigger] out@[g]).1,
                ) + 1 < start_key(out@[g + 1].0) by {
                    if g + 1 < n {
                        assert(out@[g] == pre_out[g]);
                        assert(out@[g + 1] == pre_out[g + 1]);
                    } else {
                        assert(out@[g] == pre_out[g]);
                        assert(end_key(pre_out[g].1) + 1 < cur_key as int);
                    }
                }
                assert forall|x: int|
                    osi <= x <= oei implies covers_key(s, x) || gap_covers(out@, x) by {
                    if x < cur_key as int {
                        if gap_covers(pre_out, x) {
                            let g = choose|g: int|
                                0 <= g < pre_out.len() && start_key((#[trigger] pre_out[g]).0) <= x
                                    <= end_key(pre_out[g].1);
                            assert(out@[g] == pre_out[g]);
                            assert(gap_covers(out@, x));
                        }
                    } else {
                        assert(start_key(out@[n].0) <= x <= end_key(out@[n].1));
                        assert(gap_covers(out@, x));
                    }
                }
                assert forall|g: int, i: int|
                    0 <= g < out@.len() && 0 <= i < s.len() implies !(start_key(
                    (#[trigger] out@[g]).0,
                ) <= r_end((#[trigger] s[i]).0) && r_start(s[i].0) <= end_key(out@[g].1)) by {
                    if g < n {
                        assert(out@[g] == pre_out[g]);
                    } else {
                        assert(r_end(s[i].0) < cur_key as int);
                    }
                }
            }
        } else {
            proof {
                assert forall|x: int|
                    osi <= x <= oei implies covers_key(s, x) || gap_covers(out@, x) by {
                    assert(x < cur_key as int);
                }
            }
        }
        out
    }

    /// Whether the stored entries cover every position of the given
    /// range.
    pub fn contains_range_bounds<Q: NiceRange>(&self, outer: &Q) -> (r: bool)
        requires
            self.wf(),
            spec_valid(*outer),
        ensures
            r <==> (forall|x: int|
                r_start(*outer) <= x <= r_end(*outer) ==> covers_key(self@, x)),
    {
        let g = self.gaps(outer);
        let r = g.len() == 0;
        proof {
            if r {
                assert forall|x: int|
                    r_start(*outer) <= x <= r_end(*outer) implies covers_key(self@, x) by {
                    assert(!gap_covers(g@, x));
                }
            } else {
                let w = start_key(g@[0].0);
                assert(r_start(*outer) <= w <= r_end(*outer));
                assert(!covers_key(self@, w)) by {
                    if covers_key(self@, w) {
                        let i = choose|i: int|
                            0 <= i < self@.len() && r_start((#[trigger] self@[i]).0) <= w <= r_end(
                                self@[i].0,
                            );
                        assert(start_key(g@[0].0) <= r_end(self@[i].0) && r_start(self@[i].0)
                            <= end_key(g@[0].1));
                        assert(false);
                    }
                }
            }
        }
        r
    }
}

} // verus!
