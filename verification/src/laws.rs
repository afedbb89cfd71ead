//! Laws relating the map's operations, stated over the same
//! specification model the operation contracts use and proved once and
//! for all.

use vstd::prelude::*;

use crate::bound_ord::{
    end_key, flipped_end, flipped_start, lemma_flipped_end_key, lemma_flipped_start_key,
    lemma_unbounded_end_max, lemma_unbounded_start_min, start_key, Bound,
};
use crate::helpers::{r_end, r_start, spec_overlap, spec_valid};
use crate::range_bounds_map::{
    clip_entry, cut_pieces, cut_shape, entries_wf, hi_of, split_shape, lemma_lo_of_char, lemma_value_at_none,
    lemma_value_at_some, lemma_wf_far, lemma_window, lo_of, pair_valid, pair_value_at, pairs_wf,
    value_at, NiceRange,
};

verus! {

/// No two stored ranges of a well-formed map overlap, and entries are
/// strictly ascending by start rank: the invariant every mutating
/// operation re-establishes.
pub proof fn lemma_wf_pairwise_non_overlapping<K: NiceRange, V>(s: Seq<(K, V)>)
    requires
        entries_wf(s),
    ensures
        forall|i: int, j: int|
            0 <= i < j < s.len() ==> !spec_overlap((#[trigger] s[i]).0, (#[trigger] s[j]).0),
        forall|i: int, j: int|
            0 <= i < j < s.len() ==> r_start((#[trigger] s[i]).0) < r_start((#[trigger] s[j]).0),
{
    assert forall|i: int, j: int| 0 <= i < j < s.len() implies !spec_overlap(
        (#[trigger] s[i]).0,
        (#[trigger] s[j]).0,
    ) && r_start((s[i]).0) < r_start((s[j]).0) by {
        lemma_wf_far(s, i, j);
    }
}

/// In a well-formed piece sequence, a piece covering `x` determines the
/// value there.
pub proof fn lemma_pair_value_at_some<V>(ps: Seq<((Bound, Bound), V)>, x: int, j: int)
    requires
        pairs_wf(ps),
        0 <= j < ps.len(),
        start_key(ps[j].0.0) <= x <= end_key(ps[j].0.1),
    ensures
        pair_value_at(ps, x) == Some(ps[j].1),
    decreases ps.len(),
{
    if j > 0 {
        let t = ps.drop_first();
        assert(t =~= ps.subrange(1, ps.len() as int));
        assert forall|i: int| 0 <= i < t.len() implies pair_valid((#[trigger] t[i]).0) by {
            assert(t[i] == ps[i + 1]);
        }
        assert forall|i: int| 0 <= i < t.len() - 1 implies end_key((#[trigger] t[i]).0.1)
            < start_key(t[i + 1].0.0) by {
            assert(t[i] == ps[i + 1]);
            assert(t[i + 1] == ps[i + 2]);
        }
        // the first piece ends before piece j begins, so it cannot cover x
        assert(end_key(ps[0].0.1) < start_key(ps[j].0.0)) by {
            lemma_pairs_far(ps, 0, j);
        }
        assert(t[j - 1] == ps[j]);
        lemma_pair_value_at_some(t, x, j - 1);
    }
}

/// In a well-formed piece sequence, earlier pieces end before later
/// pieces begin.
pub proof fn lemma_pairs_far<V>(ps: Seq<((Bound, Bound), V)>, i: int, j: int)
    requires
        pairs_wf(ps),
        0 <= i < j < ps.len(),
    ensures
        end_key(ps[i].0.1) < start_key(ps[j].0.0),
    decreases j - i,
{
    assert(pair_valid(ps[i].0));
    assert(pair_valid(ps[j].0));
    if i + 1 < j {
        lemma_pairs_far(ps, i + 1, j);
        assert(pair_valid(ps[i + 1].0));
    }
}

/// If no piece covers `x`, no value is stored there.
pub proof fn lemma_pair_value_at_none<V>(ps: Seq<((Bound, Bound), V)>, x: int)
    requires
        forall|j: int|
            0 <= j < ps.len() ==> !(start_key((#[trigger] ps[j]).0.0) <= x <= end_key(ps[j].0.1)),
    ensures
        pair_value_at(ps, x) is None,
    decreases ps.len(),
{
    if ps.len() > 0 {
        let t = ps.drop_first();
        assert forall|j: int|
            0 <= j < t.len() implies !(start_key((#[trigger] t[j]).0.0) <= x <= end_key(
            t[j].0.1,
        )) by {
            assert(t[j] == ps[j + 1]);
        }
        lemma_pair_value_at_none(t, x);
    }
}

/// Inside the cut span, a successful cut leaves no coverage; stated
/// over the rank window.
#[verifier::rlimit(100)]
proof fn lemma_cut_value_at_inside<K: NiceRange, V>(
    s: Seq<(K, V)>,
    t: Seq<(K, V)>,
    qs: int,
    qe: int,
    lo: int,
    hi: int,
    nb: int,
    na: int,
    x: int,
)
    requires
        entries_wf(s),
        entries_wf(t),
        qs <= qe,
        0 <= lo <= hi <= s.len(),
        forall|i: int| 0 <= i < lo ==> r_end((#[trigger] s[i]).0) < qs,
        forall|i: int| lo <= i < hi ==> qs <= r_end((#[trigger] s[i]).0) && r_start(s[i].0) <= qe,
        forall|i: int| hi <= i < s.len() ==> qe < r_start((#[trigger] s[i]).0),
        nb == if lo < hi && r_start(s[lo].0) < qs {
            1int
        } else {
            0
        },
        na == if lo < hi && qe < r_end(s[hi - 1].0) {
            1int
        } else {
            0
        },
        t.len() == s.len() - (hi - lo) + nb + na,
        forall|i: int| 0 <= i < lo ==> t[i] == s[i],
        nb == 1 ==> r_start(t[lo].0) == r_start(s[lo].0) && r_end(t[lo].0) == qs - 1 && t[lo].1
            == s[lo].1,
        na == 1 ==> r_start(t[lo + nb].0) == qe + 1 && r_end(t[lo + nb].0) == r_end(s[hi - 1].0)
            && t[lo + nb].1 == s[hi - 1].1,
        forall|i: int| hi <= i < s.len() ==> t[i - (hi - lo) + nb + na] == #[trigger] s[i],
        qs <= x <= qe,
    ensures
        value_at(t, x) is None,
{
    assert forall|j: int|
        0 <= j < t.len() implies !(r_start((#[trigger] t[j]).0) <= x <= r_end(t[j].0)) by {
        if j < lo {
            assert(t[j] == s[j]);
            assert(r_end(s[j].0) < qs);
        } else if j < lo + nb {
            assert(r_end(t[j].0) == qs - 1);
        } else if j < lo + nb + na {
            assert(r_start(t[j].0) == qe + 1);
        } else {
            assert(t[j] == s[j - (lo + nb + na) + hi]);
            assert(qe < r_start(s[j - (lo + nb + na) + hi].0));
        }
    }
    lemma_value_at_none(t, x);
}

/// Below the cut span, a successful cut preserves the stored value;
/// stated over the rank window.
#[verifier::rlimit(100)]
proof fn lemma_cut_value_at_below<K: NiceRange, V>(
    s: Seq<(K, V)>,
    t: Seq<(K, V)>,
    qs: int,
    qe: int,
    lo: int,
    hi: int,
    nb: int,
    na: int,
    x: int,
)
    requires
        entries_wf(s),
        entries_wf(t),
        qs <= qe,
        0 <= lo <= hi <= s.len(),
        forall|i: int| 0 <= i < lo ==> r_end((#[trigger] s[i]).0) < qs,
        forall|i: int| lo <= i < hi ==> qs <= r_end((#[trigger] s[i]).0) && r_start(s[i].0) <= qe,
        forall|i: int| hi <= i < s.len() ==> qe < r_start((#[trigger] s[i]).0),
        nb == if lo < hi && r_start(s[lo].0) < qs {
            1int
        } else {
            0
        },
        na == if lo < hi && qe < r_end(s[hi - 1].0) {
            1int
        } else {
            0
        },
        t.len() == s.len() - (hi - lo) + nb + na,
        forall|i: int| 0 <= i < lo ==> t[i] == s[i],
        nb == 1 ==> r_start(t[lo].0) == r_start(s[lo].0) && r_end(t[lo].0) == qs - 1 && t[lo].1
            == s[lo].1,
        na == 1 ==> r_start(t[lo + nb].0) == qe + 1 && r_end(t[lo + nb].0) == r_end(s[hi - 1].0)
            && t[lo + nb].1 == s[hi - 1].1,
        forall|i: int| hi <= i < s.len() ==> t[i - (hi - lo) + nb + na] == #[trigger] s[i],
        x < qs,
    ensures
        value_at(t, x) == value_at(s, x),
{
    if exists|i: int| 0 <= i < s.len() && r_start((#[trigger] s[i]).0) <= x <= r_end(s[i].0) {
        let i = choose|i: int|
            0 <= i < s.len() && r_start((#[trigger] s[i]).0) <= x <= r_end(s[i].0);
        lemma_value_at_some(s, x, i);
        if i >= hi {
            assert(qe < r_start(s[i].0));
            assert(false);
        }
        if lo < i < hi {
            lemma_wf_far(s, lo, i);
            assert(qs <= r_end(s[lo].0));
            assert(false);
        }
        if i == lo && lo < hi {
            // the left remainder covers x and keeps the value
            assert(r_start(s[lo].0) <= x < qs);
            assert(nb == 1);
            lemma_value_at_some(t, x, lo);
        } else {
            assert(i < lo);
            assert(t[i] == s[i]);
            lemma_value_at_some(t, x, i);
        }
    } else {
        assert forall|j: int|
            0 <= j < t.len() implies !(r_start((#[trigger] t[j]).0) <= x <= r_end(t[j].0)) by {
            if j < lo {
                assert(t[j] == s[j]);
            } else if j < lo + nb {
                assert(r_start(t[j].0) == r_start(s[lo].0));
                assert(!(r_start(s[lo].0) <= x <= r_end(s[lo].0)));
                assert(r_end(t[j].0) == qs - 1);
                assert(qs <= r_end(s[lo].0));
            } else if j < lo + nb + na {
                assert(r_start(t[j].0) == qe + 1);
            } else {
                assert(t[j] == s[j - (lo + nb + na) + hi]);
            }
        }
        lemma_value_at_none(t, x);
        lemma_value_at_none(s, x);
    }
}

/// Above the cut span, a successful cut preserves the stored value;
/// stated over the rank window.
#[verifier::rlimit(100)]
proof fn lemma_cut_value_at_above<K: NiceRange, V>(
    s: Seq<(K, V)>,
    t: Seq<(K, V)>,
    qs: int,
    qe: int,
    lo: int,
    hi: int,
    nb: int,
    na: int,
    x: int,
)
    requires
        entries_wf(s),
        entries_wf(t),
        qs <= qe,
        0 <= lo <= hi <= s.len(),
        forall|i: int| 0 <= i < lo ==> r_end((#[trigger] s[i]).0) < qs,
        forall|i: int| lo <= i < hi ==> qs <= r_end((#[trigger] s[i]).0) && r_start(s[i].0) <= qe,
        forall|i: int| hi <= i < s.len() ==> qe < r_start((#[trigger] s[i]).0),
        nb == if lo < hi && r_start(s[lo].0) < qs {
            1int
        } else {
            0
        },
        na == if lo < hi && qe < r_end(s[hi - 1].0) {
            1int
        } else {
            0
        },
        t.len() == s.len() - (hi - lo) + nb + na,
        forall|i: int| 0 <= i < lo ==> t[i] == s[i],
        nb == 1 ==> r_start(t[lo].0) == r_start(s[lo].0) && r_end(t[lo].0) == qs - 1 && t[lo].1
            == s[lo].1,
        na == 1 ==> r_start(t[lo + nb].0) == qe + 1 && r_end(t[lo + nb].0) == r_end(s[hi - 1].0)
            && t[lo + nb].1 == s[hi - 1].1,
        forall|i: int| hi <= i < s.len() ==> t[i - (hi - lo) + nb + na] == #[trigger] s[i],
        qe < x,
    ensures
        value_at(t, x) == value_at(s, x),
{
    if exists|i: int| 0 <= i < s.len() && r_start((#[trigger] s[i]).0) <= x <= r_end(s[i].0) {
        let i = choose|i: int|
            0 <= i < s.len() && r_start((#[trigger] s[i]).0) <= x <= r_end(s[i].0);
        lemma_value_at_some(s, x, i);
        if i < lo {
            assert(r_end(s[i].0) < qs);
            assert(false);
        }
        if lo <= i < hi - 1 {
            lemma_wf_far(s, i, hi - 1);
            assert(r_start(s[hi - 1].0) <= qe);
            assert(false);
        }
        if i == hi - 1 && lo < hi {
            // the right remainder covers x and keeps the value
            assert(qe < x <= r_end(s[hi - 1].0));
            assert(na == 1);
            lemma_value_at_some(t, x, lo + nb);
        } else {
            assert(i >= hi);
            assert(t[i - (hi - lo) + nb + na] == s[i]);
            lemma_value_at_some(t, x, i - (hi - lo) + nb + na);
        }
    } else {
        assert forall|j: int|
            0 <= j < t.len() implies !(r_start((#[trigger] t[j]).0) <= x <= r_end(t[j].0)) by {
            if j < lo {
                assert(t[j] == s[j]);
            } else if j < lo + nb {
                assert(r_end(t[j].0) == qs - 1);
            } else if j < lo + nb + na {
                assert(r_start(t[j].0) == qe + 1);
                assert(r_end(t[j].0) == r_end(s[hi - 1].0));
                assert(!(r_start(s[hi - 1].0) <= x <= r_end(s[hi - 1].0)));
                assert(r_start(s[hi - 1].0) <= qe);
            } else {
                assert(t[j] == s[j - (lo + nb + na) + hi]);
            }
        }
        lemma_value_at_none(t, x);
        lemma_value_at_none(s, x);
    }
}

/// A successful cut removes exactly the cut span from the stored
/// coverage: outside the span every position keeps its value, inside
/// it nothing remains.
#[verifier::rlimit(100)]
pub proof fn lemma_cut_value_at<K: NiceRange, V>(
    s: Seq<(K, V)>,
    t: Seq<(K, V)>,
    qsb: Bound,
    qeb: Bound,
    x: int,
)
    requires
        entries_wf(s),
        entries_wf(t),
        start_key(qsb) <= end_key(qeb),
        cut_shape(s, t, qsb, qeb),
    ensures
        value_at(t, x) == if start_key(qsb) <= x <= end_key(qeb) {
            None::<V>
        } else {
            value_at(s, x)
        },
{
    let qs = start_key(qsb);
    let qe = end_key(qeb);
    lemma_window(s, qs, qe);
    let lo = lo_of(s, qs);
    let hi = hi_of(s, qe);
    let nb: int = if lo < hi && r_start(s[lo].0) < qs {
        1
    } else {
        0
    };
    let na: int = if lo < hi && qe < r_end(s[hi - 1].0) {
        1
    } else {
        0
    };
    if nb == 1 {
        lemma_unbounded_start_min(s[lo].0.spec_start());
        lemma_flipped_start_key(qsb);
    }
    if na == 1 {
        lemma_unbounded_end_max(s[hi - 1].0.spec_end());
        lemma_flipped_end_key(qeb);
    }
    if qs <= x <= qe {
        lemma_cut_value_at_inside(s, t, qs, qe, lo, hi, nb, na, x);
    } else if x < qs {
        lemma_cut_value_at_below(s, t, qs, qe, lo, hi, nb, na, x);
    } else {
        lemma_cut_value_at_above(s, t, qs, qe, lo, hi, nb, na, x);
    }
}

/// The pieces of a cut carry exactly the coverage of the cut span: at
/// every position inside the span they hold the pre-cut value, and
/// nothing outside it.
#[verifier::rlimit(100)]
pub proof fn lemma_cut_pieces_value_at<K: NiceRange, V>(s: Seq<(K, V)>, qsb: Bound, qeb: Bound, x: int)
    requires
        entries_wf(s),
        start_key(qsb) <= end_key(qeb),
    ensures
        pair_value_at(cut_pieces(s, qsb, qeb), x) == if start_key(qsb) <= x <= end_key(qeb) {
            value_at(s, x)
        } else {
            None::<V>
        },
{
    let qs = start_key(qsb);
    let qe = end_key(qeb);
    lemma_window(s, qs, qe);
    let lo = lo_of(s, qs);
    let hi = hi_of(s, qe);
    let ps = cut_pieces(s, qsb, qeb);
    crate::range_bounds_map::lemma_cut_pieces_wf(s, qsb, qeb);
    assert forall|j: int| 0 <= j < ps.len() implies ps[j] == clip_entry(
        s[lo + j],
        qsb,
        qeb,
    ) by {}
    if qs <= x <= qe {
        if exists|i: int| 0 <= i < s.len() && r_start((#[trigger] s[i]).0) <= x <= r_end(s[i].0) {
            let i = choose|i: int|
                0 <= i < s.len() && r_start((#[trigger] s[i]).0) <= x <= r_end(s[i].0);
            lemma_value_at_some(s, x, i);
            assert(lo <= i < hi) by {
                if i < lo {
                    assert(r_end(s[i].0) < qs);
                }
                if i >= hi {
                    assert(qe < r_start(s[i].0));
                }
            }
            assert(ps[i - lo] == clip_entry(s[i], qsb, qeb));
            assert(start_key(ps[i - lo].0.0) <= x <= end_key(ps[i - lo].0.1));
            lemma_pair_value_at_some(ps, x, i - lo);
        } else {
            assert forall|j: int|
                0 <= j < ps.len() implies !(start_key((#[trigger] ps[j]).0.0) <= x <= end_key(
                ps[j].0.1,
            )) by {
                assert(ps[j] == clip_entry(s[lo + j], qsb, qeb));
                assert(!(r_start(s[lo + j].0) <= x <= r_end(s[lo + j].0)));
            }
            lemma_pair_value_at_none(ps, x);
            lemma_value_at_none(s, x);
        }
    } else {
        assert forall|j: int|
            0 <= j < ps.len() implies !(start_key((#[trigger] ps[j]).0.0) <= x <= end_key(
            ps[j].0.1,
        )) by {
            assert(ps[j] == clip_entry(s[lo + j], qsb, qeb));
        }
        lemma_pair_value_at_none(ps, x);
    }
}

/// Inserting a non-overlapping entry adds exactly that range's
/// coverage, carrying the new value, and disturbs nothing else.
pub proof fn lemma_insert_value_at<K: NiceRange, V>(s: Seq<(K, V)>, k: K, v: V, x: int)
    requires
        entries_wf(s),
        spec_valid(k),
        forall|i: int| 0 <= i < s.len() ==> !spec_overlap((#[trigger] s[i]).0, k),
    ensures
        value_at(s.insert(lo_of(s, r_start(k)), (k, v)), x) == if r_start(k) <= x <= r_end(k) {
            Some(v)
        } else {
            value_at(s, x)
        },
{
    lemma_lo_of_char(s, r_start(k));
    let lo = lo_of(s, r_start(k));
    let t = s.insert(lo, (k, v));
    s.insert_ensures(lo, (k, v));
    assert(entries_wf(t)) by {
        assert forall|i: int| 0 <= i < t.len() implies spec_valid((#[trigger] t[i]).0) by {
            if i < lo {
                assert(t[i] == s[i]);
            } else if i > lo {
                assert(t[i] == s[i - 1]);
            }
        }
        assert forall|i: int| 0 <= i < t.len() - 1 implies r_end((#[trigger] t[i]).0) < r_start(
            t[i + 1].0,
        ) by {
            if i + 1 < lo {
                assert(t[i] == s[i]);
                assert(t[i + 1] == s[i + 1]);
            } else if i + 1 == lo {
                assert(t[i] == s[i]);
            } else if i == lo {
                assert(t[i + 1] == s[i]);
                assert(!spec_overlap(s[i].0, k));
                assert(!(r_end(s[i].0) < r_start(k)));
                assert(spec_valid(s[i].0));
            } else {
                assert(t[i] == s[i - 1]);
                assert(t[i + 1] == s[i]);
            }
        }
    }
    if r_start(k) <= x <= r_end(k) {
        assert(t[lo] == (k, v));
        lemma_value_at_some(t, x, lo);
    } else {
        if exists|i: int| 0 <= i < s.len() && r_start((#[trigger] s[i]).0) <= x <= r_end(s[i].0) {
            let i = choose|i: int|
                0 <= i < s.len() && r_start((#[trigger] s[i]).0) <= x <= r_end(s[i].0);
            lemma_value_at_some(s, x, i);
            if i < lo {
                assert(t[i] == s[i]);
                lemma_value_at_some(t, x, i);
            } else {
                assert(t[i + 1] == s[i]);
                lemma_value_at_some(t, x, i + 1);
            }
        } else {
            assert forall|j: int|
                0 <= j < t.len() implies !(r_start((#[trigger] t[j]).0) <= x <= r_end(t[j].0)) by {
                if j < lo {
                    assert(t[j] == s[j]);
                } else if j > lo {
                    assert(t[j] == s[j - 1]);
                }
            }
            lemma_value_at_none(t, x);
            lemma_value_at_none(s, x);
        }
    }
}

/// After a successful cut, nothing left in the map overlaps the cut
/// range.
#[verifier::rlimit(100)]
pub proof fn lemma_cut_leaves_no_overlap<K: NiceRange, V, Q: NiceRange>(
    s: Seq<(K, V)>,
    t: Seq<(K, V)>,
    q: Q,
)
    requires
        entries_wf(s),
        spec_valid(q),
        cut_shape(s, t, q.spec_start(), q.spec_end()),
    ensures
        forall|i: int| 0 <= i < t.len() ==> !spec_overlap((#[trigger] t[i]).0, q),
{
    let qsb = q.spec_start();
    let qeb = q.spec_end();
    let qs = start_key(qsb);
    let qe = end_key(qeb);
    lemma_window(s, qs, qe);
    let lo = lo_of(s, qs);
    let hi = hi_of(s, qe);
    let nb: int = if lo < hi && r_start(s[lo].0) < qs {
        1
    } else {
        0
    };
    let na: int = if lo < hi && qe < r_end(s[hi - 1].0) {
        1
    } else {
        0
    };
    if nb == 1 {
        lemma_unbounded_start_min(s[lo].0.spec_start());
        lemma_flipped_start_key(qsb);
    }
    if na == 1 {
        lemma_unbounded_end_max(s[hi - 1].0.spec_end());
        lemma_flipped_end_key(qeb);
    }
    assert forall|i: int| 0 <= i < t.len() implies !spec_overlap((#[trigger] t[i]).0, q) by {
        if i < lo {
            assert(t[i] == s[i]);
            assert(r_end(s[i].0) < qs);
        } else if i < lo + nb {
            assert(r_end(t[i].0) == qs - 1);
        } else if i < lo + nb + na {
            assert(r_start(t[i].0) == qe + 1);
        } else {
            assert(t[i] == s[i - (lo + nb + na) + hi]);
            assert(qe < r_start(s[i - (lo + nb + na) + hi].0));
        }
    }
}

/// Concatenating the two halves of a split in ascending order gives a
/// well-formed sequence again.
#[verifier::rlimit(100)]
pub proof fn lemma_split_concat_wf<K: NiceRange, V>(
    s: Seq<(K, V)>,
    t: Seq<(K, V)>,
    u: Seq<(K, V)>,
    b: Bound,
)
    requires
        entries_wf(s),
        entries_wf(t),
        entries_wf(u),
        split_shape(s, t, u, b),
    ensures
        entries_wf(t + u),
{
    let sb = start_key(b);
    lemma_lo_of_char(s, sb);
    let m = lo_of(s, sb);
    let st: int = if m < s.len() && r_start(s[m].0) < sb {
        1
    } else {
        0
    };
    let c = t + u;
    if st == 1 {
        lemma_unbounded_start_min(s[m].0.spec_start());
        lemma_flipped_start_key(b);
    }
    assert forall|i: int| 0 <= i < c.len() implies spec_valid((#[trigger] c[i]).0) by {
        if i < t.len() {
            assert(c[i] == t[i]);
        } else {
            assert(c[i] == u[i - t.len()]);
        }
    }
    assert forall|i: int| 0 <= i < c.len() - 1 implies r_end((#[trigger] c[i]).0) < r_start(
        c[i + 1].0,
    ) by {
        if i + 1 < t.len() {
            assert(c[i] == t[i]);
            assert(c[i + 1] == t[i + 1]);
        } else if i + 1 == t.len() {
            assert(c[i] == t[i]);
            assert(c[i + 1] == u[0]);
            if st == 1 {
                assert(r_end(t[m].0) == sb - 1);
                assert(r_start(u[0].0) == sb);
            } else {
                assert(t[i] == s[i]);
                assert(r_end(s[i].0) < sb);
                assert(u[0] == s[m]);
                assert(!(r_end(s[m].0) < sb));
                assert(spec_valid(s[m].0));
            }
        } else {
            assert(c[i] == u[i - t.len()]);
            assert(c[i + 1] == u[i + 1 - t.len()]);
        }
    }
}

/// Below the split bound, the kept half and the recombined whole agree
/// with the original.
#[verifier::rlimit(100)]
proof fn lemma_split_value_below<K: NiceRange, V>(
    s: Seq<(K, V)>,
    t: Seq<(K, V)>,
    u: Seq<(K, V)>,
    b: Bound,
    x: int,
)
    requires
        entries_wf(s),
        entries_wf(t),
        entries_wf(u),
        entries_wf(t + u),
        split_shape(s, t, u, b),
        x < start_key(b),
    ensures
        value_at(t, x) == value_at(s, x),
        value_at(t + u, x) == value_at(s, x),
{
    let sb = start_key(b);
    lemma_lo_of_char(s, sb);
    let m = lo_of(s, sb);
    let st: int = if m < s.len() && r_start(s[m].0) < sb {
        1
    } else {
        0
    };
    let c = t + u;
    if st == 1 {
        lemma_unbounded_start_min(s[m].0.spec_start());
        lemma_flipped_start_key(b);
    }
    if exists|i: int| 0 <= i < s.len() && r_start((#[trigger] s[i]).0) <= x <= r_end(s[i].0) {
        let i = choose|i: int|
            0 <= i < s.len() && r_start((#[trigger] s[i]).0) <= x <= r_end(s[i].0);
        lemma_value_at_some(s, x, i);
        if i > m {
            lemma_wf_far(s, m, i);
            assert(!(r_end(s[m].0) < sb));
            assert(false);
        }
        if i < m {
            assert(t[i] == s[i]);
            assert(c[i] == t[i]);
            lemma_value_at_some(t, x, i);
            lemma_value_at_some(c, x, i);
        } else {
            // i == m: the straddler's left part covers x
            assert(r_start(s[m].0) <= x < sb);
            assert(st == 1);
            assert(r_end(t[m].0) == sb - 1);
            assert(r_start(t[m].0) == r_start(s[m].0));
            assert(t[m].1 == s[m].1);
            assert(c[m] == t[m]);
            lemma_value_at_some(t, x, m);
            lemma_value_at_some(c, x, m);
        }
    } else {
        assert forall|j: int|
            0 <= j < t.len() implies !(r_start((#[trigger] t[j]).0) <= x <= r_end(t[j].0)) by {
            if j < m {
                assert(t[j] == s[j]);
            } else {
                assert(r_start(t[j].0) == r_start(s[m].0));
                assert(r_end(t[j].0) == sb - 1);
                assert(!(r_start(s[m].0) <= x <= r_end(s[m].0)));
                assert(!(r_end(s[m].0) < sb));
            }
        }
        assert forall|j: int|
            0 <= j < c.len() implies !(r_start((#[trigger] c[j]).0) <= x <= r_end(c[j].0)) by {
            if j < t.len() {
                assert(c[j] == t[j]);
            } else {
                assert(c[j] == u[j - t.len()]);
                if j - t.len() == 0 {
                    if st == 1 {
                        assert(r_start(u[0].0) == sb);
                    } else {
                        assert(u[0] == s[m]);
                        assert(!(r_start(s[m].0) <= x <= r_end(s[m].0)));
                    }
                } else {
                    assert(u[j - t.len()] == s[j - t.len() + m]);
                }
            }
        }
        lemma_value_at_none(t, x);
        lemma_value_at_none(c, x);
        lemma_value_at_none(s, x);
    }
}

/// At or above the split bound, the moved half and the recombined
/// whole agree with the original.
#[verifier::rlimit(100)]
proof fn lemma_split_value_above<K: NiceRange, V>(
    s: Seq<(K, V)>,
    t: Seq<(K, V)>,
    u: Seq<(K, V)>,
    b: Bound,
    x: int,
)
    requires
        entries_wf(s),
        entries_wf(t),
        entries_wf(u),
        entries_wf(t + u),
        split_shape(s, t, u, b),
        x >= start_key(b),
    ensures
        value_at(u, x) == value_at(s, x),
        value_at(t + u, x) == value_at(s, x),
{
    let sb = start_key(b);
    lemma_lo_of_char(s, sb);
    let m = lo_of(s, sb);
    let st: int = if m < s.len() && r_start(s[m].0) < sb {
        1
    } else {
        0
    };
    let c = t + u;
    if st == 1 {
        lemma_unbounded_start_min(s[m].0.spec_start());
        lemma_flipped_start_key(b);
    }
    if exists|i: int| 0 <= i < s.len() && r_start((#[trigger] s[i]).0) <= x <= r_end(s[i].0) {
        let i = choose|i: int|
            0 <= i < s.len() && r_start((#[trigger] s[i]).0) <= x <= r_end(s[i].0);
        lemma_value_at_some(s, x, i);
        if i < m {
            assert(r_end(s[i].0) < sb);
            assert(false);
        }
        if i == m && st == 1 {
            assert(r_start(u[0].0) == sb);
            assert(r_end(u[0].0) == r_end(s[m].0));
            assert(u[0].1 == s[m].1);
            assert(c[t.len() as int] == u[0]);
            lemma_value_at_some(u, x, 0);
            lemma_value_at_some(c, x, t.len() as int);
        } else {
            assert(u[i - m] == s[i]);
            assert(c[t.len() + i - m] == u[i - m]);
            lemma_value_at_some(u, x, i - m);
            lemma_value_at_some(c, x, t.len() + i - m);
        }
    } else {
        assert forall|j: int|
            0 <= j < u.len() implies !(r_start((#[trigger] u[j]).0) <= x <= r_end(u[j].0)) by {
            if j == 0 && st == 1 {
                assert(r_end(u[0].0) == r_end(s[m].0));
                assert(!(r_start(s[m].0) <= x <= r_end(s[m].0)));
                assert(r_start(s[m].0) < sb);
            } else {
                assert(u[j] == s[j + m]);
            }
        }
        assert forall|j: int|
            0 <= j < c.len() implies !(r_start((#[trigger] c[j]).0) <= x <= r_end(c[j].0)) by {
            if j < t.len() {
                assert(c[j] == t[j]);
                if j < m {
                    assert(t[j] == s[j]);
                    assert(r_end(s[j].0) < sb);
                } else {
                    assert(r_end(t[j].0) == sb - 1);
                }
            } else {
                assert(c[j] == u[j - t.len()]);
                assert(!(r_start(u[j - t.len()].0) <= x <= r_end(u[j - t.len()].0)));
            }
        }
        lemma_value_at_none(u, x);
        lemma_value_at_none(c, x);
        lemma_value_at_none(s, x);
    }
}

/// Splitting a map and recombining the two halves by ascending start
/// bound reproduces the original: the concatenation is well-formed and
/// holds the original value at every position; moreover the kept half
/// agrees with the original below the split bound and the moved half
/// at or above it.
pub proof fn lemma_split_round_trip<K: NiceRange, V>(
    s: Seq<(K, V)>,
    t: Seq<(K, V)>,
    u: Seq<(K, V)>,
    b: Bound,
)
    requires
        entries_wf(s),
        entries_wf(t),
        entries_wf(u),
        split_shape(s, t, u, b),
    ensures
        entries_wf(t + u),
        forall|x: int| #[trigger] value_at(t + u, x) == value_at(s, x),
        forall|x: int| x < start_key(b) ==> #[trigger] value_at(t, x) == value_at(s, x),
        forall|x: int| x >= start_key(b) ==> #[trigger] value_at(u, x) == value_at(s, x),
{
    lemma_split_concat_wf(s, t, u, b);
    assert forall|x: int| #[trigger] value_at(t + u, x) == value_at(s, x) by {
        if x < start_key(b) {
            lemma_split_value_below(s, t, u, b, x);
        } else {
            lemma_split_value_above(s, t, u, b, x);
        }
    }
    assert forall|x: int| x < start_key(b) implies #[trigger] value_at(t, x) == value_at(s, x) by {
        lemma_split_value_below(s, t, u, b, x);
    }
    assert forall|x: int| x >= start_key(b) implies #[trigger] value_at(u, x) == value_at(
        s,
        x,
    ) by {
        lemma_split_value_above(s, t, u, b, x);
    }
}

/// Cutting and then re-inserting exactly the returned pieces restores
/// the pre-cut coverage: at every position, the pre-cut value is the
/// piece value inside the cut span and the post-cut map value outside
/// it, the two never both present.
pub proof fn lemma_cut_round_trip<K: NiceRange, V>(
    s: Seq<(K, V)>,
    t: Seq<(K, V)>,
    qsb: Bound,
    qeb: Bound,
)
    requires
        entries_wf(s),
        entries_wf(t),
        start_key(qsb) <= end_key(qeb),
        cut_shape(s, t, qsb, qeb),
    ensures
        forall|x: int|
            #![trigger value_at(s, x)]
            value_at(s, x) == if start_key(qsb) <= x <= end_key(qeb) {
                pair_value_at(cut_pieces(s, qsb, qeb), x)
            } else {
                value_at(t, x)
            },
        forall|x: int|
            start_key(qsb) <= x <= end_key(qeb) ==> #[trigger] value_at(t, x) is None,
        forall|x: int|
            !(start_key(qsb) <= x <= end_key(qeb)) ==> #[trigger] pair_value_at(
                cut_pieces(s, qsb, qeb),
                x,
            ) is None,
{
    assert forall|x: int| #![trigger value_at(s, x)] #![trigger value_at(t, x)] #![trigger pair_value_at(cut_pieces(s, qsb, qeb), x)]
        value_at(s, x) == (if start_key(qsb) <= x <= end_key(qeb) {
            pair_value_at(cut_pieces(s, qsb, qeb), x)
        } else {
            value_at(t, x)
        }) && (start_key(qsb) <= x <= end_key(qeb) ==> value_at(t, x) is None) && (!(start_key(qsb)
        <= x <= end_key(qeb)) ==> pair_value_at(cut_pieces(s, qsb, qeb), x) is None) by {
        lemma_cut_value_at(s, t, qsb, qeb, x);
        lemma_cut_pieces_value_at(s, qsb, qeb, x);
    }
}

} // verus!
