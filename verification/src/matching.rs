//! The matching engine: decides which candidate lines contain the query as a
//! case-insensitive subsequence and scores each match by the tightness and
//! position of its best alignment.
//!
//! A candidate matches when the query's characters occur in it, in order,
//! compared after ASCII case folding (`lemma_match_is_subsequence`). A
//! match is scored by the pair `(span, start)` of its best alignment: the
//! smallest span (last matched position minus first, inclusive) over all
//! alignments of the query in the candidate, with span ties broken toward
//! the earliest start — `lemma_best_minimal` and `lemma_best_achieved`
//! prove the reported score optimal and attained. Lower scores rank
//! better; candidates that score equally keep their original input order.
use vstd::prelude::*;
use vstd::string::StrSliceExecFns;

verus! {

/// ASCII case folding: uppercase letters map to lowercase, everything else
/// is unchanged. Queries and candidates are compared through this fold.
pub open spec fn lower(c: char) -> char {
    if 'A' <= c && c <= 'Z' {
        ((c as u8) + 32) as char
    } else {
        c
    }
}

/// Executable counterpart of `lower`.
pub fn lower_char(c: char) -> (r: char)
    ensures
        r == lower(c),
{
    if 'A' <= c && c <= 'Z' {
        ((c as u8) + 32) as char
    } else {
        c
    }
}

/// Shifts the index inside an optional scan result by `k` positions.
pub open spec fn opt_shift_end(o: Option<int>, k: int) -> Option<int> {
    match o {
        Option::Some(e) => Option::Some(e + k),
        Option::None => Option::None,
    }
}

/// Greedy left-to-right scan: the index just past the last character of `c`
/// consumed when matching all of `q` as a case-insensitive subsequence,
/// taking every character of `q` at its earliest possible position; `None`
/// when `q` does not occur in `c` as such a subsequence.
pub open spec fn gmatch_end(q: Seq<char>, c: Seq<char>) -> Option<int>
    decreases c.len(),
{
    if q.len() == 0 {
        Option::Some(0)
    } else if c.len() == 0 {
        Option::None
    } else if lower(q[0]) == lower(c[0]) {
        opt_shift_end(gmatch_end(q.skip(1), c.skip(1)), 1)
    } else {
        opt_shift_end(gmatch_end(q, c.skip(1)), 1)
    }
}

/// Shifts the start position inside an optional `(span, start)` score by `k`.
pub open spec fn opt_shift_score(o: Option<(int, int)>, k: int) -> Option<(int, int)> {
    match o {
        Option::Some(p) => Option::Some((p.0, p.1 + k)),
        Option::None => Option::None,
    }
}

/// The best `(span, start)` alignment of a non-empty query `q` in `c`:
/// every position of `c` that case-folds equal to `q`'s first character and
/// whose greedy continuation completes the rest of `q` yields an alignment;
/// the smallest span wins, and span ties go to the earliest start.
/// `None` when no alignment exists.
pub open spec fn best(q: Seq<char>, c: Seq<char>) -> Option<(int, int)>
    decreases c.len(),
{
    if q.len() == 0 || c.len() == 0 {
        Option::None
    } else {
        let rest = opt_shift_score(best(q, c.skip(1)), 1);
        if lower(c[0]) == lower(q[0]) {
            match gmatch_end(q.skip(1), c.skip(1)) {
                Option::Some(e) => {
                    match rest {
                        Option::Some(p) => if p.0 < 1 + e {
                            Option::Some(p)
                        } else {
                            Option::Some((1 + e, 0))
                        },
                        Option::None => Option::Some((1 + e, 0)),
                    }
                }
                Option::None => rest,
            }
        } else {
            rest
        }
    }
}

/// The score of `c` against `q`: the empty query matches everything with
/// the best possible score, a non-empty query scores by its best alignment.
pub open spec fn full_score(q: Seq<char>, c: Seq<char>) -> Option<(int, int)> {
    if q.len() == 0 {
        Option::Some((0, 0))
    } else {
        best(q, c)
    }
}

/// Whether candidate `c` matches query `q`.
pub open spec fn is_match(q: Seq<char>, c: Seq<char>) -> bool {
    full_score(q, c) is Some
}

/// The plain subsequence predicate: every character of `q` occurs in `c`,
/// in order, compared after ASCII case folding. `is_match` is proved
/// equivalent to this.
pub open spec fn is_subseq(q: Seq<char>, c: Seq<char>) -> bool
    decreases c.len(),
{
    if q.len() == 0 {
        true
    } else if c.len() == 0 {
        false
    } else {
        (lower(q[0]) == lower(c[0]) && is_subseq(q.skip(1), c.skip(1))) || is_subseq(q, c.skip(1))
    }
}

/// A character in front of the haystack never breaks a greedy match.
proof fn lemma_gmatch_cons(p: Seq<char>, d: Seq<char>)
    requires
        d.len() > 0,
        gmatch_end(p, d.skip(1)) is Some,
    ensures
        gmatch_end(p, d) is Some,
    decreases d.len(), 0int,
{
    if p.len() == 0 {
    } else if lower(p[0]) == lower(d[0]) {
        lemma_gmatch_drop(p, d.skip(1));
    }
}

/// When the whole query matches greedily, so does the query without its
/// first character.
proof fn lemma_gmatch_drop(q: Seq<char>, d: Seq<char>)
    requires
        q.len() > 0,
        gmatch_end(q, d) is Some,
    ensures
        gmatch_end(q.skip(1), d) is Some,
    decreases d.len(), 1int,
{
    assert(d.len() > 0);
    if lower(q[0]) == lower(d[0]) {
        lemma_gmatch_cons(q.skip(1), d);
    } else {
        lemma_gmatch_drop(q, d.skip(1));
        lemma_gmatch_cons(q.skip(1), d);
    }
}

/// The greedy scan succeeds exactly when the query is a case-insensitive
/// subsequence of the candidate.
proof fn lemma_gmatch_iff_subseq(q: Seq<char>, c: Seq<char>)
    ensures
        (gmatch_end(q, c) is Some) == is_subseq(q, c),
    decreases c.len(),
{
    if q.len() > 0 && c.len() > 0 {
        lemma_gmatch_iff_subseq(q.skip(1), c.skip(1));
        lemma_gmatch_iff_subseq(q, c.skip(1));
        if lower(q[0]) == lower(c[0]) && is_subseq(q, c.skip(1)) {
            lemma_gmatch_drop(q, c.skip(1));
        }
    }
}

/// Some alignment exists exactly when the greedy scan succeeds.
proof fn lemma_best_iff_gmatch(q: Seq<char>, c: Seq<char>)
    requires
        q.len() > 0,
    ensures
        (best(q, c) is Some) == (gmatch_end(q, c) is Some),
    decreases c.len(),
{
    if c.len() > 0 {
        lemma_best_iff_gmatch(q, c.skip(1));
        if lower(c[0]) == lower(q[0]) {
            if gmatch_end(q.skip(1), c.skip(1)) is None && gmatch_end(q, c.skip(1)) is Some {
                lemma_gmatch_drop(q, c.skip(1));
                assert(false);
            }
        }
    }
}

/// A candidate matches exactly when it contains the query as a
/// case-insensitive subsequence.
pub proof fn lemma_match_is_subsequence(q: Seq<char>, c: Seq<char>)
    ensures
        is_match(q, c) == is_subseq(q, c),
{
    if q.len() > 0 {
        lemma_best_iff_gmatch(q, c);
        lemma_gmatch_iff_subseq(q, c);
    }
}

/// The end index inside an optional scan result, zero when there is none.
pub open spec fn end_val(o: Option<int>) -> int {
    match o {
        Option::Some(e) => e,
        Option::None => 0,
    }
}

/// The span inside an optional score, zero when there is none.
pub open spec fn score_span(o: Option<(int, int)>) -> int {
    match o {
        Option::Some(p) => p.0,
        Option::None => 0,
    }
}

/// The start inside an optional score, zero when there is none.
pub open spec fn score_start(o: Option<(int, int)>) -> int {
    match o {
        Option::Some(p) => p.1,
        Option::None => 0,
    }
}

/// One way the query can sit inside a candidate: strictly increasing
/// positions, one per query character, equal after case folding.
pub open spec fn is_alignment(q: Seq<char>, c: Seq<char>, a: Seq<int>) -> bool {
    &&& a.len() == q.len()
    &&& (forall|i: int|
        0 <= i < a.len() ==> 0 <= #[trigger] a[i] < c.len() && lower(c[a[i]]) == lower(q[i]))
    &&& (forall|i: int| 0 <= i < a.len() - 1 ==> #[trigger] a[i] < a[i + 1])
}

/// Strictly increasing positions grow at least as fast as their index.
proof fn lemma_align_chain(a: Seq<int>, i: int, j: int)
    requires
        forall|k: int| 0 <= k < a.len() - 1 ==> #[trigger] a[k] < a[k + 1],
        0 <= i <= j < a.len(),
    ensures
        a[i] + (j - i) <= a[j],
    decreases j - i,
{
    if i < j {
        lemma_align_chain(a, i, j - 1);
    }
}

/// The greedy scan ends no later than any alignment: its end index is at
/// most one past the last position of every alignment.
proof fn lemma_align_gmatch_bound(q: Seq<char>, c: Seq<char>, a: Seq<int>)
    requires
        q.len() > 0,
        is_alignment(q, c, a),
    ensures
        gmatch_end(q, c) is Some,
        end_val(gmatch_end(q, c)) <= a.last() + 1,
    decreases c.len(),
{
    assert(0 <= a[0] < c.len());
    if lower(q[0]) == lower(c[0]) {
        if q.len() == 1 {
            assert(q.skip(1).len() == 0);
            assert(a.last() == a[0]);
        } else {
            let a2 = a.skip(1).map_values(|x: int| x - 1);
            assert forall|i: int| 0 <= i < a2.len() implies 0 <= #[trigger] a2[i] < c.skip(
                1,
            ).len() && lower(c.skip(1)[a2[i]]) == lower(q.skip(1)[i]) by {
                assert(a2[i] == a[i + 1] - 1);
                assert(a[i] < a[i + 1]);
                assert(0 <= a[i]);
                assert(0 <= a[i + 1] < c.len());
                assert(c.skip(1)[a[i + 1] - 1] == c[a[i + 1]]);
                assert(q.skip(1)[i] == q[i + 1]);
            }
            assert forall|i: int| 0 <= i < a2.len() - 1 implies #[trigger] a2[i] < a2[i + 1] by {
                assert(a2[i] == a[i + 1] - 1);
                assert(a2[i + 1] == a[i + 2] - 1);
                assert(a[i + 1] < a[i + 2]);
            }
            assert(is_alignment(q.skip(1), c.skip(1), a2));
            lemma_align_gmatch_bound(q.skip(1), c.skip(1), a2);
            assert(a2.last() == a[a.len() - 1] - 1);
        }
    } else {
        assert(a[0] != 0);
        let a2 = a.map_values(|x: int| x - 1);
        assert forall|i: int| 0 <= i < a2.len() implies 0 <= #[trigger] a2[i] < c.skip(1).len()
            && lower(c.skip(1)[a2[i]]) == lower(q[i]) by {
            assert(a2[i] == a[i] - 1);
            if i > 0 {
                assert(a[i - 1] < a[i]);
                assert(0 <= a[i - 1]);
            }
            assert(c.skip(1)[a[i] - 1] == c[a[i]]);
        }
        assert forall|i: int| 0 <= i < a2.len() - 1 implies #[trigger] a2[i] < a2[i + 1] by {
            assert(a[i] < a[i + 1]);
        }
        assert(is_alignment(q, c.skip(1), a2));
        lemma_align_gmatch_bound(q, c.skip(1), a2);
        assert(a2.last() == a[a.len() - 1] - 1);
    }
}

/// Wherever the first query character matches and the greedy continuation
/// completes, the reported score is at least as good as that alignment:
/// never a larger span, and on an equal span never a later start.
proof fn lemma_best_bound_at(q: Seq<char>, c: Seq<char>, s: int, e2: int)
    requires
        q.len() > 0,
        0 <= s < c.len(),
        lower(c[s]) == lower(q[0]),
        gmatch_end(q.skip(1), c.skip(s + 1)) == Option::<int>::Some(e2),
    ensures
        best(q, c) is Some,
        score_span(best(q, c)) <= 1 + e2,
        score_span(best(q, c)) == 1 + e2 ==> score_start(best(q, c)) <= s,
    decreases c.len(),
{
    if s == 0 {
        assert(c.skip(s + 1) =~= c.skip(1));
    } else {
        assert(c.skip(1)[s - 1] == c[s]);
        assert(c.skip(1).skip(s - 1 + 1) =~= c.skip(s + 1));
        lemma_best_bound_at(q, c.skip(1), s - 1, e2);
    }
}

/// The reported score is achieved: some alignment has exactly the reported
/// start and span.
pub proof fn lemma_best_achieved(q: Seq<char>, c: Seq<char>)
    requires
        q.len() > 0,
        best(q, c) is Some,
    ensures
        exists|a: Seq<int>|
            is_alignment(q, c, a) && a[0] == score_start(best(q, c)) && a.last() - a[0] + 1
                == score_span(best(q, c)),
    decreases c.len(),
{
    assert(c.len() > 0);
    let here_possible = lower(c[0]) == lower(q[0]) && gmatch_end(q.skip(1), c.skip(1)) is Some;
    if here_possible && (match opt_shift_score(best(q, c.skip(1)), 1) {
        Option::Some(p) => !(p.0 < 1 + end_val(gmatch_end(q.skip(1), c.skip(1)))),
        Option::None => true,
    }) {
        let e2 = end_val(gmatch_end(q.skip(1), c.skip(1)));
        if q.len() == 1 {
            let a = seq![0int];
            assert(q.skip(1).len() == 0);
            assert(e2 == 0);
            assert(is_alignment(q, c, a));
            assert(a[0] == score_start(best(q, c)) && a.last() - a[0] + 1 == score_span(
                best(q, c),
            ));
        } else {
            lemma_gmatch_align_exists(q.skip(1), c.skip(1));
            let a1 = choose|a1: Seq<int>|
                is_alignment(q.skip(1), c.skip(1), a1) && a1.last() == end_val(
                    gmatch_end(q.skip(1), c.skip(1)),
                ) - 1;
            let a = seq![0int] + a1.map_values(|x: int| x + 1);
            assert forall|i: int| 0 <= i < a.len() implies 0 <= #[trigger] a[i] < c.len() && lower(
                c[a[i]],
            ) == lower(q[i]) by {
                if i > 0 {
                    assert(a[i] == a1[i - 1] + 1);
                    assert(0 <= a1[i - 1] < c.skip(1).len());
                    assert(c.skip(1)[a1[i - 1]] == c[a1[i - 1] + 1]);
                    assert(q.skip(1)[i - 1] == q[i]);
                }
            }
            assert forall|i: int| 0 <= i < a.len() - 1 implies #[trigger] a[i] < a[i + 1] by {
                if i > 0 {
                    assert(a[i] == a1[i - 1] + 1);
                    assert(a[i + 1] == a1[i] + 1);
                    assert(a1[i - 1] < a1[i]);
                } else {
                    assert(a[1] == a1[0] + 1);
                    assert(0 <= a1[0]);
                }
            }
            assert(is_alignment(q, c, a));
            assert(a.last() == a1.last() + 1);
            assert(a[0] == score_start(best(q, c)) && a.last() - a[0] + 1 == score_span(
                best(q, c),
            ));
        }
    } else {
        assert(best(q, c.skip(1)) is Some);
        lemma_best_achieved(q, c.skip(1));
        let a1 = choose|a1: Seq<int>|
            is_alignment(q, c.skip(1), a1) && a1[0] == score_start(best(q, c.skip(1)))
                && a1.last() - a1[0] + 1 == score_span(best(q, c.skip(1)));
        let a = a1.map_values(|x: int| x + 1);
        assert forall|i: int| 0 <= i < a.len() implies 0 <= #[trigger] a[i] < c.len() && lower(
            c[a[i]],
        ) == lower(q[i]) by {
            assert(a[i] == a1[i] + 1);
            assert(0 <= a1[i] < c.skip(1).len());
            assert(c.skip(1)[a1[i]] == c[a1[i] + 1]);
        }
        assert forall|i: int| 0 <= i < a.len() - 1 implies #[trigger] a[i] < a[i + 1] by {
            assert(a[i] == a1[i] + 1);
            assert(a[i + 1] == a1[i + 1] + 1);
            assert(a1[i] < a1[i + 1]);
        }
        assert(is_alignment(q, c, a));
        assert(a.last() == a1.last() + 1);
        assert(a[0] == a1[0] + 1);
        assert(a[0] == score_start(best(q, c)) && a.last() - a[0] + 1 == score_span(best(q, c)));
    }
}

/// A greedy scan that succeeds is realized by an alignment ending exactly
/// where the scan ended.
proof fn lemma_gmatch_align_exists(q: Seq<char>, c: Seq<char>)
    requires
        q.len() > 0,
        gmatch_end(q, c) is Some,
    ensures
        exists|a: Seq<int>|
            is_alignment(q, c, a) && a.last() == end_val(gmatch_end(q, c)) - 1,
    decreases c.len(),
{
    assert(c.len() > 0);
    if lower(q[0]) == lower(c[0]) {
        if q.len() == 1 {
            let a = seq![0int];
            assert(q.skip(1).len() == 0);
            assert(is_alignment(q, c, a));
            assert(a.last() == end_val(gmatch_end(q, c)) - 1);
        } else {
            lemma_gmatch_align_exists(q.skip(1), c.skip(1));
            let a1 = choose|a1: Seq<int>|
                is_alignment(q.skip(1), c.skip(1), a1) && a1.last() == end_val(
                    gmatch_end(q.skip(1), c.skip(1)),
                ) - 1;
            let a = seq![0int] + a1.map_values(|x: int| x + 1);
            assert forall|i: int| 0 <= i < a.len() implies 0 <= #[trigger] a[i] < c.len() && lower(
                c[a[i]],
            ) == lower(q[i]) by {
                if i > 0 {
                    assert(a[i] == a1[i - 1] + 1);
                    assert(0 <= a1[i - 1] < c.skip(1).len());
                    assert(c.skip(1)[a1[i - 1]] == c[a1[i - 1] + 1]);
                    assert(q.skip(1)[i - 1] == q[i]);
                }
            }
            assert forall|i: int| 0 <= i < a.len() - 1 implies #[trigger] a[i] < a[i + 1] by {
                if i > 0 {
                    assert(a[i] == a1[i - 1] + 1);
                    assert(a[i + 1] == a1[i] + 1);
                    assert(a1[i - 1] < a1[i]);
                } else {
                    assert(a[1] == a1[0] + 1);
                    assert(0 <= a1[0]);
                }
            }
            assert(is_alignment(q, c, a));
            assert(a.last() == a1.last() + 1);
            assert(a.last() == end_val(gmatch_end(q, c)) - 1);
        }
    } else {
        lemma_gmatch_align_exists(q, c.skip(1));
        let a1 = choose|a1: Seq<int>|
            is_alignment(q, c.skip(1), a1) && a1.last() == end_val(gmatch_end(q, c.skip(1))) - 1;
        let a = a1.map_values(|x: int| x + 1);
        assert forall|i: int| 0 <= i < a.len() implies 0 <= #[trigger] a[i] < c.len() && lower(
            c[a[i]],
        ) == lower(q[i]) by {
            assert(a[i] == a1[i] + 1);
            assert(0 <= a1[i] < c.skip(1).len());
            assert(c.skip(1)[a1[i]] == c[a1[i] + 1]);
        }
        assert forall|i: int| 0 <= i < a.len() - 1 implies #[trigger] a[i] < a[i + 1] by {
            assert(a[i] == a1[i] + 1);
            assert(a[i + 1] == a1[i + 1] + 1);
            assert(a1[i] < a1[i + 1]);
        }
        assert(is_alignment(q, c, a));
        assert(a.last() == a1.last() + 1);
        assert(a.last() == end_val(gmatch_end(q, c)) - 1);
    }
}

/// Optimality of the reported score: no alignment of the query in the
/// candidate has a smaller span, and among alignments of the minimal span
/// none starts earlier than the reported one.
pub proof fn lemma_best_minimal(q: Seq<char>, c: Seq<char>, a: Seq<int>)
    requires
        q.len() > 0,
        is_alignment(q, c, a),
    ensures
        best(q, c) is Some,
        score_span(best(q, c)) <= a.last() - a[0] + 1,
        score_span(best(q, c)) == a.last() - a[0] + 1 ==> score_start(best(q, c)) <= a[0],
{
    let s = a[0];
    assert(0 <= s < c.len() && lower(c[s]) == lower(q[0]));
    if q.len() == 1 {
        assert(q.skip(1).len() == 0);
        assert(a.last() == s);
        lemma_best_bound_at(q, c, s, 0);
    } else {
        let a2 = a.skip(1).map_values(|x: int| x - (s + 1));
        assert forall|i: int| 0 <= i < a2.len() implies 0 <= #[trigger] a2[i] < c.skip(
            s + 1,
        ).len() && lower(c.skip(s + 1)[a2[i]]) == lower(q.skip(1)[i]) by {
            assert(a2[i] == a[i + 1] - (s + 1));
            lemma_align_chain(a, 0, i + 1);
            assert(0 <= a[i + 1] < c.len());
            assert(c.skip(s + 1)[a[i + 1] - (s + 1)] == c[a[i + 1]]);
            assert(q.skip(1)[i] == q[i + 1]);
        }
        assert forall|i: int| 0 <= i < a2.len() - 1 implies #[trigger] a2[i] < a2[i + 1] by {
            assert(a2[i] == a[i + 1] - (s + 1));
            assert(a2[i + 1] == a[i + 2] - (s + 1));
            assert(a[i + 1] < a[i + 2]);
        }
        assert(is_alignment(q.skip(1), c.skip(s + 1), a2));
        lemma_align_gmatch_bound(q.skip(1), c.skip(s + 1), a2);
        let e2 = end_val(gmatch_end(q.skip(1), c.skip(s + 1)));
        assert(a2.last() == a[a.len() - 1] - (s + 1));
        assert(e2 <= a.last() - s);
        lemma_best_bound_at(q, c, s, e2);
    }
}

/// The characters of `s`, in order.
pub fn chars_of(s: &str) -> (r: Vec<char>)
    ensures
        r@ == s@,
{
    let n = s.unicode_len();
    let mut r: Vec<char> = Vec::new();
    let mut i: usize = 0;
    while i < n
        invariant
            i <= n,
            n == s@.len(),
            r@ == s@.subrange(0, i as int),
        decreases n - i,
    {
        let ch = s.get_char(i);
        r.push(ch);
        i += 1;
        proof {
            assert(s@.subrange(0, i as int) =~= s@.subrange(0, i - 1).push(s@[i - 1]));
        }
    }
    proof {
        assert(s@.subrange(0, n as int) =~= s@);
    }
    r
}

/// Maps an optional absolute scan end back to the relative form that
/// `gmatch_end` speaks of.
pub open spec fn view_end(r: Option<usize>, ci0: int) -> Option<int> {
    match r {
        Option::Some(e) => Option::Some(e - ci0),
        Option::None => Option::None,
    }
}

/// Greedy scan of `q[qi0..]` through `c[ci0..]`; returns the absolute index
/// just past the last matched character, or `None` when the suffix of the
/// query cannot be completed.
fn greedy_end(q: &Vec<char>, qi0: usize, c: &Vec<char>, ci0: usize) -> (r: Option<usize>)
    requires
        qi0 <= q@.len(),
        ci0 <= c@.len(),
    ensures
        gmatch_end(q@.skip(qi0 as int), c@.skip(ci0 as int)) == view_end(r, ci0 as int),
        (match r {
            Option::Some(e) => ci0 <= e && e <= c@.len(),
            Option::None => true,
        }),
{
    let mut qi = qi0;
    let mut ci = ci0;
    loop
        invariant
            qi0 <= qi && qi <= q@.len(),
            ci0 <= ci && ci <= c@.len(),
            gmatch_end(q@.skip(qi0 as int), c@.skip(ci0 as int)) == opt_shift_end(
                gmatch_end(q@.skip(qi as int), c@.skip(ci as int)),
                ci - ci0,
            ),
        decreases c@.len() - ci,
    {
        if qi == q.len() {
            proof {
                assert(q@.skip(qi as int).len() == 0);
            }
            return Some(ci);
        }
        if ci == c.len() {
            proof {
                assert(c@.skip(ci as int).len() == 0);
                assert(q@.skip(qi as int).len() > 0);
            }
            return None;
        }
        let qc = lower_char(q[qi]);
        let cc = lower_char(c[ci]);
        proof {
            assert(q@.skip(qi as int)[0] == q@[qi as int]);
            assert(c@.skip(ci as int)[0] == c@[ci as int]);
            assert(q@.skip(qi as int).skip(1) =~= q@.skip(qi as int + 1));
            assert(c@.skip(ci as int).skip(1) =~= c@.skip(ci as int + 1));
        }
        if qc == cc {
            qi += 1;
            ci += 1;
        } else {
            ci += 1;
        }
    }
}

/// Maps an optional executable `(span, start)` score to its spec form.
pub open spec fn view_score(r: Option<(usize, usize)>) -> Option<(int, int)> {
    match r {
        Option::Some(p) => Option::Some((p.0 as int, p.1 as int)),
        Option::None => Option::None,
    }
}

/// Scores candidate `c` against query `q`: `None` when `c` does not match,
/// otherwise the best `(span, start)` alignment.
pub fn score_candidate(q: &Vec<char>, c: &Vec<char>) -> (r: Option<(usize, usize)>)
    ensures
        view_score(r) == full_score(q@, c@),
{
    if q.len() == 0 {
        return Some((0, 0));
    }
    let mut acc: Option<(usize, usize)> = None;
    let mut s: usize = c.len();
    proof {
        assert(c@.skip(s as int).len() == 0);
    }
    while s > 0
        invariant
            s <= c@.len(),
            q@.len() > 0,
            view_score(acc) == opt_shift_score(best(q@, c@.skip(s as int)), s as int),
        decreases s,
    {
        s -= 1;
        proof {
            assert(c@.skip(s as int)[0] == c@[s as int]);
            assert(c@.skip(s as int).skip(1) =~= c@.skip(s as int + 1));
        }
        if lower_char(c[s]) == lower_char(q[0]) {
            let ge = greedy_end(q, 1, c, s + 1);
            match ge {
                Some(e) => {
                    let span = e - s;
                    let take = match acc {
                        None => true,
                        Some(p) => span <= p.0,
                    };
                    if take {
                        acc = Some((span, s));
                    }
                }
                None => {}
            }
        }
    }
    proof {
        assert(c@.skip(0) =~= c@);
    }
    acc
}

/// The score and original position of one matching candidate.
pub ghost struct MatchInfo {
    pub span: int,
    pub start: int,
    pub idx: int,
}

/// Executable form of `MatchInfo`.
#[derive(Clone, Copy)]
pub struct Scored {
    pub span: usize,
    pub start: usize,
    pub idx: usize,
}

impl View for Scored {
    type V = MatchInfo;

    open spec fn view(&self) -> MatchInfo {
        MatchInfo { span: self.span as int, start: self.start as int, idx: self.idx as int }
    }
}

/// The character sequences of a list of lines.
pub open spec fn views(s: Seq<String>) -> Seq<Seq<char>> {
    s.map_values(|x: String| x@)
}

/// The spec values of a list of scored matches.
pub open spec fn infos_of(s: Seq<Scored>) -> Seq<MatchInfo> {
    s.map_values(|x: Scored| x@)
}

/// The score record of candidate number `i` against query `q`.
pub open spec fn info_of(q: Seq<char>, c: Seq<char>, i: int) -> MatchInfo {
    match full_score(q, c) {
        Option::Some(p) => MatchInfo { span: p.0, start: p.1, idx: i },
        Option::None => MatchInfo { span: 0, start: 0, idx: i },
    }
}

/// The score records of all matching candidates, in original input order.
pub open spec fn match_infos(cs: Seq<Seq<char>>, q: Seq<char>) -> Seq<MatchInfo>
    decreases cs.len(),
{
    if cs.len() == 0 {
        Seq::empty()
    } else {
        match_infos(cs.drop_last(), q) + (if is_match(q, cs.last()) {
            seq![info_of(q, cs.last(), cs.len() - 1)]
        } else {
            Seq::empty()
        })
    }
}

/// Strict ranking order: smaller span first, then earlier start, then
/// earlier original position. Total over distinct input positions.
pub open spec fn key_lt(a: MatchInfo, b: MatchInfo) -> bool {
    a.span < b.span || (a.span == b.span && a.start < b.start) || (a.span == b.span && a.start
        == b.start && a.idx < b.idx)
}

/// Inserts `x` behind every element that ranks strictly better.
pub open spec fn insert_sorted(s: Seq<MatchInfo>, x: MatchInfo) -> Seq<MatchInfo>
    decreases s.len(),
{
    if s.len() > 0 && key_lt(s[0], x) {
        seq![s[0]] + insert_sorted(s.skip(1), x)
    } else {
        seq![x] + s
    }
}

/// Insertion sort by `key_lt`.
pub open spec fn sort_by_key(s: Seq<MatchInfo>) -> Seq<MatchInfo>
    decreases s.len(),
{
    if s.len() == 0 {
        Seq::empty()
    } else {
        insert_sorted(sort_by_key(s.drop_last()), s.last())
    }
}

/// What the engine returns: the matching candidates, ranked best first.
pub open spec fn compute_matches_spec(cs: Seq<Seq<char>>, q: Seq<char>) -> Seq<Seq<char>> {
    sort_by_key(match_infos(cs, q)).map_values(|m: MatchInfo| cs[m.idx])
}

/// Every score record points back into the candidate list it came from.
pub open spec fn wf_infos(s: Seq<MatchInfo>, cs: Seq<Seq<char>>, q: Seq<char>) -> bool {
    forall|k: int|
        0 <= k < s.len() ==> {
            let m = #[trigger] s[k];
            0 <= m.idx < cs.len() && is_match(q, cs[m.idx]) && m == info_of(q, cs[m.idx], m.idx)
        }
}

pub proof fn lemma_match_infos_wf(cs: Seq<Seq<char>>, q: Seq<char>)
    ensures
        wf_infos(match_infos(cs, q), cs, q),
    decreases cs.len(),
{
    if cs.len() > 0 {
        lemma_match_infos_wf(cs.drop_last(), q);
        assert forall|k: int| 0 <= k < match_infos(cs, q).len() implies {
            let m = #[trigger] match_infos(cs, q)[k];
            0 <= m.idx < cs.len() && is_match(q, cs[m.idx]) && m == info_of(q, cs[m.idx], m.idx)
        } by {
            let prev = match_infos(cs.drop_last(), q);
            if k < prev.len() {
                assert(match_infos(cs, q)[k] == prev[k]);
                assert(cs.drop_last()[prev[k].idx] == cs[prev[k].idx]);
            } else {
                assert(is_match(q, cs.last()));
                assert(match_infos(cs, q)[k] == info_of(q, cs.last(), cs.len() - 1));
            }
        }
    }
}

proof fn lemma_insert_sorted_props(s: Seq<MatchInfo>, x: MatchInfo)
    ensures
        insert_sorted(s, x).len() == s.len() + 1,
        forall|y: MatchInfo| #[trigger] insert_sorted(s, x).contains(y) <==> (s.contains(y) || y
            == x),
    decreases s.len(),
{
    let r = insert_sorted(s, x);
    if s.len() > 0 && key_lt(s[0], x) {
        lemma_insert_sorted_props(s.skip(1), x);
        let t = insert_sorted(s.skip(1), x);
        assert forall|y: MatchInfo| #[trigger] r.contains(y) implies (s.contains(y) || y == x) by {
            let i = choose|i: int| 0 <= i < r.len() && r[i] == y;
            if i == 0 {
                assert(s[0] == y);
            } else {
                assert(t[i - 1] == y);
                assert(t.contains(y));
                if s.skip(1).contains(y) {
                    let j = choose|j: int| 0 <= j < s.skip(1).len() && s.skip(1)[j] == y;
                    assert(s[j + 1] == y);
                }
            }
        }
        assert forall|y: MatchInfo| (s.contains(y) || y == x) implies #[trigger] r.contains(
            y,
        ) by {
            if y == x || s.skip(1).contains(y) {
                assert(t.contains(y));
                let j = choose|j: int| 0 <= j < t.len() && t[j] == y;
                assert(r[j + 1] == y);
            } else {
                let i = choose|i: int| 0 <= i < s.len() && s[i] == y;
                if i == 0 {
                    assert(r[0] == y);
                } else {
                    assert(s.skip(1)[i - 1] == y);
                    assert(s.skip(1).contains(y));
                }
            }
        }
    } else {
        assert forall|y: MatchInfo| #[trigger] r.contains(y) implies (s.contains(y) || y == x) by {
            let i = choose|i: int| 0 <= i < r.len() && r[i] == y;
            if i > 0 {
                assert(s[i - 1] == y);
            }
        }
        assert forall|y: MatchInfo| (s.contains(y) || y == x) implies #[trigger] r.contains(
            y,
        ) by {
            if y == x {
                assert(r[0] == y);
            } else {
                let i = choose|i: int| 0 <= i < s.len() && s[i] == y;
                assert(r[i + 1] == y);
            }
        }
    }
}

pub proof fn lemma_sort_by_key_contains(s: Seq<MatchInfo>)
    ensures
        sort_by_key(s).len() == s.len(),
        forall|y: MatchInfo| #[trigger] sort_by_key(s).contains(y) <==> s.contains(y),
    decreases s.len(),
{
    if s.len() > 0 {
        lemma_sort_by_key_contains(s.drop_last());
        lemma_insert_sorted_props(sort_by_key(s.drop_last()), s.last());
        assert forall|y: MatchInfo| s.contains(y) implies (s.drop_last().contains(y) || y
            == s.last()) by {
            let i = choose|i: int| 0 <= i < s.len() && s[i] == y;
            if i < s.len() - 1 {
                assert(s.drop_last()[i] == y);
            }
        }
        assert forall|y: MatchInfo| s.drop_last().contains(y) implies #[trigger] s.contains(y) by {
            let i = choose|i: int| 0 <= i < s.drop_last().len() && s.drop_last()[i] == y;
            assert(s[i] == y);
        }
        assert(s[s.len() - 1] == s.last());
        assert(s.contains(s.last()));
    }
}

/// Where a scan stopped: the elements before `j` rank strictly better than
/// `x`, the one at `j` (if any) does not, so insertion lands at `j`.
proof fn lemma_insert_sorted_split(s: Seq<MatchInfo>, x: MatchInfo, j: int)
    requires
        0 <= j <= s.len(),
        forall|k: int| 0 <= k < j ==> key_lt(#[trigger] s[k], x),
        j < s.len() ==> !key_lt(s[j], x),
    ensures
        insert_sorted(s, x) == s.subrange(0, j) + seq![x] + s.skip(j),
    decreases j,
{
    if j == 0 {
        assert(insert_sorted(s, x) == seq![x] + s);
        assert(s.subrange(0, 0) + seq![x] + s.skip(0) =~= seq![x] + s);
    } else {
        assert(key_lt(s[0], x));
        assert forall|k: int| 0 <= k < j - 1 implies key_lt(#[trigger] s.skip(1)[k], x) by {
            assert(s.skip(1)[k] == s[k + 1]);
        }
        if j - 1 < s.skip(1).len() {
            assert(s.skip(1)[j - 1] == s[j]);
        }
        lemma_insert_sorted_split(s.skip(1), x, j - 1);
        assert(insert_sorted(s, x) == seq![s[0]] + insert_sorted(s.skip(1), x));
        assert(seq![s[0]] + (s.skip(1).subrange(0, j - 1) + seq![x] + s.skip(1).skip(j - 1)) =~= s.subrange(
            0,
            j,
        ) + seq![x] + s.skip(j));
    }
}

/// Executable ranking comparison.
pub fn lt_exec(a: &Scored, b: &Scored) -> (r: bool)
    ensures
        r == key_lt(a@, b@),
{
    if a.span < b.span {
        true
    } else if a.span == b.span && a.start < b.start {
        true
    } else if a.span == b.span && a.start == b.start && a.idx < b.idx {
        true
    } else {
        false
    }
}

/// Scores every candidate, keeping the matching ones in input order.
#[verifier::loop_isolation(false)]
fn collect_matches(choices: &Vec<String>, q: &Vec<char>) -> (r: Vec<Scored>)
    ensures
        infos_of(r@) == match_infos(views(choices@), q@),
{
    let ghost cs = views(choices@);
    let mut r: Vec<Scored> = Vec::new();
    let mut i: usize = 0;
    while i < choices.len()
        invariant
            i <= choices@.len(),
            infos_of(r@) == match_infos(cs.subrange(0, i as int), q@),
        decreases choices@.len() - i,
    {
        let cv = chars_of(choices[i].as_str());
        let sc = score_candidate(q, &cv);
        proof {
            assert(cs[i as int] == choices@[i as int]@);
            assert(cs.subrange(0, i + 1).drop_last() =~= cs.subrange(0, i as int));
            assert(cs.subrange(0, i + 1).last() == cs[i as int]);
        }
        match sc {
            Some(p) => {
                let ghost old_r = r@;
                r.push(Scored { span: p.0, start: p.1, idx: i });
                proof {
                    assert(infos_of(r@) =~= infos_of(old_r).push(
                        MatchInfo { span: p.0 as int, start: p.1 as int, idx: i as int },
                    ));
                    assert(is_match(q@, cs[i as int]));
                    assert(info_of(q@, cs[i as int], i as int) == MatchInfo {
                        span: p.0 as int,
                        start: p.1 as int,
                        idx: i as int,
                    });
                    assert(match_infos(cs.subrange(0, i + 1), q@) =~= match_infos(
                        cs.subrange(0, i as int),
                        q@,
                    ).push(info_of(q@, cs[i as int], i as int)));
                }
            }
            None => {
                proof {
                    assert(!is_match(q@, cs[i as int]));
                    assert(match_infos(cs.subrange(0, i + 1), q@) =~= match_infos(
                        cs.subrange(0, i as int),
                        q@,
                    ));
                }
            }
        }
        i += 1;
    }
    proof {
        assert(cs.subrange(0, choices@.len() as int) =~= cs);
    }
    r
}

/// Insertion sort of the scored matches, ranked by `key_lt`.
#[verifier::loop_isolation(false)]
fn sort_scored(v: &Vec<Scored>) -> (r: Vec<Scored>)
    ensures
        infos_of(r@) == sort_by_key(infos_of(v@)),
{
    let mut out: Vec<Scored> = Vec::new();
    let mut i: usize = 0;
    while i < v.len()
        invariant
            i <= v@.len(),
            infos_of(out@) == sort_by_key(infos_of(v@.subrange(0, i as int))),
        decreases v@.len() - i,
    {
        let x = v[i];
        let mut j: usize = 0;
        while j < out.len() && lt_exec(&out[j], &x)
            invariant
                j <= out@.len(),
                forall|k: int| 0 <= k < j ==> key_lt(#[trigger] out@[k]@, x@),
            decreases out@.len() - j,
        {
            j += 1;
        }
        let ghost before = infos_of(out@);
        proof {
            assert forall|k: int| 0 <= k < j implies key_lt(#[trigger] before[k], x@) by {
                assert(before[k] == out@[k]@);
            }
            lemma_insert_sorted_split(before, x@, j as int);
        }
        out.insert(j, x);
        proof {
            assert(infos_of(out@) =~= before.subrange(0, j as int) + seq![x@] + before.skip(
                j as int,
            ));
            assert(infos_of(v@.subrange(0, i + 1)).drop_last() =~= infos_of(
                v@.subrange(0, i as int),
            ));
            assert(infos_of(v@.subrange(0, i + 1)).last() == v@[i as int]@);
        }
        i += 1;
    }
    proof {
        assert(v@.subrange(0, v@.len() as int) =~= v@);
    }
    out
}

/// The matching candidates ranked best first: tightest alignment span, then
/// earliest alignment start, then original input order. An empty query
/// matches every candidate and keeps the input order.
#[verifier::loop_isolation(false)]
pub fn compute_matches(choices: &Vec<String>, query: &str) -> (r: Vec<String>)
    ensures
        views(r@) == compute_matches_spec(views(choices@), query@),
{
    let q = chars_of(query);
    let scored = collect_matches(choices, &q);
    let sorted = sort_scored(&scored);
    let ghost cs = views(choices@);
    let ghost infos = sort_by_key(match_infos(cs, q@));
    proof {
        lemma_match_infos_wf(cs, q@);
        lemma_sort_by_key_contains(match_infos(cs, q@));
    }
    let mut r: Vec<String> = Vec::new();
    let mut i: usize = 0;
    while i < sorted.len()
        invariant
            i <= sorted@.len(),
            views(r@) == infos.map_values(|m: MatchInfo| cs[m.idx]).subrange(0, i as int),
        decreases sorted@.len() - i,
    {
        let m = sorted[i];
        proof {
            assert(infos[i as int] == sorted@[i as int]@);
            assert(infos.contains(m@));
            assert(match_infos(cs, q@).contains(m@));
            let k = match_infos(cs, q@).lemma_contains_to_index(m@);
            assert(0 <= m@.idx < cs.len());
        }
        let text = choices[m.idx].clone();
        let ghost old_r = r@;
        r.push(text);
        proof {
            assert(views(r@) =~= views(old_r).push(choices@[m.idx as int]@));
            assert(infos.map_values(|mm: MatchInfo| cs[mm.idx])[i as int] == cs[m@.idx]);
            assert(infos.map_values(|mm: MatchInfo| cs[mm.idx]).subrange(0, i + 1) =~= infos
                .map_values(|mm: MatchInfo| cs[mm.idx]).subrange(0, i as int).push(cs[m@.idx]));
        }
        i += 1;
    }
    proof {
        assert(infos.map_values(|m: MatchInfo| cs[m.idx]).subrange(0, sorted@.len() as int)
            =~= infos.map_values(|m: MatchInfo| cs[m.idx]));
    }
    r
}

/// A match list whose entries rank strictly better from first to last.
pub open spec fn strictly_ranked(s: Seq<MatchInfo>) -> bool {
    forall|i: int, j: int| 0 <= i < j < s.len() ==> key_lt(#[trigger] s[i], #[trigger] s[j])
}

proof fn lemma_insert_sorted_strict(s: Seq<MatchInfo>, x: MatchInfo)
    requires
        strictly_ranked(s),
        forall|k: int| 0 <= k < s.len() ==> (#[trigger] s[k]).idx != x.idx,
    ensures
        strictly_ranked(insert_sorted(s, x)),
    decreases s.len(),
{
    let r = insert_sorted(s, x);
    if s.len() > 0 && key_lt(s[0], x) {
        assert forall|k: int| 0 <= k < s.skip(1).len() implies (#[trigger] s.skip(1)[k]).idx
            != x.idx by {
            assert(s.skip(1)[k] == s[k + 1]);
        }
        lemma_insert_sorted_props(s.skip(1), x);
        lemma_insert_sorted_strict(s.skip(1), x);
        let t = insert_sorted(s.skip(1), x);
        assert forall|i: int, j: int| 0 <= i < j < r.len() implies key_lt(
            #[trigger] r[i],
            #[trigger] r[j],
        ) by {
            if i == 0 {
                assert(r[j] == t[j - 1]);
                assert(t.contains(t[j - 1]));
                if s.skip(1).contains(t[j - 1]) {
                    let k = choose|k: int| 0 <= k < s.skip(1).len() && s.skip(1)[k] == t[j - 1];
                    assert(s[k + 1] == t[j - 1]);
                    assert(key_lt(s[0], s[k + 1]));
                } else {
                    assert(t[j - 1] == x);
                }
            } else {
                assert(r[i] == t[i - 1]);
                assert(r[j] == t[j - 1]);
            }
        }
    } else {
        assert forall|i: int, j: int| 0 <= i < j < r.len() implies key_lt(
            #[trigger] r[i],
            #[trigger] r[j],
        ) by {
            if i == 0 {
                assert(r[0] == x);
                assert(r[j] == s[j - 1]);
                assert(s[0].idx != x.idx);
                assert(key_lt(x, s[0]));
                if j - 1 > 0 {
                    assert(key_lt(s[0], s[j - 1]));
                }
            } else {
                assert(r[i] == s[i - 1]);
                assert(r[j] == s[j - 1]);
            }
        }
    }
}

proof fn lemma_sort_strict(s: Seq<MatchInfo>)
    requires
        forall|i: int, j: int| 0 <= i < j < s.len() ==> (#[trigger] s[i]).idx != (
        #[trigger] s[j]).idx,
    ensures
        strictly_ranked(sort_by_key(s)),
    decreases s.len(),
{
    if s.len() > 0 {
        assert forall|i: int, j: int| 0 <= i < j < s.drop_last().len() implies (
        #[trigger] s.drop_last()[i]).idx != (#[trigger] s.drop_last()[j]).idx by {
            assert(s.drop_last()[i] == s[i]);
            assert(s.drop_last()[j] == s[j]);
        }
        lemma_sort_strict(s.drop_last());
        lemma_sort_by_key_contains(s.drop_last());
        let t = sort_by_key(s.drop_last());
        assert forall|k: int| 0 <= k < t.len() implies (#[trigger] t[k]).idx != s.last().idx by {
            assert(t.contains(t[k]));
            assert(s.drop_last().contains(t[k]));
            let m = choose|m: int| 0 <= m < s.drop_last().len() && s.drop_last()[m] == t[k];
            assert(s[m] == t[k]);
            assert(s[m].idx != s[s.len() - 1].idx);
        }
        lemma_insert_sorted_strict(t, s.last());
    }
}

proof fn lemma_match_infos_increasing(cs: Seq<Seq<char>>, q: Seq<char>)
    ensures
        forall|i: int, j: int|
            0 <= i < j < match_infos(cs, q).len() ==> (#[trigger] match_infos(cs, q)[i]).idx < (
            #[trigger] match_infos(cs, q)[j]).idx,
    decreases cs.len(),
{
    if cs.len() > 0 {
        lemma_match_infos_increasing(cs.drop_last(), q);
        lemma_match_infos_wf(cs.drop_last(), q);
        let prev = match_infos(cs.drop_last(), q);
        let mi = match_infos(cs, q);
        assert forall|i: int, j: int| 0 <= i < j < mi.len() implies (#[trigger] mi[i]).idx < (
        #[trigger] mi[j]).idx by {
            if j < prev.len() {
                assert(mi[i] == prev[i]);
                assert(mi[j] == prev[j]);
            } else {
                assert(mi[j] == info_of(q, cs.last(), cs.len() - 1));
                assert(mi[i] == prev[i]);
                assert(prev[i].idx < cs.drop_last().len());
            }
        }
    }
}

proof fn lemma_match_infos_complete(cs: Seq<Seq<char>>, q: Seq<char>, j: int)
    requires
        0 <= j < cs.len(),
        is_match(q, cs[j]),
    ensures
        match_infos(cs, q).contains(info_of(q, cs[j], j)),
    decreases cs.len(),
{
    let mi = match_infos(cs, q);
    let prev = match_infos(cs.drop_last(), q);
    if j == cs.len() - 1 {
        assert(cs.last() == cs[j]);
        assert(mi[prev.len() as int] == info_of(q, cs[j], j));
        assert(mi.contains(info_of(q, cs[j], j)));
    } else {
        assert(cs.drop_last()[j] == cs[j]);
        lemma_match_infos_complete(cs.drop_last(), q, j);
        let k = prev.lemma_contains_to_index(info_of(q, cs[j], j));
        assert(mi[k] == prev[k]);
        assert(mi.contains(info_of(q, cs[j], j)));
    }
}

/// A line stands in the result if and only if it stands in the candidate
/// list and contains the query as a case-insensitive subsequence: every
/// returned line does, and no candidate line that does is left out.
pub proof fn lemma_match_set_exact(cs: Seq<Seq<char>>, q: Seq<char>)
    ensures
        forall|v: Seq<char>| #[trigger] compute_matches_spec(cs, q).contains(v) <==> (cs.contains(
            v,
        ) && is_match(q, v)),
        forall|v: Seq<char>| #[trigger] compute_matches_spec(cs, q).contains(v) <==> (cs.contains(
            v,
        ) && is_subseq(q, v)),
{
    assert forall|v: Seq<char>| is_match(q, v) == is_subseq(q, v) by {
        lemma_match_is_subsequence(q, v);
    }
    let mi = match_infos(cs, q);
    let r = sort_by_key(mi);
    let res = compute_matches_spec(cs, q);
    lemma_match_infos_wf(cs, q);
    lemma_sort_by_key_contains(mi);
    assert forall|v: Seq<char>| #[trigger] res.contains(v) implies (cs.contains(v) && is_match(
        q,
        v,
    )) by {
        let i = choose|i: int| 0 <= i < res.len() && res[i] == v;
        assert(res[i] == cs[r[i].idx]);
        assert(r.contains(r[i]));
        assert(mi.contains(r[i]));
        let k = mi.lemma_contains_to_index(r[i]);
        assert(0 <= r[i].idx < cs.len() && is_match(q, cs[r[i].idx]));
        assert(cs[r[i].idx] == v);
        assert(cs.contains(v));
    }
    assert forall|v: Seq<char>| (cs.contains(v) && is_match(q, v)) implies #[trigger] res.contains(
        v,
    ) by {
        let j = choose|j: int| 0 <= j < cs.len() && cs[j] == v;
        lemma_match_infos_complete(cs, q, j);
        assert(r.contains(info_of(q, cs[j], j)));
        let k = r.lemma_contains_to_index(info_of(q, cs[j], j));
        assert(res[k] == cs[r[k].idx]);
        assert(r[k].idx == j);
        assert(res.contains(v));
    }
}

proof fn lemma_match_infos_empty_query(cs: Seq<Seq<char>>)
    ensures
        match_infos(cs, Seq::<char>::empty()).len() == cs.len(),
        forall|i: int|
            0 <= i < cs.len() ==> #[trigger] match_infos(cs, Seq::<char>::empty())[i] == (MatchInfo {
                span: 0,
                start: 0,
                idx: i,
            }),
    decreases cs.len(),
{
    let q = Seq::<char>::empty();
    if cs.len() > 0 {
        lemma_match_infos_empty_query(cs.drop_last());
        assert(is_match(q, cs.last()));
        assert(info_of(q, cs.last(), cs.len() - 1) == (MatchInfo {
            span: 0,
            start: 0,
            idx: cs.len() - 1,
        }));
    }
}

proof fn lemma_insert_sorted_at_end(s: Seq<MatchInfo>, x: MatchInfo)
    requires
        forall|k: int| 0 <= k < s.len() ==> key_lt(#[trigger] s[k], x),
    ensures
        insert_sorted(s, x) == s + seq![x],
{
    lemma_insert_sorted_split(s, x, s.len() as int);
    assert(s.subrange(0, s.len() as int) + seq![x] + s.skip(s.len() as int) =~= s + seq![x]);
}

proof fn lemma_sort_ranked_id(s: Seq<MatchInfo>)
    requires
        strictly_ranked(s),
    ensures
        sort_by_key(s) == s,
    decreases s.len(),
{
    if s.len() > 0 {
        assert forall|i: int, j: int| 0 <= i < j < s.drop_last().len() implies key_lt(
            #[trigger] s.drop_last()[i],
            #[trigger] s.drop_last()[j],
        ) by {
            assert(s.drop_last()[i] == s[i]);
            assert(s.drop_last()[j] == s[j]);
        }
        lemma_sort_ranked_id(s.drop_last());
        assert forall|k: int| 0 <= k < s.drop_last().len() implies key_lt(
            #[trigger] s.drop_last()[k],
            s.last(),
        ) by {
            assert(s.drop_last()[k] == s[k]);
        }
        lemma_insert_sorted_at_end(s.drop_last(), s.last());
        assert(s.drop_last() + seq![s.last()] =~= s);
    }
}

/// The identity law: an empty query matches every candidate, all scores are
/// equal, and the result is exactly the candidate list in its input order.
pub proof fn lemma_empty_query_identity(cs: Seq<Seq<char>>)
    ensures
        compute_matches_spec(cs, Seq::<char>::empty()) == cs,
{
    let q = Seq::<char>::empty();
    let mi = match_infos(cs, q);
    lemma_match_infos_empty_query(cs);
    assert(strictly_ranked(mi));
    lemma_sort_ranked_id(mi);
    assert(compute_matches_spec(cs, q) =~= cs);
}

/// The engine is a pure function of its inputs: its contract pins the
/// result to `compute_matches_spec`, so two calls on identical inputs
/// return identical match lists.
pub proof fn lemma_engine_deterministic(
    cs: Seq<Seq<char>>,
    q: Seq<char>,
    r1: Seq<Seq<char>>,
    r2: Seq<Seq<char>>,
)
    requires
        r1 == compute_matches_spec(cs, q),
        r2 == compute_matches_spec(cs, q),
    ensures
        r1 == r2,
{
}

/// Tie stability: whenever two matches carry the same span and the same
/// start, the one that came earlier in the candidate list is ranked first.
pub proof fn lemma_tie_stability(cs: Seq<Seq<char>>, q: Seq<char>)
    ensures
        forall|i: int, j: int|
            0 <= i < j < sort_by_key(match_infos(cs, q)).len() && (#[trigger] sort_by_key(
                match_infos(cs, q),
            )[i]).span == (#[trigger] sort_by_key(match_infos(cs, q))[j]).span && sort_by_key(
                match_infos(cs, q),
            )[i].start == sort_by_key(match_infos(cs, q))[j].start ==> sort_by_key(
                match_infos(cs, q),
            )[i].idx < sort_by_key(match_infos(cs, q))[j].idx,
{
    lemma_match_infos_increasing(cs, q);
    lemma_sort_strict(match_infos(cs, q));
}

/// Appending a character to the query cannot reorder two matches that stay
/// tied: under the old query and under the extended one alike, tied matches
/// are shown in candidate order, so their relative order is the same.
pub proof fn lemma_append_keeps_tied_order(cs: Seq<Seq<char>>, q: Seq<char>, ch: char)
    ensures
        forall|i: int, j: int|
            0 <= i < j < sort_by_key(match_infos(cs, q)).len() && (#[trigger] sort_by_key(
                match_infos(cs, q),
            )[i]).span == (#[trigger] sort_by_key(match_infos(cs, q))[j]).span && sort_by_key(
                match_infos(cs, q),
            )[i].start == sort_by_key(match_infos(cs, q))[j].start ==> sort_by_key(
                match_infos(cs, q),
            )[i].idx < sort_by_key(match_infos(cs, q))[j].idx,
        forall|i: int, j: int|
            0 <= i < j < sort_by_key(match_infos(cs, q.push(ch))).len() && (#[trigger] sort_by_key(
                match_infos(cs, q.push(ch)),
            )[i]).span == (#[trigger] sort_by_key(match_infos(cs, q.push(ch)))[j]).span
                && sort_by_key(match_infos(cs, q.push(ch)))[i].start == sort_by_key(
                match_infos(cs, q.push(ch)),
            )[j].start ==> sort_by_key(match_infos(cs, q.push(ch)))[i].idx < sort_by_key(
                match_infos(cs, q.push(ch)),
            )[j].idx,
{
    lemma_tie_stability(cs, q);
    lemma_tie_stability(cs, q.push(ch));
}

/// The single best-ranked match, for the non-interactive fast path:
/// `None` exactly when no candidate matches the query.
pub fn first_match(choices: &Vec<String>, query: &str) -> (r: Option<String>)
    ensures
        (match r {
            Option::Some(s) => compute_matches_spec(views(choices@), query@).len() > 0 && s@
                == compute_matches_spec(views(choices@), query@)[0],
            Option::None => compute_matches_spec(views(choices@), query@).len() == 0,
        }),
{
    let m = compute_matches(choices, query);
    if m.len() == 0 {
        None
    } else {
        let s = m[0].clone();
        proof {
            assert(views(m@)[0] == m@[0]@);
        }
        Some(s)
    }
}

} // verus!
