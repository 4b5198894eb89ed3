//! Ordering of scores and selection of the best-scored points.

use crate::types::{ScoreType, ScoredPointOffset};
use vstd::prelude::*;

verus! {

/// The place of a score in the total order of single-precision numbers:
/// a number with the sign bit set has all its bits flipped, any other has
/// the sign bit set. A greater key stands for a greater number; negative
/// zero comes just before positive zero.
pub open spec fn score_key(score: ScoreType) -> u32 {
    if score & 0x8000_0000u32 != 0 {
        !score
    } else {
        score | 0x8000_0000u32
    }
}

/// Computes the key by which scores are ordered.
pub fn order_key(score: ScoreType) -> (key: u32)
    ensures
        key == score_key(score),
{
    if score & 0x8000_0000u32 != 0 {
        !score
    } else {
        score | 0x8000_0000u32
    }
}

/// Different scores have different keys, so the keys order all scores.
pub proof fn lemma_score_key_injective(a: ScoreType, b: ScoreType)
    requires
        score_key(a) == score_key(b),
    ensures
        a == b,
{
    assert((if a & 0x8000_0000u32 != 0 {
        !a
    } else {
        a | 0x8000_0000u32
    }) == (if b & 0x8000_0000u32 != 0 {
        !b
    } else {
        b | 0x8000_0000u32
    }) ==> a == b) by (bit_vector);
}

/// Among scores without the sign bit the keys follow the bit patterns;
/// among scores with it they run against them; and every score with the sign
/// bit comes before every score without.
pub proof fn lemma_score_key_order(a: ScoreType, b: ScoreType)
    ensures
        a < 0x8000_0000u32 && b < 0x8000_0000u32 ==> (score_key(a) < score_key(b) <==> a < b),
        a >= 0x8000_0000u32 && b >= 0x8000_0000u32 ==> (score_key(a) < score_key(b) <==> a > b),
        a >= 0x8000_0000u32 && b < 0x8000_0000u32 ==> score_key(a) < score_key(b),
{
    assert(a < 0x8000_0000u32 <==> a & 0x8000_0000u32 == 0) by (bit_vector);
    assert(b < 0x8000_0000u32 <==> b & 0x8000_0000u32 == 0) by (bit_vector);
    assert(a < 0x8000_0000u32 && b < 0x8000_0000u32 ==> ((a | 0x8000_0000u32) < (b
        | 0x8000_0000u32) <==> a < b)) by (bit_vector);
    assert(a >= 0x8000_0000u32 && b >= 0x8000_0000u32 ==> (!a < !b <==> a > b)) by (bit_vector);
    assert(a >= 0x8000_0000u32 && b < 0x8000_0000u32 ==> !a < (b | 0x8000_0000u32))
        by (bit_vector);
}

/// The entry at `i` is ranked before the entry at `j`: it has the higher
/// score, or the same score and the earlier place in the input.
pub open spec fn precedes(scores: Seq<ScoredPointOffset>, i: int, j: int) -> bool {
    let ki = score_key(scores[i].score);
    let kj = score_key(scores[j].score);
    ki > kj || (ki == kj && i < j)
}

/// Every picked entry is ranked before the entry at `j`.
pub open spec fn all_precede(scores: Seq<ScoredPointOffset>, picked: Seq<int>, j: int) -> bool {
    forall|r: int| 0 <= r < picked.len() ==> precedes(scores, #[trigger] picked[r], j)
}

/// `picked` lists, best first, the places of the `top` best entries among
/// the first `n` of `scores` (of all `n`, if there are no more than `top`).
pub open spec fn selects_within(
    scores: Seq<ScoredPointOffset>,
    n: int,
    top: nat,
    picked: Seq<int>,
) -> bool {
    &&& picked.len() == if top <= n {
        top as int
    } else {
        n
    }
    &&& forall|r: int| 0 <= r < picked.len() ==> 0 <= #[trigger] picked[r] < n
    &&& forall|r: int, t: int|
        0 <= r < t < picked.len() ==> precedes(scores, #[trigger] picked[r], #[trigger] picked[t])
    &&& forall|j: int|
        0 <= j < n ==> picked.contains(j) || #[trigger] all_precede(scores, picked, j)
}

/// `picked` lists, best first, the places of the `top` best entries of `scores`.
pub open spec fn selects(scores: Seq<ScoredPointOffset>, top: nat, picked: Seq<int>) -> bool {
    selects_within(scores, scores.len() as int, top, picked)
}

/// The places of the `top` best entries of `scores`, best first.
pub open spec fn top_places(scores: Seq<ScoredPointOffset>, top: nat) -> Seq<int> {
    choose|picked: Seq<int>| selects(scores, top, picked)
}

/// The entries of `scores` at the given places.
pub open spec fn entries_at(scores: Seq<ScoredPointOffset>, places: Seq<int>) -> Seq<
    ScoredPointOffset,
> {
    Seq::new(places.len(), |r: int| scores[places[r]])
}

/// The `top` best entries of `scores` in descending order of score, entries
/// of equal score in the order of the input.
pub open spec fn top_scores(scores: Seq<ScoredPointOffset>, top: nat) -> Seq<ScoredPointOffset> {
    entries_at(scores, top_places(scores, top))
}

/// Scores never rise along the sequence.
pub open spec fn is_descending(out: Seq<ScoredPointOffset>) -> bool {
    forall|i: int, j: int|
        0 <= i < j < out.len() ==> score_key(#[trigger] out[i].score) >= score_key(
            #[trigger] out[j].score,
        )
}

/// There is only one selection of the best entries: the ranking is total,
/// so equal scores leave nothing open.
pub proof fn lemma_selection_unique(
    scores: Seq<ScoredPointOffset>,
    top: nat,
    a: Seq<int>,
    b: Seq<int>,
)
    requires
        selects(scores, top, a),
        selects(scores, top, b),
    ensures
        a == b,
{
    assert(a.len() == b.len());
    assert forall|r: int| 0 <= r < a.len() implies a[r] == b[r] by {
        lemma_selection_agrees(scores, top, a, b, r);
    }
    assert(a =~= b);
}

proof fn lemma_selection_agrees(
    scores: Seq<ScoredPointOffset>,
    top: nat,
    a: Seq<int>,
    b: Seq<int>,
    r: int,
)
    requires
        selects(scores, top, a),
        selects(scores, top, b),
        0 <= r < a.len(),
    ensures
        a[r] == b[r],
    decreases r,
{
    assert forall|t: int| 0 <= t < r implies a[t] == b[t] by {
        lemma_selection_agrees(scores, top, a, b, t);
    }
    if a[r] != b[r] {
        lemma_left_out_is_behind(scores, top, a, b, r);
        lemma_left_out_is_behind(scores, top, b, a, r);
        lemma_score_key_total(scores, a[r], b[r]);
    }
}

proof fn lemma_score_key_total(scores: Seq<ScoredPointOffset>, i: int, j: int)
    requires
        i != j,
    ensures
        precedes(scores, i, j) || precedes(scores, j, i),
{
}

/// Where two selections that agree before place `r` differ at `r`, the
/// entry of the first is not ranked before that of the second.
proof fn lemma_left_out_is_behind(
    scores: Seq<ScoredPointOffset>,
    top: nat,
    a: Seq<int>,
    b: Seq<int>,
    r: int,
)
    requires
        selects(scores, top, a),
        selects(scores, top, b),
        0 <= r < a.len(),
        forall|t: int| 0 <= t < r ==> a[t] == b[t],
        a[r] != b[r],
    ensures
        !precedes(scores, a[r], b[r]),
{
    let x = a[r];
    if !precedes(scores, a[r], b[r]) {
    } else if b.contains(x) {
        let t = choose|t: int| 0 <= t < b.len() && b[t] == x;
        if t < r {
            assert(a[t] == x);
            assert(precedes(scores, a[t], a[r]));
        } else if t > r {
            assert(precedes(scores, b[r], b[t]));
        }
    } else {
        assert(all_precede(scores, b, x));
        assert(precedes(scores, b[r], x));
    }
}

/// The best entries are entries of the input, they come in descending
/// order, and there are `top` of them unless the input has fewer.
pub proof fn lemma_top_scores(scores: Seq<ScoredPointOffset>, top: nat)
    ensures
        selects(scores, top, top_places(scores, top)),
        is_descending(top_scores(scores, top)),
        top_scores(scores, top).len() == if top <= scores.len() {
            top
        } else {
            scores.len()
        },
        forall|r: int|
            0 <= r < top_scores(scores, top).len() ==> scores.contains(
                #[trigger] top_scores(scores, top)[r],
            ),
{
    let some = lemma_selection_exists(scores, scores.len() as int, top);
    assert(selects(scores, top, some));
    let picked = top_places(scores, top);
    let out = top_scores(scores, top);
    assert forall|i: int, j: int| 0 <= i < j < out.len() implies score_key(
        #[trigger] out[i].score,
    ) >= score_key(#[trigger] out[j].score) by {
        assert(precedes(scores, picked[i], picked[j]));
    }
    assert forall|r: int| 0 <= r < out.len() implies scores.contains(#[trigger] out[r]) by {
        assert(0 <= picked[r] < scores.len());
        assert(scores[picked[r]] == out[r]);
    }
}

/// The place where an entry with key `key` goes into a selection: behind
/// the entries whose score is at least as high.
spec fn place_for(scores: Seq<ScoredPointOffset>, picked: Seq<int>, key: u32, pos: int) -> int
    decreases pos,
{
    if pos > 0 && score_key(scores[picked[pos - 1]].score) < key {
        place_for(scores, picked, key, pos - 1)
    } else {
        pos
    }
}

proof fn lemma_place_for(scores: Seq<ScoredPointOffset>, picked: Seq<int>, key: u32, pos: int)
    requires
        0 <= pos <= picked.len(),
        forall|r: int, t: int|
            0 <= r < t < picked.len() ==> precedes(
                scores,
                #[trigger] picked[r],
                #[trigger] picked[t],
            ),
    ensures
        0 <= place_for(scores, picked, key, pos) <= pos,
        forall|r: int|
            place_for(scores, picked, key, pos) <= r < pos ==> score_key(
                scores[#[trigger] picked[r]].score,
            ) < key,
        forall|r: int|
            0 <= r < place_for(scores, picked, key, pos) ==> score_key(
                scores[#[trigger] picked[r]].score,
            ) >= key,
    decreases pos,
{
    if pos > 0 && score_key(scores[picked[pos - 1]].score) < key {
        lemma_place_for(scores, picked, key, pos - 1);
    } else if pos > 0 {
        assert forall|r: int| 0 <= r < pos implies score_key(scores[#[trigger] picked[r]].score)
            >= key by {
            if r < pos - 1 {
                assert(precedes(scores, picked[r], picked[pos - 1]));
            }
        }
    }
}

/// Whatever the scores, the best among the first `n` can be selected.
proof fn lemma_selection_exists(scores: Seq<ScoredPointOffset>, n: int, top: nat) -> (picked: Seq<
    int,
>)
    requires
        0 <= n <= scores.len(),
    ensures
        selects_within(scores, n, top, picked),
    decreases n,
{
    if n == 0 {
        let none = Seq::<int>::empty();
        assert(selects_within(scores, 0, top, none));
        none
    } else {
        let before = lemma_selection_exists(scores, n - 1, top);
        let key = score_key(scores[n - 1].score);
        let pos = place_for(scores, before, key, before.len() as int);
        lemma_place_for(scores, before, key, before.len() as int);
        lemma_selection_step(scores, n - 1, top, before, pos)
    }
}

/// One more entry of the input has been looked at: `cand`, at place `m`,
/// goes into the selection at `pos`, behind the entries that score at least
/// as high, unless the selection is full and `pos` is its end.
proof fn lemma_selection_step(
    scores: Seq<ScoredPointOffset>,
    m: int,
    top: nat,
    picked: Seq<int>,
    pos: int,
) -> (next: Seq<int>)
    requires
        0 <= m < scores.len(),
        selects_within(scores, m, top, picked),
        0 <= pos <= picked.len(),
        forall|r: int|
            0 <= r < pos ==> score_key(scores[#[trigger] picked[r]].score) >= score_key(
                scores[m].score,
            ),
        forall|r: int|
            pos <= r < picked.len() ==> score_key(scores[#[trigger] picked[r]].score) < score_key(
                scores[m].score,
            ),
    ensures
        selects_within(scores, m + 1, top, next),
        pos >= top ==> next == picked,
        pos < top && picked.len() == top ==> next == picked.drop_last().insert(pos, m),
        pos < top && picked.len() < top ==> next == picked.insert(pos, m),
{
    if pos >= top {
        assert forall|j: int| 0 <= j < m + 1 implies picked.contains(j) || #[trigger] all_precede(
            scores,
            picked,
            j,
        ) by {
            if j == m {
                assert forall|r: int| 0 <= r < picked.len() implies precedes(
                    scores,
                    #[trigger] picked[r],
                    j,
                ) by {}
            }
        }
        picked
    } else {
        let full = picked.len() == top;
        let kept = if full {
            picked.drop_last()
        } else {
            picked
        };
        let next = kept.insert(pos, m);
        kept.insert_ensures(pos, m);
        assert forall|r: int| 0 <= r < next.len() implies 0 <= #[trigger] next[r] < m + 1 by {
            if r < pos {
                assert(next[r] == kept[r]);
            } else if r > pos {
                assert(next[r] == kept[r - 1]);
            }
        }
        assert forall|r: int, t: int| 0 <= r < t < next.len() implies precedes(
            scores,
            #[trigger] next[r],
            #[trigger] next[t],
        ) by {
            if t < pos {
                assert(next[r] == kept[r] && next[t] == kept[t]);
            } else if t == pos {
                assert(next[r] == kept[r]);
            } else if r == pos {
                assert(next[t] == kept[t - 1]);
            } else if r < pos {
                assert(next[r] == kept[r] && next[t] == kept[t - 1]);
            } else {
                assert(next[r] == kept[r - 1] && next[t] == kept[t - 1]);
            }
        }
        assert forall|j: int| 0 <= j < m + 1 implies next.contains(j) || #[trigger] all_precede(
            scores,
            next,
            j,
        ) by {
            if j == m {
                assert(next[pos] == j);
            } else if kept.contains(j) {
                let r = choose|r: int| 0 <= r < kept.len() && kept[r] == j;
                if r < pos {
                    assert(next[r] == j);
                } else {
                    assert(next[r + 1] == j);
                }
            } else {
                // Only a full selection leaves an entry out, and what it
                // leaves out is behind its last entry, which scores below
                // the newcomer.
                let last = picked.len() - 1;
                if picked.contains(j) {
                    let r = choose|r: int| 0 <= r < picked.len() && picked[r] == j;
                    if r < kept.len() {
                        assert(kept[r] == j);
                    }
                    assert(full && r == last);
                } else {
                    assert(all_precede(scores, picked, j));
                    if !full {
                        // no entry is left out of a selection with room
                        lemma_room_takes_all(scores, m, top, picked, j);
                    }
                    assert(precedes(scores, picked[last], j));
                }
                assert(full);
                assert(score_key(scores[picked[last]].score) < score_key(scores[m].score));
                assert forall|r: int| 0 <= r < next.len() implies precedes(
                    scores,
                    #[trigger] next[r],
                    j,
                ) by {
                    if r < pos {
                        assert(next[r] == picked[r]);
                        if picked.contains(j) {
                            assert(precedes(scores, picked[r], picked[last]));
                        }
                    } else if r > pos {
                        assert(next[r] == picked[r - 1]);
                        if picked.contains(j) {
                            assert(precedes(scores, picked[r - 1], picked[last]));
                        }
                    }
                }
            }
        }
        next
    }
}

/// A selection shorter than `top` holds every place below `n`.
proof fn lemma_room_takes_all(
    scores: Seq<ScoredPointOffset>,
    n: int,
    top: nat,
    picked: Seq<int>,
    j: int,
)
    requires
        selects_within(scores, n, top, picked),
        picked.len() < top,
        0 <= j < n,
    ensures
        picked.contains(j),
    decreases n,
{
    // The places are distinct and below `n`, and there are `n` of them.
    lemma_places_fill(picked, n, j);
    assert forall|r: int, t: int| 0 <= r < t < picked.len() implies picked[r] != picked[t] by {
        assert(precedes(scores, picked[r], picked[t]));
    }
}

/// `n` distinct numbers below `n` are all the numbers below `n`.
proof fn lemma_places_fill(picked: Seq<int>, n: int, j: int)
    requires
        picked.len() == n,
        forall|r: int| 0 <= r < picked.len() ==> 0 <= #[trigger] picked[r] < n,
        forall|r: int, t: int|
            0 <= r < t < picked.len() ==> #[trigger] picked[r] != #[trigger] picked[t],
        0 <= j < n,
    ensures
        picked.contains(j),
    decreases n,
{
    if !picked.contains(j) {
        let big = n - 1;
        // Whatever is taken out below, `n - 1` distinct numbers below
        // `n - 1` stay, and they still miss a number below `n - 1`.
        if j != big && picked.contains(big) {
            let at = choose|r: int| 0 <= r < picked.len() && picked[r] == big;
            let rest = picked.remove(at);
            picked.remove_ensures(at);
            assert forall|r: int| 0 <= r < rest.len() implies 0 <= #[trigger] rest[r] < n - 1 by {
                let pr = if r < at { r } else { r + 1 };
                assert(rest[r] == picked[pr]);
            }
            assert forall|r: int, t: int| 0 <= r < t < rest.len() implies #[trigger] rest[r]
                != #[trigger] rest[t] by {
                let pr = if r < at { r } else { r + 1 };
                let pt = if t < at { t } else { t + 1 };
                assert(rest[r] == picked[pr] && rest[t] == picked[pt]);
            }
            lemma_places_fill(rest, n - 1, j);
            let r = choose|r: int| 0 <= r < rest.len() && rest[r] == j;
            let pr = if r < at { r } else { r + 1 };
            assert(picked[pr] == j);
        } else {
            // No place holds `n - 1`: drop the last place.
            assert forall|r: int| 0 <= r < picked.len() implies #[trigger] picked[r] < n - 1 by {
                if picked[r] == big {
                    assert(picked.contains(big));
                }
            }
            let rest = picked.drop_last();
            let missing = if j != big { j } else { picked.last() };
            assert forall|r: int| 0 <= r < rest.len() implies 0 <= #[trigger] rest[r] < n - 1 by {
                assert(rest[r] == picked[r]);
            }
            assert forall|r: int, t: int| 0 <= r < t < rest.len() implies #[trigger] rest[r]
                != #[trigger] rest[t] by {
                assert(rest[r] == picked[r] && rest[t] == picked[t]);
            }
            assert(0 <= picked[n - 1] < n - 1);
            lemma_places_fill(rest, n - 1, missing);
            let r = choose|r: int| 0 <= r < rest.len() && rest[r] == missing;
            assert(picked[r] == missing);
        }
    }
}

/// Selects the `top` highest-scoring entries, best first. Entries of equal
/// score keep the order they have in `scores`, and the earlier ones are
/// taken first, so the same input always gives the same output.
pub fn peek_top_scores(scores: &Vec<ScoredPointOffset>, top: usize) -> (out: Vec<
    ScoredPointOffset,
>)
    ensures
        out@ == top_scores(scores@, top as nat),
        out.len() == if top <= scores.len() {
            top
        } else {
            scores.len()
        },
        is_descending(out@),
{
    let mut best: Vec<ScoredPointOffset> = Vec::new();
    let ghost mut picked: Seq<int> = Seq::empty();
    let mut m: usize = 0;
    while m < scores.len()
        invariant
            m <= scores.len(),
            selects_within(scores@, m as int, top as nat, picked),
            best@ == entries_at(scores@, picked),
        decreases scores.len() - m,
    {
        let cand = scores[m];
        let key = order_key(cand.score);
        let mut pos: usize = best.len();
        let ghost mut next: Seq<int> = picked;
        while pos > 0 && order_key(best[pos - 1].score) < key
            invariant
                pos <= best.len(),
                best@ == entries_at(scores@, picked),
                key == score_key(scores@[m as int].score),
                forall|r: int|
                    pos <= r < picked.len() ==> score_key(scores@[#[trigger] picked[r]].score)
                        < key,
            decreases pos,
        {
            pos -= 1;
            assert(best@[pos as int] == scores@[picked[pos as int]]);
        }
        proof {
            assert forall|r: int| 0 <= r < pos implies score_key(
                scores@[#[trigger] picked[r]].score,
            ) >= key by {
                assert(best@[pos - 1] == scores@[picked[pos - 1]]);
                if r < pos - 1 {
                    assert(precedes(scores@, picked[r], picked[pos - 1]));
                }
            }
            next = lemma_selection_step(scores@, m as int, top as nat, picked, pos as int);
        }
        if pos < top {
            if best.len() == top {
                best.pop();
                assert(best@ =~= entries_at(scores@, picked.drop_last()));
            }
            best.insert(pos, cand);
            proof {
                let kept = if picked.len() == top {
                    picked.drop_last()
                } else {
                    picked
                };
                kept.insert_ensures(pos as int, m as int);
                entries_at(scores@, kept).insert_ensures(pos as int, cand);
                assert(best@ =~= entries_at(scores@, next));
            }
        }
        proof {
            picked = next;
        }
        m += 1;
    }
    proof {
        assert(selects(scores@, top as nat, picked));
        lemma_top_scores(scores@, top as nat);
        lemma_selection_unique(scores@, top as nat, picked, top_places(scores@, top as nat));
    }
    best
}

} // verus!
