//! The search from the root: every legal move is scored, the scored moves
//! are put in rising order of score, and the last of them is the move to
//! play.

use crate::eval::{eval_move, lemma_move_score_bound, move_score, EVAL_MATE, MAX_DEPTH};
use crate::move_search::{calc_moves, legal_moves};
use crate::types::{Board, Move, Position};
use rand::seq::SliceRandom;
use vstd::prelude::*;

verus! {

/// The moves of `moves`, each with its score from a search of `depth` plies.
pub open spec fn scored(p: Position, moves: Seq<Move>, depth: int) -> Seq<(i32, Move)> {
    Seq::new(moves.len(), |i: int| (move_score(p, moves[i], depth) as i32, moves[i]))
}

/// The list `s`, which is in rising order of score, with `x` put behind the
/// last entry whose score is not above the score of `x`.
pub open spec fn placed(s: Seq<(i32, Move)>, x: (i32, Move)) -> Seq<(i32, Move)>
    decreases s.len(),
{
    if s.len() == 0 {
        seq![x]
    } else if s.last().0 <= x.0 {
        s.push(x)
    } else {
        placed(s.drop_last(), x).push(s.last())
    }
}

/// The entries of `s` in rising order of score, entries of equal score in the
/// order in which they stand in `s`.
pub open spec fn ranked(s: Seq<(i32, Move)>) -> Seq<(i32, Move)>
    decreases s.len(),
{
    if s.len() == 0 {
        Seq::empty()
    } else {
        placed(ranked(s.drop_last()), s.last())
    }
}

/// Whether the scores of `s` rise, equal scores allowed.
pub open spec fn rising(s: Seq<(i32, Move)>) -> bool {
    forall|i: int, j: int| 0 <= i < j < s.len() ==> s[i].0 <= s[j].0
}

/// Where `x` comes to stand: behind the `k` entries that it does not precede.
pub proof fn lemma_placed_at(s: Seq<(i32, Move)>, x: (i32, Move), k: int)
    requires
        0 <= k <= s.len(),
        forall|j: int| k <= j < s.len() ==> s[j].0 > x.0,
        k > 0 ==> s[k - 1].0 <= x.0,
    ensures
        placed(s, x) == s.insert(k, x),
    decreases s.len(),
{
    if s.len() == 0 {
        assert(s.insert(0, x) =~= seq![x]);
    } else if k == s.len() {
        assert(s.insert(k, x) =~= s.push(x));
    } else {
        lemma_placed_at(s.drop_last(), x, k);
        assert(s.drop_last().insert(k, x).push(s.last()) =~= s.insert(k, x));
    }
}

/// Putting an entry into a rising list keeps it rising and adds that entry
/// and no other.
pub proof fn lemma_placed(s: Seq<(i32, Move)>, x: (i32, Move))
    requires
        rising(s),
    ensures
        rising(placed(s, x)),
        placed(s, x).to_multiset() == s.to_multiset().insert(x),
        placed(s, x).len() == s.len() + 1,
    decreases s.len(),
{
    broadcast use vstd::seq_lib::group_to_multiset_ensures;

    if s.len() == 0 {
    } else if s.last().0 <= x.0 {
    } else {
        let front = s.drop_last();
        lemma_placed(front, x);
        let inner = placed(front, x);
        let all = inner.push(s.last());
        assert(s =~= front.push(s.last()));
        assert forall|i: int, j: int| 0 <= i < j < all.len() implies all[i].0 <= all[j].0 by {
            if j == all.len() - 1 {
                assert(inner.to_multiset().count(inner[i]) > 0);
                if inner[i] != x {
                    assert(front.to_multiset().count(inner[i]) > 0);
                    assert(front.contains(inner[i]));
                    let k = choose|k: int| 0 <= k < front.len() && front[k] == inner[i];
                    assert(s[k].0 <= s[s.len() - 1].0);
                }
            }
        }
        assert(all.to_multiset() =~= s.to_multiset().insert(x));
    }
}

/// The ranked list rises and holds the same entries as the list it was made
/// from.
pub proof fn lemma_ranked(s: Seq<(i32, Move)>)
    ensures
        rising(ranked(s)),
        ranked(s).to_multiset() == s.to_multiset(),
        ranked(s).len() == s.len(),
    decreases s.len(),
{
    broadcast use vstd::seq_lib::group_to_multiset_ensures;

    if s.len() > 0 {
        lemma_ranked(s.drop_last());
        lemma_placed(ranked(s.drop_last()), s.last());
        assert(s =~= s.drop_last().push(s.last()));
    }
}

/// Every entry of a ranked list of scored moves is one of the moves with its
/// score, every move has its entry, and no move scores more than the last
/// entry.
pub proof fn lemma_ranked_scores(p: Position, moves: Seq<Move>, depth: int)
    requires
        1 <= depth <= MAX_DEPTH,
    ensures
        ({
            let r = ranked(scored(p, moves, depth));
            &&& r.len() == moves.len()
            &&& forall|i: int|
                0 <= i < r.len() ==> moves.contains(#[trigger] r[i].1) && r[i].0 == move_score(
                    p,
                    r[i].1,
                    depth,
                )
            &&& forall|m: Move|
                moves.contains(m) ==> r.contains((move_score(p, m, depth) as i32, m))
            &&& forall|m: Move|
                #![trigger moves.contains(m)]
                moves.contains(m) && r.len() > 0 ==> move_score(p, m, depth) <= r.last().0
        }),
{
    broadcast use vstd::seq_lib::group_to_multiset_ensures;

    let s = scored(p, moves, depth);
    let r = ranked(s);
    lemma_ranked(s);
    assert forall|i: int| 0 <= i < r.len() implies moves.contains(#[trigger] r[i].1) && r[i].0
        == move_score(p, r[i].1, depth) by {
        assert(r.to_multiset().count(r[i]) > 0);
        assert(s.contains(r[i]));
        let j = choose|j: int| 0 <= j < s.len() && s[j] == r[i];
        lemma_move_score_bound(p, moves[j], depth);
        assert(moves[j] == r[i].1);
    }
    assert forall|m: Move| moves.contains(m) implies r.contains(
        (move_score(p, m, depth) as i32, m),
    ) by {
        let j = choose|j: int| 0 <= j < moves.len() && moves[j] == m;
        assert(s[j] == (move_score(p, m, depth) as i32, m));
        assert(s.to_multiset().count(s[j]) > 0);
    }
    assert forall|m: Move|
        #![trigger moves.contains(m)]
        moves.contains(m) && r.len() > 0 implies move_score(p, m, depth) <= r.last().0 by {
        let x = (move_score(p, m, depth) as i32, m);
        assert(r.contains(x));
        let i = choose|i: int| 0 <= i < r.len() && r[i] == x;
        lemma_move_score_bound(p, m, depth);
        assert(r[i].0 <= r[r.len() - 1].0);
    }
}

/// Scores each move of `moves` by a search of `depth` plies and puts the
/// scored moves in rising order of score; moves of equal score keep the
/// order in which they were given.
pub fn rank_moves(b: &Board, moves: &Vec<Move>, depth: i32) -> (r: Vec<(i32, Move)>)
    requires
        b.wf(),
        1 <= depth <= MAX_DEPTH,
    ensures
        r@ == ranked(scored(b@, moves@, depth as int)),
{
    let ghost all = scored(b@, moves@, depth as int);
    let mut moves_with_eval: Vec<(i32, Move)> = Vec::new();
    assert(moves_with_eval@ =~= ranked(all.take(0)));
    let mut i: usize = 0;
    while i < moves.len()
        invariant
            0 <= i <= moves.len(),
            b.wf(),
            1 <= depth <= MAX_DEPTH,
            all == scored(b@, moves@, depth as int),
            moves_with_eval@ == ranked(all.take(i as int)),
        decreases moves.len() - i,
    {
        let m = moves[i];
        let eval = eval_move(b, m, depth);
        proof {
            lemma_move_score_bound(b@, m, depth as int);
            lemma_ranked(all.take(i as int));
            assert(all.take(i + 1).drop_last() =~= all.take(i as int));
            assert(all.take(i + 1).last() == (eval, m));
        }
        let mut k: usize = moves_with_eval.len();
        while k > 0 && moves_with_eval[k - 1].0 > eval
            invariant
                0 <= k <= moves_with_eval.len(),
                forall|j: int| k <= j < moves_with_eval.len() ==> moves_with_eval@[j].0 > eval,
            decreases k,
        {
            k = k - 1;
        }
        proof {
            lemma_placed_at(moves_with_eval@, (eval, m), k as int);
        }
        moves_with_eval.insert(k, (eval, m));
        i = i + 1;
    }
    assert(all.take(moves.len() as int) =~= all);
    moves_with_eval
}

/// `SliceRandom::shuffle` of the crate `rand`, called on the moves with the
/// generator that `rand::thread_rng` gives: it puts the moves in an order that
/// depends on chance, by exchanging them in pairs. The contract claims only
/// that the moves after the call are the moves before it, each as often as
/// before, which is taken on trust; nothing is claimed of their order.
/// `thread_rng` stops the program where the system cannot seed it.
#[verifier::external_body]
fn shuffle_moves(moves: &mut Vec<Move>)
    ensures
        final(moves)@.to_multiset() == old(moves)@.to_multiset(),
{
    moves.shuffle(&mut rand::thread_rng());
}

/// Searches the position `depth` plies deep: the legal moves, each with its
/// score for the side to move, in rising order of score. Moves of equal score
/// stand in an order that chance decides.
pub fn search(b: &Board, depth: i32) -> (r: Vec<(i32, Move)>)
    requires
        b.wf(),
        1 <= depth <= MAX_DEPTH,
    ensures
        exists|order: Seq<Move>|
            order.to_multiset() == legal_moves(b@).to_multiset() && r@ == #[trigger] ranked(
                scored(b@, order, depth as int),
            ),
        r@.len() == legal_moves(b@).len(),
        rising(r@),
        forall|i: int|
            0 <= i < r@.len() ==> legal_moves(b@).contains(#[trigger] r@[i].1) && r@[i].0
                == move_score(b@, r@[i].1, depth as int),
        forall|m: Move|
            #![trigger legal_moves(b@).contains(m)]
            legal_moves(b@).contains(m) ==> r@.len() > 0 && move_score(b@, m, depth as int)
                <= r@.last().0,
{
    let mut moves = calc_moves(b);
    shuffle_moves(&mut moves);
    let r = rank_moves(b, &moves, depth);
    proof {
        broadcast use vstd::seq_lib::group_to_multiset_ensures;

        lemma_ranked(scored(b@, moves@, depth as int));
        lemma_ranked_scores(b@, moves@, depth as int);
        moves@.to_multiset_ensures();
        legal_moves(b@).to_multiset_ensures();
        assert forall|m: Move| moves@.contains(m) == legal_moves(b@).contains(m) by {
            assert(moves@.to_multiset().count(m) == legal_moves(b@).to_multiset().count(m));
        }
        assert forall|m: Move|
            #![trigger legal_moves(b@).contains(m)]
            legal_moves(b@).contains(m) implies r@.len() > 0 && move_score(b@, m, depth as int)
            <= r@.last().0 by {
            assert(moves@.contains(m));
        }
    }
    r
}

/// The move to play: the last of a ranked list, which no move outscores;
/// `None` where the list is empty.
pub fn best_move(ranked_moves: &Vec<(i32, Move)>) -> (r: Option<Move>)
    ensures
        ranked_moves@.len() == 0 ==> r.is_none(),
        ranked_moves@.len() > 0 ==> r == Some(ranked_moves@.last().1),
        rising(ranked_moves@) ==> forall|i: int|
            0 <= i < ranked_moves@.len() ==> ranked_moves@[i].0 <= ranked_moves@.last().0,
{
    let n = ranked_moves.len();
    if n == 0 {
        None
    } else {
        Some(ranked_moves[n - 1].1)
    }
}

/// How a score is shown: as a count of moves to mate, or in hundredths of a
/// pawn.
#[derive(Clone, Copy, Debug, PartialEq, Eq, Structural)]
pub enum Score {
    Mate(i64),
    Centipawns(i32),
}

/// Half of `x`, rounded towards zero.
pub open spec fn half(x: int) -> int {
    if x >= 0 {
        x / 2
    } else {
        -((-x) / 2)
    }
}

/// How the score `e` of a search of `depth` plies is shown. A score of
/// [`EVAL_MATE`] or more is a mate for the side to move, one of `-EVAL_MATE`
/// or less a mate against it; the count of moves is made from the depth and
/// from what the score holds beyond `EVAL_MATE`.
pub open spec fn shown(e: int, depth: int) -> Score {
    if e >= EVAL_MATE {
        Score::Mate(half(depth - (e - EVAL_MATE)) as i64)
    } else if e <= -EVAL_MATE {
        Score::Mate(half(-(depth + (e + EVAL_MATE))) as i64)
    } else {
        Score::Centipawns(e as i32)
    }
}

fn halve(x: i64) -> (r: i64)
    requires
        x > i64::MIN,
    ensures
        r == half(x as int),
{
    if x >= 0 {
        x / 2
    } else {
        -((-x) / 2)
    }
}

/// Tells how to show the score `e` of a search of `depth` plies.
pub fn describe_score(e: i32, depth: i32) -> (r: Score)
    ensures
        r == shown(e as int, depth as int),
{
    let e_wide: i64 = e as i64;
    let depth_wide: i64 = depth as i64;
    let mate: i64 = EVAL_MATE as i64;
    if e >= EVAL_MATE {
        Score::Mate(halve(depth_wide - (e_wide - mate)))
    } else if e <= -EVAL_MATE {
        Score::Mate(halve(-(depth_wide + (e_wide + mate))))
    } else {
        Score::Centipawns(e)
    }
}

/// What a search reports of its moves: each move of the ranked list with
/// the way its score is shown, in the order of the list.
pub fn report(ranked_moves: &Vec<(i32, Move)>, depth: i32) -> (r: Vec<(Score, Move)>)
    ensures
        r@.len() == ranked_moves@.len(),
        forall|i: int|
            0 <= i < r@.len() ==> #[trigger] r@[i] == (
                shown(ranked_moves@[i].0 as int, depth as int),
                ranked_moves@[i].1,
            ),
{
    let mut lines: Vec<(Score, Move)> = Vec::new();
    let mut i: usize = 0;
    while i < ranked_moves.len()
        invariant
            0 <= i <= ranked_moves@.len(),
            lines@.len() == i,
            forall|k: int|
                0 <= k < i ==> #[trigger] lines@[k] == (
                    shown(ranked_moves@[k].0 as int, depth as int),
                    ranked_moves@[k].1,
                ),
        decreases ranked_moves@.len() - i,
    {
        let (score, m) = ranked_moves[i];
        lines.push((describe_score(score, depth), m));
        i = i + 1;
    }
    lines
}

} // verus!
