use vstd::prelude::*;

use crate::card::{Card, Suit};

verus! {

/// The points a player makes in a round, by category.
#[derive(Debug, Clone, PartialEq, Eq, Structural)]
pub struct ScoreBreakdown {
    pub cards_point: u32,
    pub oros_point: u32,
    pub siete_velo_point: u32,
    pub sevens_point: u32,
    pub escobas_points: u32,
    pub total: u32,
}

/// The number of Oros among the cards.
pub open spec fn oros_in(s: Seq<Card>) -> nat
    decreases s.len(),
{
    if s.len() == 0 {
        0
    } else {
        oros_in(s.drop_last()) + if s.last().suit == Suit::Oros { 1nat } else { 0nat }
    }
}

/// The number of sevens among the cards.
pub open spec fn sevens_in(s: Seq<Card>) -> nat
    decreases s.len(),
{
    if s.len() == 0 {
        0
    } else {
        sevens_in(s.drop_last()) + if s.last().rank == 7 { 1nat } else { 0nat }
    }
}

/// The seven of Oros, the "siete de velo".
pub open spec fn siete_de_velo() -> Card {
    Card { suit: Suit::Oros, rank: 7 }
}

/// One point for having strictly more than the opponent, none otherwise.
pub open spec fn more_point(mine: nat, theirs: nat) -> nat {
    if mine > theirs { 1 } else { 0 }
}

/// The breakdown that `captured`, `escobas` and the opponent's pile `opponent` earn.
pub open spec fn score_of(captured: Seq<Card>, escobas: u32, opponent: Seq<Card>) -> (nat, nat, nat, nat, nat) {
    (
        more_point(captured.len(), opponent.len()),
        more_point(oros_in(captured), oros_in(opponent)),
        if captured.contains(siete_de_velo()) { 1nat } else { 0nat },
        more_point(sevens_in(captured), sevens_in(opponent)),
        escobas as nat,
    )
}

/// The sum of the five categories.
pub open spec fn score_total(captured: Seq<Card>, escobas: u32, opponent: Seq<Card>) -> nat {
    let b = score_of(captured, escobas, opponent);
    b.0 + b.1 + b.2 + b.3 + b.4
}

/// Whether the breakdown is the one `score_of` gives, with its total.
pub open spec fn breakdown_matches(r: ScoreBreakdown, captured: Seq<Card>, escobas: u32, opponent: Seq<Card>) -> bool {
    let b = score_of(captured, escobas, opponent);
    &&& r.cards_point == b.0
    &&& r.oros_point == b.1
    &&& r.siete_velo_point == b.2
    &&& r.sevens_point == b.3
    &&& r.escobas_points == b.4
    &&& r.total == score_total(captured, escobas, opponent)
}

proof fn lemma_take_step<A>(s: Seq<A>, i: int)
    requires
        0 <= i < s.len(),
    ensures
        s.take(i + 1).drop_last() == s.take(i),
        s.take(i + 1).last() == s[i],
{
    assert(s.take(i + 1).drop_last() =~= s.take(i));
}

fn compare_count(player: usize, opponent: usize) -> (p: u32)
    ensures
        p == more_point(player as nat, opponent as nat),
{
    if player > opponent {
        1
    } else {
        0
    }
}

fn count_oros(cards: &[Card]) -> (n: usize)
    ensures
        n == oros_in(cards@),
{
    let mut n: usize = 0;
    let mut i: usize = 0;
    while i < cards.len()
        invariant
            i <= cards@.len(),
            n == oros_in(cards@.take(i as int)),
            n <= i,
        decreases cards@.len() - i,
    {
        proof {
            lemma_take_step(cards@, i as int);
        }
        if cards[i].suit == Suit::Oros {
            n = n + 1;
        }
        i = i + 1;
    }
    assert(cards@.take(cards@.len() as int) =~= cards@);
    n
}

fn count_sevens(cards: &[Card]) -> (n: usize)
    ensures
        n == sevens_in(cards@),
{
    let mut n: usize = 0;
    let mut i: usize = 0;
    while i < cards.len()
        invariant
            i <= cards@.len(),
            n == sevens_in(cards@.take(i as int)),
            n <= i,
        decreases cards@.len() - i,
    {
        proof {
            lemma_take_step(cards@, i as int);
        }
        if cards[i].rank == 7 {
            n = n + 1;
        }
        i = i + 1;
    }
    assert(cards@.take(cards@.len() as int) =~= cards@);
    n
}

fn has_siete_de_velo(cards: &[Card]) -> (b: bool)
    ensures
        b <==> cards@.contains(siete_de_velo()),
{
    let mut i: usize = 0;
    while i < cards.len()
        invariant
            i <= cards@.len(),
            forall|j: int| 0 <= j < i ==> cards@[j] != siete_de_velo(),
        decreases cards@.len() - i,
    {
        if cards[i].suit == Suit::Oros && cards[i].rank == 7 {
            assert(cards@[i as int] == siete_de_velo());
            return true;
        }
        i = i + 1;
    }
    false
}

/// Scores one player's round: a point each for more cards, more Oros, the siete de
/// velo and more sevens than the opponent, plus one point per escoba.
pub fn calculate_score(captured: &[Card], escobas: u32, opponent_captured: &[Card]) -> (r: ScoreBreakdown)
    requires
        score_total(captured@, escobas, opponent_captured@) <= u32::MAX,
    ensures
        breakdown_matches(r, captured@, escobas, opponent_captured@),
{
    let cards_point = compare_count(captured.len(), opponent_captured.len());
    let oros_point = compare_count(count_oros(captured), count_oros(opponent_captured));
    let siete_velo_point: u32 = if has_siete_de_velo(captured) { 1 } else { 0 };
    let sevens_point = compare_count(count_sevens(captured), count_sevens(opponent_captured));
    let escobas_points = escobas;
    let total = cards_point + oros_point + siete_velo_point + sevens_point + escobas_points;
    ScoreBreakdown { cards_point, oros_point, siete_velo_point, sevens_point, escobas_points, total }
}

/// Entry `i` holds the only highest score, and it has reached 15.
pub open spec fn winner_at(scores: Seq<(String, u32)>, i: int) -> bool {
    &&& 0 <= i < scores.len()
    &&& scores[i].1 >= 15
    &&& forall|j: int| 0 <= j < scores.len() && j != i ==> #[trigger] scores[j].1 < scores[i].1
}

/// The game is over when someone has reached 15 and no one ties the highest score;
/// the winner is the one with that score.
pub fn is_game_over(scores: &[(String, u32)]) -> (r: Option<String>)
    ensures
        r is Some <==> exists|i: int| winner_at(scores@, i),
        r matches Some(name) ==> exists|i: int| winner_at(scores@, i) && name@ == scores@[i].0@,
{
    let len = scores.len();
    if len == 0 {
        return None;
    }
    let mut best: usize = 0;
    let mut tie = false;
    let mut i: usize = 1;
    while i < len
        invariant
            len == scores@.len(),
            1 <= i <= len,
            best < i,
            forall|j: int| 0 <= j < i ==> #[trigger] scores@[j].1 <= scores@[best as int].1,
            tie <==> exists|j: int| 0 <= j < i && j != best && #[trigger] scores@[j].1 == scores@[best as int].1,
        decreases len - i,
    {
        if scores[i].1 > scores[best].1 {
            best = i;
            tie = false;
        } else if scores[i].1 == scores[best].1 {
            tie = true;
        }
        i = i + 1;
    }
    if !tie && scores[best].1 >= 15 {
        assert(winner_at(scores@, best as int));
        Some(scores[best].0.clone())
    } else {
        assert forall|k: int| !winner_at(scores@, k) by {
            if winner_at(scores@, k) {
                if tie {
                    let j = choose|j: int| 0 <= j < len && j != best && #[trigger] scores@[j].1 == scores@[best as int].1;
                    assert(scores@[j].1 <= scores@[k].1);
                } else {
                    assert(scores@[k].1 <= scores@[best as int].1);
                }
            }
        }
        None
    }
}

/// There is never more than one winner.
pub proof fn lemma_winner_unique(scores: Seq<(String, u32)>, i: int, j: int)
    requires
        winner_at(scores, i),
        winner_at(scores, j),
    ensures
        i == j,
{
    if i != j {
        assert(scores[j].1 < scores[i].1);
        assert(scores[i].1 < scores[j].1);
    }
}

/// Between two players, the points for more cards, more Oros and more sevens each
/// go to one of them at most, and only one pile can hold the siete de velo when no
/// card is in both piles.
pub proof fn law_points_go_to_one_player(mine: Seq<Card>, e1: u32, theirs: Seq<Card>, e2: u32)
    requires
        forall|c: Card| !(mine.contains(c) && theirs.contains(c)),
    ensures
        score_of(mine, e1, theirs).0 + score_of(theirs, e2, mine).0 <= 1,
        score_of(mine, e1, theirs).1 + score_of(theirs, e2, mine).1 <= 1,
        score_of(mine, e1, theirs).2 + score_of(theirs, e2, mine).2 <= 1,
        score_of(mine, e1, theirs).3 + score_of(theirs, e2, mine).3 <= 1,
{
}

/// Every Oros card counts towards the Oros of a pile, whatever its rank; no other
/// card does.
pub proof fn law_each_oro_counts(s: Seq<Card>, c: Card)
    ensures
        c.suit == Suit::Oros ==> oros_in(s.push(c)) == oros_in(s) + 1,
        c.suit != Suit::Oros ==> oros_in(s.push(c)) == oros_in(s),
        oros_in(s) <= s.len(),
    decreases s.len(),
{
    assert(s.push(c).drop_last() =~= s);
    if s.len() > 0 {
        law_each_oro_counts(s.drop_last(), s.last());
    }
}

/// Every seven counts towards the sevens of a pile, whatever its suit; no other card
/// does.
pub proof fn law_each_seven_counts(s: Seq<Card>, c: Card)
    ensures
        c.rank == 7 ==> sevens_in(s.push(c)) == sevens_in(s) + 1,
        c.rank != 7 ==> sevens_in(s.push(c)) == sevens_in(s),
        sevens_in(s) <= s.len(),
    decreases s.len(),
{
    assert(s.push(c).drop_last() =~= s);
    if s.len() > 0 {
        law_each_seven_counts(s.drop_last(), s.last());
    }
}

/// A pile holding only Oros counts all of its cards as Oros; a pile holding none
/// counts none.
pub proof fn law_oros_of_uniform_piles(s: Seq<Card>)
    ensures
        (forall|i: int| 0 <= i < s.len() ==> (#[trigger] s[i]).suit == Suit::Oros) ==> oros_in(s) == s.len(),
        (forall|i: int| 0 <= i < s.len() ==> (#[trigger] s[i]).suit != Suit::Oros) ==> oros_in(s) == 0,
    decreases s.len(),
{
    if s.len() > 0 {
        let r = s.drop_last();
        assert forall|i: int| 0 <= i < r.len() implies #[trigger] r[i] == s[i] by {}
        law_oros_of_uniform_piles(r);
    }
}

} // verus!
