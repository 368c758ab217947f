use vstd::prelude::*;
use vstd::multiset::Multiset;

use crate::card::{Card, card_value};
use crate::game::{
    Game, PlayResult, GameError, played, deal_result, turn_passed, hands_empty, round_closes,
    taken_from, kept_from, taken_cards, in_range, below_top, top_cards, GameState, play_refusal,
    valid_selection,
};
use crate::subsets::{
    indices_value, increasing_below, makes_fifteen, combinations_of, lemma_combinations_sound,
    lemma_combinations_complete,
};

verus! {

broadcast use {vstd::seq_lib::group_to_multiset_ensures, vstd::multiset::group_multiset_axioms};

/// Every card of the game: the deck, both hands, the table and both captured piles.
pub open spec fn all_cards(g: Game) -> Multiset<Card> {
    g.deck@.to_multiset()
        .add(g.players[0].hand@.to_multiset())
        .add(g.players[1].hand@.to_multiset())
        .add(g.table@.to_multiset())
        .add(g.players[0].captured@.to_multiset())
        .add(g.players[1].captured@.to_multiset())
}

/// With empty hands, table and piles, the game's cards are the deck's.
pub proof fn lemma_only_deck_cards(g: Game)
    requires
        g.players[0].hand@.len() == 0,
        g.players[1].hand@.len() == 0,
        g.table@.len() == 0,
        g.players[0].captured@.len() == 0,
        g.players[1].captured@.len() == 0,
    ensures
        all_cards(g) == g.deck@.to_multiset(),
{
    assert(g.players[0].hand@ =~= Seq::<Card>::empty());
    assert(g.players[1].hand@ =~= Seq::<Card>::empty());
    assert(g.table@ =~= Seq::<Card>::empty());
    assert(g.players[0].captured@ =~= Seq::<Card>::empty());
    assert(g.players[1].captured@ =~= Seq::<Card>::empty());
    assert(all_cards(g) =~= g.deck@.to_multiset());
}

/// The total value of a list of cards.
pub open spec fn cards_value(s: Seq<Card>) -> nat
    decreases s.len(),
{
    if s.len() == 0 {
        0
    } else {
        cards_value(s.drop_last()) + card_value(s.last())
    }
}

/// The cards a capture takes and the cards it leaves are, together, the table.
proof fn lemma_split_table(t: Seq<Card>, idx: Seq<usize>, j: int)
    requires
        0 <= j <= t.len(),
        t.len() <= usize::MAX,
    ensures
        kept_from(t, idx, j).to_multiset().add(taken_from(t, idx, j).to_multiset())
            == t.subrange(j, t.len() as int).to_multiset(),
    decreases t.len() - j,
{
    if j < t.len() {
        lemma_split_table(t, idx, j + 1);
        let tail = t.subrange(j + 1, t.len() as int);
        assert(t.subrange(j, t.len() as int) =~= seq![t[j]] + tail);
        vstd::seq_lib::lemma_multiset_commutative(seq![t[j]], tail);
        vstd::seq_lib::lemma_multiset_commutative(seq![t[j]], kept_from(t, idx, j + 1));
        assert(seq![t[j]].to_multiset() =~= Multiset::singleton(t[j])) by {
            assert(seq![t[j]] =~= Seq::<Card>::empty().push(t[j]));
        }
        assert(kept_from(t, idx, j).to_multiset().add(taken_from(t, idx, j).to_multiset())
            =~= t.subrange(j, t.len() as int).to_multiset());
    } else {
        assert(t.subrange(j, t.len() as int) =~= Seq::<Card>::empty());
    }
}

/// A play, accepted or refused, neither loses nor creates a card.
pub proof fn law_play_keeps_cards(g0: Game, i: usize, sel: Option<Seq<usize>>, r: Result<PlayResult, GameError>, g1: Game)
    requires
        g0.current_player < 2,
        g0.table@.len() <= usize::MAX,
        played(g0, i, sel, r, g1),
    ensures
        all_cards(g1) == all_cards(g0),
{
    if r is Ok {
        let p = g0.current_player as int;
        let h = g0.players[p].hand@;
        let card = h[i as int];
        assert(h.remove(i as int).to_multiset() == h.to_multiset().remove(card));
        assert(h.to_multiset().count(card) > 0);
        match sel {
            None => {
                assert(g1.table@.to_multiset() == g0.table@.to_multiset().insert(card));
            },
            Some(idx) => {
                let t = g0.table@;
                lemma_split_table(t, idx, 0);
                assert(t.subrange(0, t.len() as int) =~= t);
                let won = taken_cards(t, idx).push(card);
                vstd::seq_lib::lemma_multiset_commutative(g0.players[p].captured@, won);
            },
        }
        if p == 0 {
            assert(all_cards(g1) =~= all_cards(g0));
        } else {
            assert(all_cards(g1) =~= all_cards(g0));
        }
    }
}

/// Dealing moves cards from the deck to the hands and the table, and no others.
pub proof fn law_deal_keeps_cards(g0: Game, g1: Game)
    requires
        deal_result(g0, g1),
    ensures
        all_cards(g1) == all_cards(g0),
{
    let d0 = g0.deck@;
    let d1 = below_top(d0, 3);
    let d2 = below_top(d1, 3);
    assert(d1 + top_cards(d0, 3) =~= d0);
    assert(d2 + top_cards(d1, 3) =~= d1);
    assert(below_top(d2, 4) + top_cards(d2, 4) =~= d2);
    vstd::seq_lib::lemma_multiset_commutative(d1, top_cards(d0, 3));
    vstd::seq_lib::lemma_multiset_commutative(d2, top_cards(d1, 3));
    vstd::seq_lib::lemma_multiset_commutative(below_top(d2, 4), top_cards(d2, 4));
    vstd::seq_lib::lemma_multiset_commutative(g0.players[0].hand@, top_cards(d0, 3));
    vstd::seq_lib::lemma_multiset_commutative(g0.players[1].hand@, top_cards(d1, 3));
    vstd::seq_lib::lemma_multiset_commutative(g0.table@, top_cards(d2, 4));
    assert(all_cards(g1) =~= all_cards(g0));
}

/// Passing the turn neither loses nor creates a card.
pub proof fn law_turn_keeps_cards(g0: Game, g1: Game)
    requires
        g0.last_capturer matches Some(c) ==> c < 2,
        turn_passed(g0, g1),
    ensures
        all_cards(g1) == all_cards(g0),
{
    if hands_empty(g0) && g0.deck@.len() > 0 {
        law_deal_keeps_cards(g0, g1);
    } else if round_closes(g0) {
        if g0.table@.len() > 0 && g0.last_capturer is Some {
            let c = g0.last_capturer->0 as int;
            vstd::seq_lib::lemma_multiset_commutative(g0.players[c].captured@, g0.table@);
            if c == 0 {
                assert(all_cards(g1) =~= all_cards(g0));
            } else {
                assert(all_cards(g1) =~= all_cards(g0));
            }
        }
    }
}

/// With no position selected, nothing is taken.
proof fn lemma_taken_none(t: Seq<Card>, j: int)
    ensures
        taken_from(t, Seq::<usize>::empty(), j) == Seq::<Card>::empty(),
    decreases t.len() - j,
{
    if 0 <= j < t.len() {
        lemma_taken_none(t, j + 1);
    }
}

/// Selecting one more position adds that card's value to what is taken from `j` on.
proof fn lemma_taken_value_push(t: Seq<Card>, pre: Seq<usize>, x: usize, j: int)
    requires
        !pre.contains(x),
        x < t.len(),
        0 <= j,
        t.len() <= usize::MAX,
    ensures
        cards_value(taken_from(t, pre.push(x), j)) == cards_value(taken_from(t, pre, j)) + if j <= x {
            card_value(t[x as int])
        } else {
            0
        },
    decreases t.len() - j,
{
    if j < t.len() {
        lemma_taken_value_push(t, pre, x, j + 1);
        let ju = j as usize;
        assert(pre.push(x).contains(ju) <==> pre.contains(ju) || ju == x) by {
            if pre.push(x).contains(ju) {
                let k = choose|k: int| 0 <= k < pre.push(x).len() && pre.push(x)[k] == ju;
                if k < pre.len() {
                    assert(pre[k] == ju);
                }
            }
            if pre.contains(ju) {
                let k = choose|k: int| 0 <= k < pre.len() && pre[k] == ju;
                assert(pre.push(x)[k] == ju);
            }
            if ju == x {
                assert(pre.push(x)[pre.len() as int] == ju);
            }
        }
        let a = taken_from(t, pre.push(x), j + 1);
        let b = taken_from(t, pre, j + 1);
        if pre.push(x).contains(ju) {
            assert(a.push(t[j]).drop_last() =~= a);
        }
        if pre.contains(ju) {
            assert(b.push(t[j]).drop_last() =~= b);
        }
    }
}

/// For distinct positions on the table, the cards taken are worth what the
/// positions' values add up to.
proof fn lemma_taken_value(t: Seq<Card>, idx: Seq<usize>)
    requires
        in_range(idx, t.len()),
        idx.no_duplicates(),
        t.len() <= usize::MAX,
    ensures
        cards_value(taken_cards(t, idx)) == indices_value(t, idx),
    decreases idx.len(),
{
    if idx.len() == 0 {
        lemma_taken_none(t, 0);
        assert(idx =~= Seq::<usize>::empty());
    } else {
        let pre = idx.drop_last();
        let x = idx.last();
        assert(in_range(pre, t.len())) by {
            assert forall|k: int| 0 <= k < pre.len() implies #[trigger] pre[k] < t.len() by {
                assert(pre[k] == idx[k]);
            }
        }
        assert(pre.no_duplicates()) by {
            assert forall|a: int, b: int| 0 <= a < pre.len() && 0 <= b < pre.len() && a != b implies pre[a] != pre[b] by {
                assert(pre[a] == idx[a] && pre[b] == idx[b]);
            }
        }
        assert(!pre.contains(x)) by {
            if pre.contains(x) {
                let k = choose|k: int| 0 <= k < pre.len() && pre[k] == x;
                assert(idx[k] == idx[idx.len() - 1]);
            }
        }
        lemma_taken_value(t, pre);
        assert(pre.push(x) =~= idx);
        assert(idx[idx.len() - 1] < t.len());
        lemma_taken_value_push(t, pre, x, 0);
    }
}

/// An accepted capture takes cards worth exactly 15, hand card included.
pub proof fn law_capture_makes_fifteen(g0: Game, i: usize, idx: Seq<usize>, r: Result<PlayResult, GameError>, g1: Game)
    requires
        g0.table@.len() <= usize::MAX,
        played(g0, i, Some(idx), r, g1),
        r is Ok,
    ensures
        r matches Ok(PlayResult::Captured { cards, escoba }) && cards_value(cards@) == 15,
{
    let p = g0.current_player as int;
    let card = g0.players[p].hand@[i as int];
    let t = g0.table@;
    lemma_taken_value(t, idx);
    let won = taken_cards(t, idx).push(card);
    assert(won.drop_last() =~= taken_cards(t, idx));
}

/// The first deal of a fresh round leaves three cards in each hand, four on the
/// table and thirty in the deck.
pub proof fn law_first_deal_counts(g0: Game, g1: Game)
    requires
        g0.deck@.len() == 40,
        g0.players[0].hand@.len() == 0,
        g0.players[1].hand@.len() == 0,
        g0.table@.len() == 0,
        g0.first_deal,
        deal_result(g0, g1),
    ensures
        g1.players[0].hand@.len() == 3,
        g1.players[1].hand@.len() == 3,
        g1.table@.len() == 4,
        g1.deck@.len() == 30,
        !g1.first_deal,
{
}

/// The two lists name the same positions.
pub open spec fn same_positions(a: Seq<usize>, b: Seq<usize>) -> bool {
    forall|x: usize| a.contains(x) <==> b.contains(x)
}

/// The positions below `k` that `idx` names, in increasing order.
pub open spec fn positions_in(idx: Seq<usize>, k: nat) -> Seq<usize>
    decreases k,
{
    if k == 0 {
        Seq::empty()
    } else {
        let below = positions_in(idx, (k - 1) as nat);
        if idx.contains((k - 1) as usize) {
            below.push((k - 1) as usize)
        } else {
            below
        }
    }
}

/// The positions of `idx` below `k`, sorted, name exactly those positions.
proof fn lemma_positions_in(idx: Seq<usize>, k: nat)
    requires
        k <= usize::MAX,
    ensures
        increasing_below(positions_in(idx, k), k),
        forall|x: usize| #[trigger] positions_in(idx, k).contains(x) <==> (x < k && idx.contains(x)),
    decreases k,
{
    if k > 0 {
        let top = (k - 1) as nat;
        lemma_positions_in(idx, top);
        let below = positions_in(idx, top);
        let s = positions_in(idx, k);
        if idx.contains(top as usize) {
            assert forall|a: int, b: int| 0 <= a < b < s.len() implies s[a] < s[b] by {
                if b == s.len() - 1 {
                    assert(s[a] == below[a] && below[a] < top);
                } else {
                    assert(s[a] == below[a] && s[b] == below[b]);
                }
            }
            assert forall|a: int| 0 <= a < s.len() implies #[trigger] s[a] < k by {
                if a < below.len() {
                    assert(s[a] == below[a]);
                }
            }
            assert forall|x: usize| #[trigger] s.contains(x) <==> (x < k && idx.contains(x)) by {
                if s.contains(x) {
                    let a = choose|a: int| 0 <= a < s.len() && s[a] == x;
                    if a < below.len() {
                        assert(below[a] == x);
                        assert(below.contains(x));
                    }
                }
                if x < k && idx.contains(x) {
                    if x == top {
                        assert(s[s.len() - 1] == x);
                    } else {
                        assert(below.contains(x));
                        let a = choose|a: int| 0 <= a < below.len() && below[a] == x;
                        assert(s[a] == x);
                    }
                }
            }
        } else {
            assert forall|x: usize| #[trigger] s.contains(x) <==> (x < k && idx.contains(x)) by {
                if x < k && idx.contains(x) {
                    assert(x != top);
                    assert(below.contains(x));
                }
            }
        }
    }
}

/// What is taken depends only on which positions are named.
proof fn lemma_taken_same(t: Seq<Card>, a: Seq<usize>, b: Seq<usize>, j: int)
    requires
        same_positions(a, b),
    ensures
        taken_from(t, a, j) == taken_from(t, b, j),
    decreases t.len() - j,
{
    if 0 <= j < t.len() {
        lemma_taken_same(t, a, b, j + 1);
        assert(a.contains(j as usize) == b.contains(j as usize));
    }
}

/// Distinct positions on the table that name the same positions are worth the same.
proof fn lemma_value_same(t: Seq<Card>, a: Seq<usize>, b: Seq<usize>)
    requires
        same_positions(a, b),
        in_range(a, t.len()),
        in_range(b, t.len()),
        a.no_duplicates(),
        b.no_duplicates(),
        t.len() <= usize::MAX,
    ensures
        indices_value(t, a) == indices_value(t, b),
{
    lemma_taken_value(t, a);
    lemma_taken_value(t, b);
    lemma_taken_same(t, a, b, 0);
}

/// Increasing positions repeat none.
proof fn lemma_increasing_distinct(s: Seq<usize>, n: nat)
    requires
        increasing_below(s, n),
    ensures
        s.no_duplicates(),
        in_range(s, n),
{
    assert forall|a: int, b: int| 0 <= a < s.len() && 0 <= b < s.len() && a != b implies s[a] != s[b] by {
        if a < b {
            assert(s[a] < s[b]);
        } else {
            assert(s[b] < s[a]);
        }
    }
}

/// A selection is accepted exactly when it repeats no position and, sorted, it is
/// one of the captures listed for the hand card.
pub proof fn law_selection_accepted_iff_listed(g: Game, i: usize, idx: Seq<usize>)
    requires
        g.state == GameState::Playing,
        g.current_player < 2,
        i < g.players[g.current_player as int].hand@.len(),
        g.table@.len() <= usize::MAX,
    ensures
        play_refusal(g, i, Some(idx)) is None <==> idx.no_duplicates() && exists|c: Seq<usize>|
            #[trigger] combinations_of(g.players[g.current_player as int].hand@[i as int], g.table@).contains(c)
                && same_positions(c, idx),
{
    let hand = g.players[g.current_player as int].hand@[i as int];
    let t = g.table@;
    let n = t.len();
    let combos = combinations_of(hand, t);
    if play_refusal(g, i, Some(idx)) is None {
        assert(valid_selection(hand, t, idx));
        let s = positions_in(idx, n);
        lemma_positions_in(idx, n);
        assert(same_positions(s, idx)) by {
            assert forall|x: usize| s.contains(x) <==> idx.contains(x) by {
                if idx.contains(x) {
                    let k = choose|k: int| 0 <= k < idx.len() && idx[k] == x;
                    assert(idx[k] < n);
                }
            }
        }
        lemma_increasing_distinct(s, n);
        lemma_value_same(t, s, idx);
        assert(s.len() > 0) by {
            if s.len() == 0 {
                assert(indices_value(t, s) == 0);
            }
        }
        lemma_combinations_complete(hand, t, s);
        assert(combos.contains(s) && same_positions(s, idx));
    }
    if idx.no_duplicates() && exists|c: Seq<usize>| #[trigger] combos.contains(c) && same_positions(c, idx) {
        let c = choose|c: Seq<usize>| #[trigger] combos.contains(c) && same_positions(c, idx);
        let j = choose|j: int| 0 <= j < combos.len() && combos[j] == c;
        lemma_combinations_sound(hand, t, j);
        lemma_increasing_distinct(c, n);
        assert(in_range(idx, n)) by {
            assert forall|k: int| 0 <= k < idx.len() implies #[trigger] idx[k] < n by {
                assert(idx.contains(idx[k]));
                assert(c.contains(idx[k]));
                let m = choose|m: int| 0 <= m < c.len() && c[m] == idx[k];
                assert(c[m] < n);
            }
        }
        lemma_value_same(t, c, idx);
        assert(valid_selection(hand, t, idx));
    }
}

/// The cards at the given positions, in the order of the positions.
pub open spec fn cards_at(table: Seq<Card>, s: Seq<usize>) -> Seq<Card> {
    s.map_values(|k: usize| table[k as int])
}

/// Adding up the positions' values is adding up the values of their cards.
proof fn lemma_indices_value_is_cards_value(table: Seq<Card>, s: Seq<usize>)
    ensures
        indices_value(table, s) == cards_value(cards_at(table, s)),
    decreases s.len(),
{
    if s.len() > 0 {
        lemma_indices_value_is_cards_value(table, s.drop_last());
        assert(cards_at(table, s).drop_last() =~= cards_at(table, s.drop_last()));
    }
}

/// Any hand card, figures included, captures any non-empty set of table positions
/// whose cards' values add up with its own value to 15: the increasing list of
/// those positions is among the captures listed for it, and playing it is accepted.
pub proof fn law_fifteen_is_always_capturable(g: Game, i: usize, s: Seq<usize>)
    requires
        g.state == GameState::Playing,
        g.current_player < 2,
        i < g.players[g.current_player as int].hand@.len(),
        crate::card::valid_card(g.players[g.current_player as int].hand@[i as int]),
        g.table@.len() <= usize::MAX,
        s.len() > 0,
        increasing_below(s, g.table@.len()),
        card_value(g.players[g.current_player as int].hand@[i as int]) + cards_value(cards_at(g.table@, s)) == 15,
    ensures
        combinations_of(g.players[g.current_player as int].hand@[i as int], g.table@).contains(s),
        play_refusal(g, i, Some(s)) is None,
{
    let hand = g.players[g.current_player as int].hand@[i as int];
    let t = g.table@;
    lemma_indices_value_is_cards_value(t, s);
    lemma_combinations_complete(hand, t, s);
    lemma_increasing_distinct(s, t.len());
    assert(valid_selection(hand, t, s));
}

} // verus!
