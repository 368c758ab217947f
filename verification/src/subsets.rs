use vstd::prelude::*;
use vstd::arithmetic::power2::{pow2, lemma_pow2_pos, lemma_pow2_unfold, lemma_pow2_adds, lemma2_to64};
use vstd::arithmetic::div_mod::{
    lemma_fundamental_div_mod,
    lemma_div_multiples_vanish_fancy,
    lemma_mod_multiples_vanish,
    lemma_basic_div,
    lemma_remainder_lower,
    lemma_remainder_upper,
};
use vstd::bits::{lemma_u32_shr_is_div, lemma_u32_shl_is_mul, lemma_u32_pow2_no_overflow};

use crate::card::{Card, card_value, valid_card};

verus! {

/// Bit `i` of `m` is one.
pub open spec fn bit_set(m: nat, i: nat) -> bool {
    (m / pow2(i)) % 2 == 1
}

/// The positions below `n` whose bit is set in the mask `m`, in increasing order.
pub open spec fn mask_indices(m: nat, n: nat) -> Seq<usize>
    decreases n,
{
    if n == 0 {
        Seq::empty()
    } else {
        let below = mask_indices(m, (n - 1) as nat);
        if bit_set(m, (n - 1) as nat) {
            below.push((n - 1) as usize)
        } else {
            below
        }
    }
}

/// The total value of the table cards at the given positions.
pub open spec fn indices_value(table: Seq<Card>, idx: Seq<usize>) -> nat
    decreases idx.len(),
{
    if idx.len() == 0 {
        0
    } else {
        indices_value(table, idx.drop_last()) + card_value(table[idx.last() as int])
    }
}

/// The hand card together with the table cards at `idx` adds up to 15.
pub open spec fn makes_fifteen(hand: Card, table: Seq<Card>, idx: Seq<usize>) -> bool {
    card_value(hand) + indices_value(table, idx) == 15
}

/// Every non-empty subset of the positions of a table of `n` cards, as the
/// increasing list of its positions, in the order of the masks 1, 2, ..., 2^n - 1.
pub open spec fn nonempty_subsets(n: nat) -> Seq<Seq<usize>> {
    Seq::new((pow2(n) - 1) as nat, |j: int| mask_indices((j + 1) as nat, n))
}

/// The subsets of the table that the hand card can capture: those whose values
/// with the hand card's add up to 15, in mask order.
pub open spec fn combinations_of(hand: Card, table: Seq<Card>) -> Seq<Seq<usize>> {
    nonempty_subsets(table.len()).filter(fifteen_with(hand, table))
}

/// The test `makes_fifteen` for a fixed hand card and table.
pub open spec fn fifteen_with(hand: Card, table: Seq<Card>) -> spec_fn(Seq<usize>) -> bool {
    |s: Seq<usize>| makes_fifteen(hand, table, s)
}

/// Positions in strictly increasing order, all below `n`.
pub open spec fn increasing_below(idx: Seq<usize>, n: nat) -> bool {
    &&& forall|k: int| 0 <= k < idx.len() ==> #[trigger] idx[k] < n
    &&& forall|k: int, l: int| 0 <= k < l < idx.len() ==> idx[k] < idx[l]
}

/// The mask test the enumeration uses agrees with `bit_set`.
pub proof fn lemma_mask_test(m: u32, b: u32)
    requires
        b < 32,
    ensures
        ((m & (1u32 << b)) != 0) == bit_set(m as nat, b as nat),
        (1u32 << b) as nat == pow2(b as nat),
{
    assert(((m & (1u32 << b)) != 0) == ((m >> b) % 2 == 1)) by (bit_vector)
        requires
            b < 32,
    ;
    lemma_u32_shr_is_div(m, b);
    lemma_u32_pow2_no_overflow(b as nat);
    lemma_u32_shl_is_mul(1u32, b);
}

/// `1 << n` is 2^n for a shift below 32.
pub proof fn lemma_shift_is_pow2(n: u32)
    requires
        n < 32,
    ensures
        (1u32 << n) as nat == pow2(n as nat),
{
    lemma_u32_pow2_no_overflow(n as nat);
    lemma_u32_shl_is_mul(1u32, n);
}

/// The positions of a mask are increasing and below `n`.
pub proof fn lemma_mask_indices_increasing(m: nat, n: nat)
    requires
        n <= usize::MAX,
    ensures
        increasing_below(mask_indices(m, n), n),
        mask_indices(m, n).len() <= n,
    decreases n,
{
    if n > 0 {
        lemma_mask_indices_increasing(m, (n - 1) as nat);
        let below = mask_indices(m, (n - 1) as nat);
        let s = mask_indices(m, n);
        if bit_set(m, (n - 1) as nat) {
            assert forall|k: int, l: int| 0 <= k < l < s.len() implies s[k] < s[l] by {
                if l == s.len() - 1 {
                    assert(s[k] == below[k] && below[k] < n - 1);
                } else {
                    assert(s[k] == below[k] && s[l] == below[l]);
                }
            }
            assert forall|k: int| 0 <= k < s.len() implies #[trigger] s[k] < n by {
                if k < below.len() {
                    assert(s[k] == below[k]);
                }
            }
        }
    }
}

/// A filtered prefix grows by the next element when it is kept.
pub proof fn lemma_filter_take_step<A>(s: Seq<A>, p: spec_fn(A) -> bool, k: int)
    requires
        0 <= k < s.len(),
    ensures
        s.take(k + 1).filter(p) == if p(s[k]) {
            s.take(k).filter(p).push(s[k])
        } else {
            s.take(k).filter(p)
        },
{
    reveal(Seq::filter);
    assert(s.take(k + 1).drop_last() =~= s.take(k));
}

/// Adding a higher power of two leaves the lower bits alone.
proof fn lemma_bit_above(m: nat, i: nat, j: nat)
    requires
        i < j,
    ensures
        bit_set(m + pow2(j), i) == bit_set(m, i),
{
    let p = pow2(i);
    lemma_pow2_pos(i);
    lemma_pow2_adds(i, (j - i) as nat);
    lemma_pow2_adds(1, (j - i - 1) as nat);
    lemma2_to64();
    let q = m / p;
    let r = m % p;
    lemma_fundamental_div_mod(m as int, p as int);
    lemma_remainder_lower(m as int, p as int);
    lemma_remainder_upper(m as int, p as int);
    let e = pow2((j - i) as nat);
    assert(pow2(j) == p * e);
    assert(m + pow2(j) == p * (q + e) + r) by (nonlinear_arith)
        requires
            m == p * q + r,
            pow2(j) == p * e,
    ;
    lemma_div_multiples_vanish_fancy((q + e) as int, r as int, p as int);
    lemma_div_multiples_vanish_fancy(q as int, r as int, p as int);
    let h = pow2((j - i - 1) as nat);
    assert(e == 2 * h);
    lemma_mod_multiples_vanish(h as int, q as int, 2);
}

/// Below `2^j`, bit `j` is zero; adding `2^j` sets it.
proof fn lemma_top_bit(m: nat, j: nat)
    requires
        m < pow2(j),
    ensures
        !bit_set(m, j),
        bit_set(m + pow2(j), j),
{
    lemma_pow2_pos(j);
    lemma_basic_div(m as int, pow2(j) as int);
    lemma_div_multiples_vanish_fancy(1, m as int, pow2(j) as int);
}

/// Bits below `k` agree, so the positions below `k` agree.
proof fn lemma_mask_indices_low(m: nat, j: nat, k: nat)
    requires
        k <= j,
    ensures
        mask_indices(m + pow2(j), k) == mask_indices(m, k),
    decreases k,
{
    if k > 0 {
        lemma_mask_indices_low(m, j, (k - 1) as nat);
        lemma_bit_above(m, (k - 1) as nat, j);
    }
}

/// Every increasing list of positions below `n` is the list of some mask below `2^n`.
pub proof fn lemma_mask_of(s: Seq<usize>, n: nat) -> (m: nat)
    requires
        increasing_below(s, n),
        n <= usize::MAX,
    ensures
        m < pow2(n),
        mask_indices(m, n) == s,
        s.len() > 0 ==> m >= 1,
    decreases n,
{
    lemma_pow2_pos(n);
    if n == 0 {
        if s.len() > 0 {
            assert(s[0] < 0);
        }
        assert(s =~= Seq::<usize>::empty());
        0
    } else {
        lemma_pow2_unfold(n);
        let top = (n - 1) as nat;
        if s.len() > 0 && s.last() == top {
            let rest = s.drop_last();
            assert forall|k: int| 0 <= k < rest.len() implies #[trigger] rest[k] < top by {
                assert(s[k] < s[s.len() - 1]);
            }
            assert forall|k: int, l: int| 0 <= k < l < rest.len() implies rest[k] < rest[l] by {
                assert(s[k] < s[l]);
            }
            let m0 = lemma_mask_of(rest, top);
            lemma_mask_indices_low(m0, top, top);
            lemma_top_bit(m0, top);
            let m = m0 + pow2(top);
            assert(mask_indices(m, n) =~= s);
            m
        } else {
            assert forall|k: int| 0 <= k < s.len() implies #[trigger] s[k] < top by {
                if s[k] == top {
                    if k < s.len() - 1 {
                        assert(s[k] < s[s.len() - 1]);
                    }
                }
            }
            let m = lemma_mask_of(s, top);
            lemma_top_bit(m, top);
            if s.len() > 0 && m == 0 {
                assert(mask_indices(0, top).len() == 0) by {
                    lemma_zero_mask(top);
                }
            }
            m
        }
    }
}

/// The empty mask selects nothing.
proof fn lemma_zero_mask(n: nat)
    ensures
        mask_indices(0, n).len() == 0,
    decreases n,
{
    if n > 0 {
        lemma_pow2_pos((n - 1) as nat);
        lemma_basic_div(0, pow2((n - 1) as nat) as int);
        lemma_zero_mask((n - 1) as nat);
    }
}

/// Every capture listed for a hand card is a set of distinct table positions, in
/// increasing order, whose values with the hand card's add up to 15.
pub proof fn lemma_combinations_sound(hand: Card, table: Seq<Card>, i: int)
    requires
        0 <= i < combinations_of(hand, table).len(),
        table.len() <= usize::MAX,
    ensures
        increasing_below(combinations_of(hand, table)[i], table.len()),
        makes_fifteen(hand, table, combinations_of(hand, table)[i]),
        valid_card(hand) ==> combinations_of(hand, table)[i].len() > 0,
{
    let subs = nonempty_subsets(table.len());
    let p = fifteen_with(hand, table);
    broadcast use vstd::seq_lib::group_filter_ensures;
    let c = combinations_of(hand, table)[i];
    assert(p(c));
    assert(subs.filter(p).contains(c));
    assert(subs.contains(c)) by {
        let k = choose|k: int| 0 <= k < subs.filter(p).len() && subs.filter(p)[k] == c;
        assert(subs.filter(p).contains(c));
        seq_filter_member(subs, p, c);
    }
    let j = choose|j: int| 0 <= j < subs.len() && subs[j] == c;
    lemma_mask_indices_increasing((j + 1) as nat, table.len());
}

/// Every set of table positions whose values with the hand card's add up to 15 is
/// listed among the hand card's captures.
pub proof fn lemma_combinations_complete(hand: Card, table: Seq<Card>, s: Seq<usize>)
    requires
        increasing_below(s, table.len()),
        makes_fifteen(hand, table, s),
        s.len() > 0,
        table.len() <= usize::MAX,
    ensures
        combinations_of(hand, table).contains(s),
{
    let n = table.len();
    let m = lemma_mask_of(s, n);
    let subs = nonempty_subsets(n);
    assert(subs[m - 1] == s);
    broadcast use vstd::seq_lib::group_filter_ensures;
    subs.lemma_filter_contains(fifteen_with(hand, table), m - 1);
}

/// What a filter keeps came from the sequence.
proof fn seq_filter_member<A>(s: Seq<A>, p: spec_fn(A) -> bool, x: A)
    requires
        s.filter(p).contains(x),
    ensures
        s.contains(x),
    decreases s.len(),
{
    reveal(Seq::filter);
    if s.len() > 0 {
        let rest = s.drop_last();
        if p(s.last()) && x == s.last() {
            assert(s[s.len() - 1] == x);
        } else {
            if p(s.last()) {
                let k = choose|k: int| 0 <= k < s.filter(p).len() && s.filter(p)[k] == x;
                assert(rest.filter(p)[k] == x);
            }
            seq_filter_member(rest, p, x);
            let k = choose|k: int| 0 <= k < rest.len() && rest[k] == x;
            assert(s[k] == x);
        }
    }
}

/// A mask below `2^n` is determined by its positions below `n`.
proof fn lemma_mask_indices_injective(a: nat, b: nat, n: nat)
    requires
        a < pow2(n),
        b < pow2(n),
        mask_indices(a, n) == mask_indices(b, n),
        n <= usize::MAX,
    ensures
        a == b,
    decreases n,
{
    lemma_pow2_pos(n);
    if n == 0 {
        lemma2_to64();
    } else {
        let top = (n - 1) as nat;
        lemma_pow2_unfold(n);
        lemma_pow2_pos(top);
        let sa = mask_indices(a, n);
        let la = mask_indices(a, top);
        let lb = mask_indices(b, top);
        lemma_mask_indices_increasing(a, top);
        lemma_mask_indices_increasing(b, top);
        // the top bit shows as a last position `top`
        assert(bit_set(a, top) == bit_set(b, top)) by {
            if bit_set(a, top) && !bit_set(b, top) {
                assert(sa.last() == top);
                assert(sa == lb);
                assert(lb[lb.len() - 1] < top);
            }
            if bit_set(b, top) && !bit_set(a, top) {
                assert(mask_indices(b, n).last() == top);
                assert(mask_indices(b, n) == la);
                assert(la[la.len() - 1] < top);
            }
        }
        let a0: nat = if bit_set(a, top) { (a - pow2(top)) as nat } else { a };
        let b0: nat = if bit_set(b, top) { (b - pow2(top)) as nat } else { b };
        lemma_low_part(a, top);
        lemma_low_part(b, top);
        if bit_set(a, top) {
            lemma_mask_indices_low(a0, top, top);
            lemma_mask_indices_low(b0, top, top);
            assert(la == sa.drop_last());
            assert(lb == mask_indices(b, n).drop_last());
        }
        lemma_mask_indices_injective(a0, b0, top);
    }
}

/// Below `2^(j+1)`, the number without its bit `j` is below `2^j`.
proof fn lemma_low_part(m: nat, j: nat)
    requires
        m < pow2(j + 1),
    ensures
        bit_set(m, j) ==> m >= pow2(j) && m - pow2(j) < pow2(j),
        !bit_set(m, j) ==> m < pow2(j),
{
    lemma_pow2_pos(j);
    lemma_pow2_unfold(j + 1);
    if m >= pow2(j) {
        lemma_div_multiples_vanish_fancy(1, (m - pow2(j)) as int, pow2(j) as int);
    } else {
        lemma_basic_div(m as int, pow2(j) as int);
    }
}

/// What a filter keeps of a sequence without repeats has no repeats.
proof fn lemma_filter_no_duplicates<A>(s: Seq<A>, p: spec_fn(A) -> bool)
    requires
        s.no_duplicates(),
    ensures
        s.filter(p).no_duplicates(),
    decreases s.len(),
{
    reveal(Seq::filter);
    if s.len() > 0 {
        let rest = s.drop_last();
        lemma_filter_no_duplicates(rest, p);
        if p(s.last()) {
            let f = rest.filter(p);
            if f.contains(s.last()) {
                seq_filter_member(rest, p, s.last());
                let k = choose|k: int| 0 <= k < rest.len() && rest[k] == s.last();
                assert(s[k] == s[s.len() - 1]);
            }
            let g = f.push(s.last());
            assert forall|a: int, b: int| 0 <= a < g.len() && 0 <= b < g.len() && a != b implies g[a] != g[b] by {
                if a == g.len() - 1 {
                    if g[a] == g[b] {
                        assert(f[b] == s.last());
                    }
                } else if b == g.len() - 1 {
                    if g[a] == g[b] {
                        assert(f[a] == s.last());
                    }
                }
            }
        }
    }
}

/// No capture is listed twice.
pub proof fn lemma_combinations_distinct(hand: Card, table: Seq<Card>)
    requires
        table.len() <= usize::MAX,
    ensures
        combinations_of(hand, table).no_duplicates(),
{
    let n = table.len();
    let subs = nonempty_subsets(n);
    lemma_pow2_pos(n);
    assert forall|a: int, b: int| 0 <= a < subs.len() && 0 <= b < subs.len() && a != b implies subs[a] != subs[b] by {
        if subs[a] == subs[b] {
            lemma_mask_indices_injective((a + 1) as nat, (b + 1) as nat, n);
        }
    }
    lemma_filter_no_duplicates(subs, fifteen_with(hand, table));
}

} // verus!
