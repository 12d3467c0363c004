//! Applying swap lists to per-hand values, and why doing so is sound.

use vstd::prelude::*;

use crate::card::{is_card, lemma_pair_index_bounds, pair_index, Card, CardConfig, PrivateCards};
use crate::isomorphism::{
    hand_key, hands_wf, last_with_key, lemma_fold_target_below, lemma_fold_target_is_lowest,
    lemma_last_with_key_bounds, lemma_suit_labels_len, lemma_swap_suit_compose, swap_list_of,
    swap_pairs, swapped_key,
};
use crate::range::{lemma_swap_suit, pair_index_unordered, swap_suit, weights_suit_isomorphic};

verus! {

/// Re-expanding a representative outcome through a swap list is sound: each pair `(i, j)` of a
/// swap list, unless it marks a missing partner, joins the hand at position `i` to a later hand
/// at position `j` that is exactly the hand `i` becomes when the two suits trade places.
pub proof fn lemma_swap_list_sound(hands: Seq<(Card, Card)>, s1: int, s2: int, k: int)
    requires
        hands.len() <= u16::MAX,
        0 <= k < swap_list_of(hands, s1, s2).len(),
    ensures
        ({
            let (i, j) = swap_list_of(hands, s1, s2)[k];
            &&& i < hands.len()
            &&& j != u16::MAX ==> i < j < hands.len() && hand_key(hands[j as int]) == swapped_key(
                hands[i as int],
                s1,
                s2,
            )
        }),
{
    lemma_swap_pairs_sound(hands, s1, s2, hands.len() as int, k);
}

proof fn lemma_swap_pairs_sound(hands: Seq<(Card, Card)>, s1: int, s2: int, n: int, k: int)
    requires
        hands.len() <= u16::MAX,
        n <= hands.len(),
        0 <= k < swap_pairs(hands, s1, s2, n).len(),
    ensures
        ({
            let (i, j) = swap_pairs(hands, s1, s2, n)[k];
            &&& i < n
            &&& j != u16::MAX ==> i < j < hands.len() && hand_key(hands[j as int]) == swapped_key(
                hands[i as int],
                s1,
                s2,
            )
        }),
    decreases n,
{
    if n > 0 {
        let prev = swap_pairs(hands, s1, s2, n - 1);
        let key = swapped_key(hands[n - 1], s1, s2);
        lemma_last_with_key_bounds(hands, key, hands.len() as int);
        if k < prev.len() {
            lemma_swap_pairs_sound(hands, s1, s2, n - 1, k);
        }
    }
}

/// The vector `v` after exchanging, in order, the entries at the two positions of each of the
/// first `n` pairs.
pub open spec fn apply_swaps<T>(v: Seq<T>, pairs: Seq<(u16, u16)>, n: int) -> Seq<T>
    decreases n,
{
    if n <= 0 {
        v
    } else {
        let w = apply_swaps(v, pairs, n - 1);
        let (i, j) = pairs[n - 1];
        w.update(i as int, w[j as int]).update(j as int, w[i as int])
    }
}

/// Whether every pair names two positions below `len`.
pub open spec fn pairs_in_bounds(pairs: Seq<(u16, u16)>, len: int) -> bool {
    forall|k: int| 0 <= k < pairs.len() ==> (#[trigger] pairs[k]).0 < len && pairs[k].1 < len
}

/// Whether the pairs are disjoint: all the positions they name are distinct.
pub open spec fn pairs_disjoint(pairs: Seq<(u16, u16)>) -> bool {
    &&& forall|k: int| 0 <= k < pairs.len() ==> (#[trigger] pairs[k]).0 != pairs[k].1
    &&& forall|k: int, m: int|
        0 <= k < m < pairs.len() ==> (#[trigger] pairs[k]).0 != (#[trigger] pairs[m]).0 && pairs[k].0
            != pairs[m].1 && pairs[k].1 != pairs[m].0 && pairs[k].1 != pairs[m].1
}

/// Re-indexes a vector of per-hand values from a representative outcome to the outcome a swap
/// list stands for, exchanging the entries of each pair in order.
pub fn apply_swap_list<T: Copy>(v: &mut Vec<T>, swap_list: &Vec<(u16, u16)>)
    requires
        pairs_in_bounds(swap_list@, old(v)@.len() as int),
    ensures
        final(v)@ == apply_swaps(old(v)@, swap_list@, swap_list@.len() as int),
{
    let mut k: usize = 0;
    while k < swap_list.len()
        invariant
            k <= swap_list@.len(),
            pairs_in_bounds(swap_list@, old(v)@.len() as int),
            v@.len() == old(v)@.len(),
            v@ == apply_swaps(old(v)@, swap_list@, k as int),
        decreases swap_list@.len() - k,
    {
        let (i, j) = swap_list[k];
        proof {
            assert(swap_list@[k as int].0 < v@.len() && swap_list@[k as int].1 < v@.len());
        }
        let a = v[i as usize];
        let b = v[j as usize];
        v.set(i as usize, b);
        v.set(j as usize, a);
        k += 1;
    }
}

/// Where the entry at position `x` comes from after the first `n` pairs are applied.
pub open spec fn swap_source(pairs: Seq<(u16, u16)>, n: int, x: int) -> int
    decreases n,
{
    if n <= 0 {
        x
    } else if pairs[n - 1].0 == x {
        pairs[n - 1].1 as int
    } else if pairs[n - 1].1 == x {
        pairs[n - 1].0 as int
    } else {
        swap_source(pairs, n - 1, x)
    }
}

proof fn lemma_apply_swaps_source<T>(v: Seq<T>, pairs: Seq<(u16, u16)>, n: int)
    requires
        0 <= n <= pairs.len(),
        pairs_in_bounds(pairs, v.len() as int),
        pairs_disjoint(pairs),
    ensures
        apply_swaps(v, pairs, n).len() == v.len(),
        forall|x: int| 0 <= x < v.len() ==> 0 <= #[trigger] swap_source(pairs, n, x) < v.len(),
        forall|x: int| 0 <= x < v.len() ==> #[trigger] apply_swaps(v, pairs, n)[x] == v[swap_source(pairs, n, x)],
    decreases n,
{
    if n > 0 {
        lemma_apply_swaps_source(v, pairs, n - 1);
        let i = pairs[n - 1].0 as int;
        let j = pairs[n - 1].1 as int;
        let w = apply_swaps(v, pairs, n - 1);
        assert(pairs[n - 1].0 < v.len() && pairs[n - 1].1 < v.len());
        assert(i != j);
        assert(apply_swaps(v, pairs, n) == w.update(i, w[j]).update(j, w[i]));
        assert forall|x: int| 0 <= x < v.len() implies 0 <= swap_source(pairs, n, x) < v.len() && #[trigger] apply_swaps(v, pairs, n)[x]
            == v[swap_source(pairs, n, x)] by {
            assert(0 <= swap_source(pairs, n - 1, x) < v.len());
            if x == i {
                assert forall|k: int| 0 <= k < n - 1 implies (#[trigger] pairs[k]).0 != j && pairs[k].1 != j by {
                    assert(pairs[k].0 != pairs[n - 1].1 && pairs[k].1 != pairs[n - 1].1);
                }
                lemma_swap_source_untouched(pairs, n - 1, j);
            } else if x == j {
                assert forall|k: int| 0 <= k < n - 1 implies (#[trigger] pairs[k]).0 != i && pairs[k].1 != i by {
                    assert(pairs[k].0 != pairs[n - 1].0 && pairs[k].1 != pairs[n - 1].0);
                }
                lemma_swap_source_untouched(pairs, n - 1, i);
            } else {
                assert(w[x] == v[swap_source(pairs, n - 1, x)]);
                assert(swap_source(pairs, n, x) == swap_source(pairs, n - 1, x));
            }
        }
    }
    assert forall|x: int| 0 <= x < v.len() implies 0 <= #[trigger] swap_source(pairs, n, x) < v.len() by {
        assert(apply_swaps(v, pairs, n)[x] == v[swap_source(pairs, n, x)]);
    }
}

/// A position that none of the first `n` pairs names stays where it is.
proof fn lemma_swap_source_untouched(pairs: Seq<(u16, u16)>, n: int, x: int)
    requires
        0 <= n <= pairs.len(),
        forall|k: int| 0 <= k < n ==> (#[trigger] pairs[k]).0 != x && pairs[k].1 != x,
    ensures
        swap_source(pairs, n, x) == x,
    decreases n,
{
    if n > 0 {
        lemma_swap_source_untouched(pairs, n - 1, x);
    }
}

/// Following the sources twice through disjoint pairs comes back to the start.
proof fn lemma_swap_source_involution(pairs: Seq<(u16, u16)>, n: int, x: int)
    requires
        0 <= n <= pairs.len(),
        pairs_disjoint(pairs),
    ensures
        swap_source(pairs, n, swap_source(pairs, n, x)) == x,
    decreases n,
{
    if n > 0 {
        let (i, j) = pairs[n - 1];
        if x == i as int {
            lemma_swap_source_untouched(pairs, n - 1, j as int);
        } else if x == j as int {
            lemma_swap_source_untouched(pairs, n - 1, i as int);
        } else {
            lemma_swap_source_involution(pairs, n - 1, x);
            lemma_swap_source_avoids(pairs, n - 1, x, i as int);
            lemma_swap_source_avoids(pairs, n - 1, x, j as int);
        }
    }
}

/// Through the first `n` pairs, a position that a later pair names is reached only from itself.
proof fn lemma_swap_source_avoids(pairs: Seq<(u16, u16)>, n: int, x: int, y: int)
    requires
        0 <= n <= pairs.len(),
        pairs_disjoint(pairs),
        x != y,
        forall|k: int| 0 <= k < n ==> (#[trigger] pairs[k]).0 != y && pairs[k].1 != y,
    ensures
        swap_source(pairs, n, x) != y,
    decreases n,
{
    if n > 0 {
        lemma_swap_source_avoids(pairs, n - 1, x, y);
    }
}

/// Applying a swap list whose pairs are disjoint, then applying it again, gives back the vector
/// bit for bit: re-indexing a representative's values to an isomorphic outcome and back loses
/// nothing.
pub proof fn lemma_apply_swaps_twice<T>(v: Seq<T>, pairs: Seq<(u16, u16)>)
    requires
        pairs_in_bounds(pairs, v.len() as int),
        pairs_disjoint(pairs),
    ensures
        apply_swaps(apply_swaps(v, pairs, pairs.len() as int), pairs, pairs.len() as int) == v,
{
    let n = pairs.len() as int;
    let w = apply_swaps(v, pairs, n);
    lemma_apply_swaps_source(v, pairs, n);
    lemma_apply_swaps_source(w, pairs, n);
    assert forall|x: int| 0 <= x < v.len() implies #[trigger] apply_swaps(w, pairs, n)[x] == v[x] by {
        lemma_swap_source_involution(pairs, n, x);
    }
    assert(apply_swaps(w, pairs, n) =~= v);
}

/// Whether no two hands are the same pair of cards.
pub open spec fn hands_unique(hands: Seq<(Card, Card)>) -> bool {
    forall|i: int, j: int|
        0 <= i < j < hands.len() ==> hand_key(#[trigger] hands[i]) != hand_key(#[trigger] hands[j])
}

/// Whether every hand's swapped hand is among the hands, as when both ranges stay the same
/// under the swap.
pub open spec fn hands_closed(hands: Seq<(Card, Card)>, s1: int, s2: int) -> bool {
    forall|i: int|
        0 <= i < hands.len() ==> last_with_key(hands, swapped_key(#[trigger] hands[i], s1, s2), hands.len() as int)
            >= 0
}

/// The position of the hand that the hand at position `i` becomes when the suits trade places.
pub open spec fn partner(hands: Seq<(Card, Card)>, s1: int, s2: int, i: int) -> int {
    last_with_key(hands, swapped_key(hands[i], s1, s2), hands.len() as int)
}

/// Two pairs of distinct cards with the same index are the same pair, in some order.
proof fn lemma_pair_key_same(a: int, b: int, c: int, d: int)
    requires
        is_card(a),
        is_card(b),
        is_card(c),
        is_card(d),
        a != b,
        c != d,
        pair_index_unordered(a, b) == pair_index_unordered(c, d),
    ensures
        (a == c && b == d) || (a == d && b == c),
{
    let (a1, a2) = if a < b { (a, b) } else { (b, a) };
    let (c1, c2) = if c < d { (c, d) } else { (d, c) };
    crate::card::lemma_pair_index_injective(a1, a2, c1, c2);
}

/// A hand that is the swap of another swaps back to it.
proof fn lemma_swapped_key_involution(h: (Card, Card), g: (Card, Card), s1: int, s2: int)
    requires
        is_card(h.0 as int) && is_card(h.1 as int) && h.0 != h.1,
        is_card(g.0 as int) && is_card(g.1 as int) && g.0 != g.1,
        0 <= s1 < 4,
        0 <= s2 < 4,
        hand_key(g) == swapped_key(h, s1, s2),
    ensures
        swapped_key(g, s1, s2) == hand_key(h),
{
    lemma_swap_suit(h.0 as int, h.1 as int, s1, s2);
    let h0 = swap_suit(h.0 as int, s1, s2);
    let h1 = swap_suit(h.1 as int, s1, s2);
    lemma_pair_key_same(g.0 as int, g.1 as int, h0, h1);
    lemma_swap_suit(h1, h0, s1, s2);
}

/// Two hands that swap to the same hand are the same hand.
proof fn lemma_swapped_key_injective(h: (Card, Card), g: (Card, Card), s1: int, s2: int)
    requires
        is_card(h.0 as int) && is_card(h.1 as int) && h.0 != h.1,
        is_card(g.0 as int) && is_card(g.1 as int) && g.0 != g.1,
        0 <= s1 < 4,
        0 <= s2 < 4,
        swapped_key(g, s1, s2) == swapped_key(h, s1, s2),
    ensures
        hand_key(g) == hand_key(h),
{
    lemma_swap_suit(h.0 as int, h.1 as int, s1, s2);
    lemma_swap_suit(h.1 as int, h.0 as int, s1, s2);
    lemma_swap_suit(g.0 as int, g.1 as int, s1, s2);
    lemma_swap_suit(g.1 as int, g.0 as int, s1, s2);
    let h0 = swap_suit(h.0 as int, s1, s2);
    let h1 = swap_suit(h.1 as int, s1, s2);
    let g0 = swap_suit(g.0 as int, s1, s2);
    let g1 = swap_suit(g.1 as int, s1, s2);
    lemma_pair_key_same(g0, g1, h0, h1);
    if g0 == h0 && g1 == h1 {
        assert(g.0 == h.0 && g.1 == h.1);
    } else {
        assert(g.0 == h.1 && g.1 == h.0);
    }
}

/// Among unique hands, the last position with a hand's key is that hand's own position.
proof fn lemma_last_with_key_unique(hands: Seq<(Card, Card)>, p: int, n: int)
    requires
        hands_unique(hands),
        0 <= p < n <= hands.len(),
    ensures
        last_with_key(hands, hand_key(hands[p]), n) == p,
    decreases n,
{
    if n - 1 > p {
        assert(hand_key(hands[p]) != hand_key(hands[n - 1]));
        lemma_last_with_key_unique(hands, p, n - 1);
    }
}

/// The entries of a swap list of closed hands, over the first `n` hands: pairs `(i, partner(i))`
/// with `i < partner(i)`, in increasing order of `i`.
proof fn lemma_swap_pairs_shape(hands: Seq<(Card, Card)>, s1: int, s2: int, n: int)
    requires
        hands.len() <= u16::MAX,
        hands_closed(hands, s1, s2),
        0 <= n <= hands.len(),
    ensures
        forall|k: int|
            0 <= k < swap_pairs(hands, s1, s2, n).len() ==> {
                let e = #[trigger] swap_pairs(hands, s1, s2, n)[k];
                &&& e.0 < n
                &&& e.0 < partner(hands, s1, s2, e.0 as int)
                &&& e.1 as int == partner(hands, s1, s2, e.0 as int)
            },
        forall|k: int, m: int|
            0 <= k < m < swap_pairs(hands, s1, s2, n).len() ==> (#[trigger] swap_pairs(hands, s1, s2, n)[k]).0
                < (#[trigger] swap_pairs(hands, s1, s2, n)[m]).0,
    decreases n,
{
    if n > 0 {
        lemma_swap_pairs_shape(hands, s1, s2, n - 1);
        let prev = swap_pairs(hands, s1, s2, n - 1);
        let key = swapped_key(hands[n - 1], s1, s2);
        lemma_last_with_key_bounds(hands, key, hands.len() as int);
        let j = partner(hands, s1, s2, n - 1);
        assert(j >= 0);
        let cur = swap_pairs(hands, s1, s2, n);
        if n - 1 < j {
            assert(cur == prev.push(((n - 1) as u16, j as u16)));
        } else {
            assert(cur == prev);
        }
        assert forall|k: int| 0 <= k < cur.len() implies {
            let e = #[trigger] cur[k];
            &&& e.0 < n
            &&& e.0 < partner(hands, s1, s2, e.0 as int)
            &&& e.1 as int == partner(hands, s1, s2, e.0 as int)
        } by {
            if k < prev.len() {
                assert(cur[k] == prev[k]);
            }
        }
        assert forall|k: int, m: int| 0 <= k < m < cur.len() implies (#[trigger] cur[k]).0 < (#[trigger] cur[m]).0 by {
            assert(cur[k] == prev[k]);
            if m < prev.len() {
                assert(cur[m] == prev[m]);
            }
        }
    }
}

/// The swap list of unique hands that are closed under the swap names positions of the hands,
/// and no position twice, so that applying it twice gives a vector back unchanged.
pub proof fn lemma_swap_list_disjoint(hands: Seq<(Card, Card)>, s1: int, s2: int)
    requires
        hands_wf(hands),
        hands_unique(hands),
        hands_closed(hands, s1, s2),
        hands.len() <= u16::MAX,
        0 <= s1 < 4,
        0 <= s2 < 4,
    ensures
        pairs_in_bounds(swap_list_of(hands, s1, s2), hands.len() as int),
        pairs_disjoint(swap_list_of(hands, s1, s2)),
{
    let n = hands.len() as int;
    let l = swap_list_of(hands, s1, s2);
    lemma_swap_pairs_shape(hands, s1, s2, n);
    assert forall|k: int| 0 <= k < l.len() implies (#[trigger] l[k]).0 < n && l[k].1 < n by {
        let i = l[k].0 as int;
        lemma_last_with_key_bounds(hands, swapped_key(hands[i], s1, s2), n);
    }
    assert forall|k: int, m: int| 0 <= k < m < l.len() implies (#[trigger] l[k]).0 != (#[trigger] l[m]).0 && l[k].0
        != l[m].1 && l[k].1 != l[m].0 && l[k].1 != l[m].1 by {
        let a = l[k].0 as int;
        let b = l[m].0 as int;
        let pa = partner(hands, s1, s2, a);
        let pb = partner(hands, s1, s2, b);
        lemma_last_with_key_bounds(hands, swapped_key(hands[a], s1, s2), n);
        lemma_last_with_key_bounds(hands, swapped_key(hands[b], s1, s2), n);
        if pa == pb {
            lemma_swapped_key_injective(hands[a], hands[b], s1, s2);
            assert(hand_key(hands[a]) == hand_key(hands[b]));
            assert(false);
        }
        if a == pb {
            lemma_swapped_key_involution(hands[b], hands[a], s1, s2);
            lemma_last_with_key_unique(hands, b, n);
            assert(pa == b);
            assert(false);
        }
        if pa == b {
            lemma_swapped_key_involution(hands[a], hands[b], s1, s2);
            lemma_last_with_key_unique(hands, a, n);
            assert(pb == a);
            assert(false);
        }
    }
}

/// Re-indexing a vector of per-hand values from a representative outcome to an isomorphic one
/// and back, through the same swap list, restores it bit for bit, when the hands are distinct
/// and closed under the swap of suits.
pub proof fn lemma_swap_round_trip<T>(v: Seq<T>, hands: Seq<(Card, Card)>, s1: int, s2: int)
    requires
        hands_wf(hands),
        hands_unique(hands),
        hands_closed(hands, s1, s2),
        hands.len() <= u16::MAX,
        v.len() == hands.len(),
        0 <= s1 < 4,
        0 <= s2 < 4,
    ensures
        ({
            let l = swap_list_of(hands, s1, s2);
            apply_swaps(apply_swaps(v, l, l.len() as int), l, l.len() as int) == v
        }),
{
    lemma_swap_list_disjoint(hands, s1, s2);
    lemma_apply_swaps_twice(v, swap_list_of(hands, s1, s2));
}

/// Whether `hands` lists, each once, exactly the pairs of cards to which `w` gives a weight other
/// than zero: the hole cards a player can hold with that range.
pub open spec fn hands_of_weights(hands: Seq<(Card, Card)>, w: Seq<u32>) -> bool {
    &&& hands_wf(hands)
    &&& hands_unique(hands)
    &&& forall|i: int| 0 <= i < hands.len() ==> w[hand_key(#[trigger] hands[i])] != 0
    &&& forall|c1: int, c2: int|
        0 <= c1 < c2 < 52 && #[trigger] w[pair_index(c1, c2)] != 0 ==> exists|i: int|
            0 <= i < hands.len() && hand_key(#[trigger] hands[i]) == pair_index(c1, c2)
}

/// Trading suits `s1` and `s2` is trading `s2` and `s1`.
proof fn lemma_swap_suit_symmetric(x: int, s1: int, s2: int)
    ensures
        swap_suit(x, s1, s2) == swap_suit(x, s2, s1),
{
}

/// Weights that stay the same under a suit swap do so for pairs given in either order.
proof fn lemma_weights_swap_unordered(w: Seq<u32>, s1: int, s2: int, x: int, y: int)
    requires
        weights_suit_isomorphic(w, s1, s2),
        is_card(x),
        is_card(y),
        x != y,
    ensures
        w[pair_index_unordered(x, y)] == w[pair_index_unordered(swap_suit(x, s1, s2), swap_suit(y, s1, s2))],
{
    if x < y {
        assert(w[pair_index(x, y)] == w[pair_index_unordered(swap_suit(x, s1, s2), swap_suit(y, s1, s2))]);
    } else {
        assert(w[pair_index(y, x)] == w[pair_index_unordered(swap_suit(y, s1, s2), swap_suit(x, s1, s2))]);
    }
}

/// Being unchanged by a suit swap does not depend on the order of the two suits.
proof fn lemma_weights_isomorphic_symmetric(w: Seq<u32>, s1: int, s2: int)
    requires
        weights_suit_isomorphic(w, s1, s2),
    ensures
        weights_suit_isomorphic(w, s2, s1),
{
    assert forall|c1: int, c2: int| 0 <= c1 < c2 < 52 implies #[trigger] w[pair_index(c1, c2)] == w[pair_index_unordered(
        swap_suit(c1, s2, s1),
        swap_suit(c2, s2, s1),
    )] by {
        lemma_swap_suit_symmetric(c1, s1, s2);
        lemma_swap_suit_symmetric(c2, s1, s2);
        assert(w[pair_index(c1, c2)] == w[pair_index_unordered(swap_suit(c1, s1, s2), swap_suit(c2, s1, s2))]);
    }
}

/// Weights unchanged by trading `s` with `t` and `t` with `u` are unchanged by trading `s` with `u`.
proof fn lemma_weights_isomorphic_transitive(w: Seq<u32>, s: int, t: int, u: int)
    requires
        weights_suit_isomorphic(w, s, t),
        weights_suit_isomorphic(w, t, u),
        0 <= s < 4,
        0 <= t < 4,
        0 <= u < 4,
        s != t,
        t != u,
        s != u,
    ensures
        weights_suit_isomorphic(w, s, u),
{
    assert forall|c1: int, c2: int| 0 <= c1 < c2 < 52 implies #[trigger] w[pair_index(c1, c2)] == w[pair_index_unordered(
        swap_suit(c1, s, u),
        swap_suit(c2, s, u),
    )] by {
        lemma_swap_suit(c1, c2, s, t);
        let x1 = swap_suit(c1, s, t);
        let y1 = swap_suit(c2, s, t);
        lemma_swap_suit(x1, y1, t, u);
        let x2 = swap_suit(x1, t, u);
        let y2 = swap_suit(y1, t, u);
        lemma_swap_suit(x2, y2, s, t);
        lemma_weights_swap_unordered(w, s, t, c1, c2);
        lemma_weights_swap_unordered(w, t, u, x1, y1);
        lemma_weights_swap_unordered(w, s, t, x2, y2);
        lemma_swap_suit_compose(c1, s, t, u);
        lemma_swap_suit_compose(c2, s, t, u);
    }
}

/// The lowest isomorphic suit that `first_isomorphic_suit` finds is one.
proof fn lemma_first_isomorphic_suit_is(c: &CardConfig, s2: int, k: int)
    ensures
        c.first_isomorphic_suit(s2, k) matches Some(f) ==> 0 <= f < k && c.ranges_isomorphic(f, s2),
    decreases k,
{
    if k > 0 {
        lemma_first_isomorphic_suit_is(c, s2, k - 1);
    }
}

/// Suits with the same label can trade places in both ranges, and every label is below the next
/// unused one.
proof fn lemma_suit_labels_isomorphic(c: &CardConfig, n: int)
    requires
        1 <= n <= 4,
    ensures
        forall|a: int| 0 <= a < n ==> #[trigger] c.suit_labels(n).0[a] < c.suit_labels(n).1,
        forall|a: int, b: int|
            0 <= a < b < n && #[trigger] c.suit_labels(n).0[a] == #[trigger] c.suit_labels(n).0[b]
                ==> c.ranges_isomorphic(a, b),
    decreases n,
{
    lemma_suit_labels_len(c, n);
    if n > 1 {
        lemma_suit_labels_isomorphic(c, n - 1);
        lemma_suit_labels_len(c, n - 1);
        let prev = c.suit_labels(n - 1);
        let cur = c.suit_labels(n);
        let b = n - 1;
        lemma_first_isomorphic_suit_is(c, b, b);
        assert forall|a: int| 0 <= a < n implies #[trigger] cur.0[a] < cur.1 by {
            if a < b {
                assert(cur.0[a] == prev.0[a]);
            }
        }
        assert forall|a: int, d: int| 0 <= a < d < n && #[trigger] cur.0[a] == #[trigger] cur.0[d] implies c.ranges_isomorphic(a, d) by {
            assert(cur.0[a] == prev.0[a]);
            if d < b {
                assert(cur.0[d] == prev.0[d]);
            } else {
                let f = c.first_isomorphic_suit(b, b)->0;
                assert(cur.0[d] == prev.0[f]);
                if a != f {
                    let (lo, hi) = if a < f { (a, f) } else { (f, a) };
                    assert(prev.0[lo] == prev.0[hi]);
                    assert(c.ranges_isomorphic(lo, hi));
                    if a > f {
                        lemma_weights_isomorphic_symmetric(c.range[0]@, f, a);
                        lemma_weights_isomorphic_symmetric(c.range[1]@, f, a);
                    }
                    lemma_weights_isomorphic_transitive(c.range[0]@, a, f, b);
                    lemma_weights_isomorphic_transitive(c.range[1]@, a, f, b);
                }
            }
        }
    }
}

/// A range that stays the same under a suit swap gives a hand list closed under that swap.
proof fn lemma_hands_closed(hands: Seq<(Card, Card)>, w: Seq<u32>, s1: int, s2: int)
    requires
        hands_of_weights(hands, w),
        weights_suit_isomorphic(w, s1, s2),
        0 <= s1 < 4,
        0 <= s2 < 4,
    ensures
        hands_closed(hands, s1, s2),
{
    assert forall|i: int| 0 <= i < hands.len() implies last_with_key(hands, swapped_key(#[trigger] hands[i], s1, s2), hands.len() as int)
        >= 0 by {
        let h = hands[i];
        lemma_weights_swap_unordered(w, s1, s2, h.0 as int, h.1 as int);
        lemma_swap_suit(h.0 as int, h.1 as int, s1, s2);
        let x = swap_suit(h.0 as int, s1, s2);
        let y = swap_suit(h.1 as int, s1, s2);
        let (lo, hi) = if x < y { (x, y) } else { (y, x) };
        assert(w[pair_index(lo, hi)] != 0);
        let j = choose|j: int| 0 <= j < hands.len() && hand_key(hands[j]) == pair_index(lo, hi);
        lemma_last_with_key_unique(hands, j, hands.len() as int);
    }
}

/// The suit swaps that `isomorphism` folds on any board keep each player's hands closed, when
/// those hands are exactly the combos that the player's range weights. So its swap lists carry a
/// representative outcome's per-hand values to the folded outcome and back bit for bit.
pub proof fn lemma_isomorphism_swap_round_trip<T>(
    c: &CardConfig,
    private_cards: &PrivateCards,
    board: Seq<Card>,
    flop_waived: bool,
    s: int,
    p: int,
    v: Seq<T>,
)
    requires
        0 <= p < 2,
        0 <= s < 4,
        hands_of_weights(private_cards[p]@, c.range[p]@),
        private_cards[p]@.len() <= u16::MAX,
        c.folds(board, flop_waived)[s] is Some,
        v.len() == private_cards[p]@.len(),
    ensures
        ({
            let t = c.folds(board, flop_waived)[s]->0 as int;
            let l = swap_list_of(private_cards[p]@, s, t);
            &&& hands_closed(private_cards[p]@, s, t)
            &&& apply_swaps(apply_swaps(v, l, l.len() as int), l, l.len() as int) == v
        }),
{
    let t = c.folds(board, flop_waived)[s]->0 as int;
    lemma_fold_target_below(c, board, flop_waived, s, s);
    lemma_fold_target_is_lowest(c, board, flop_waived, s, s);
    reveal(CardConfig::interchangeable);
    let labels = c.suit_labels(4).0;
    assert(labels[s] == labels[t]);
    lemma_suit_labels_isomorphic(c, 4);
    assert(c.ranges_isomorphic(t, s));
    lemma_weights_isomorphic_symmetric(c.range[0]@, t, s);
    lemma_weights_isomorphic_symmetric(c.range[1]@, t, s);
    if p == 0 {
        lemma_hands_closed(private_cards[0]@, c.range[0]@, s, t);
    } else {
        lemma_hands_closed(private_cards[1]@, c.range[1]@, s, t);
    }
    lemma_swap_round_trip(v, private_cards[p]@, s, t);
}

} // verus!
