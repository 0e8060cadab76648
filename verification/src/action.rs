use vstd::prelude::*;

use crate::bits::{has_bit, lemma_popcount_set_bit, popcount};
use crate::card::{card_of_index, display_of_card, Card};
use crate::common::{ACTION_SIZE, JOKER_PAIR_ACTION_ID, JOKER_SINGLE_ACTION_ID, PASS_ACTION_ID};

verus! {

/// Filler for the unused slots of an action's card list.
pub const INVALID_CARD: u8 = 255;

/// The shape of a move.
#[derive(Debug, Clone, Copy, PartialEq, Eq, Structural)]
pub enum ActionType {
    Pass,
    /// Cards of one rank (one to four of them), or jokers.
    Group,
    /// Three or more consecutive ranks of one suit.
    Stair,
}

/// One entry of the action table.
#[derive(Debug, Clone)]
pub struct ActionInfo {
    pub id: usize,
    pub action_type: ActionType,
    /// The cards the move consists of, padded with `INVALID_CARD`.
    pub required_cards: [u8; 13],
    /// The same cards as a bit set over deck indices.
    pub required_mask: u64,
    /// Number of cards in the move.
    pub size: u8,
    /// Base strength; higher beats lower outside a revolution.
    pub strength: i8,
    pub is_revolution_trigger: bool,
}

/// The table of every move a player can make, indexed by action id.
pub struct ActionManager {
    pub infos: Vec<ActionInfo>,
}

// ---------------------------------------------------------------------------
// The action table, stated directly.
// ---------------------------------------------------------------------------
/// Number of stair patterns shorter than `len` (lengths start at three).
pub open spec fn stair_offset(len: nat) -> nat
    decreases len,
{
    if len <= 3 {
        0
    } else {
        stair_offset((len - 1) as nat) + (14 - (len - 1)) as nat
    }
}

/// Pattern number `p`, counted among patterns of length at least `len`:
/// patterns are ordered by length, then by starting rank.
pub open spec fn stair_pattern_from(p: int, len: nat) -> (int, int)
    decreases 13 - len,
{
    if len >= 13 || p < 14 - len {
        (p, len as int)
    } else {
        stair_pattern_from(p - (14 - len), len + 1)
    }
}

/// The `(start rank, length)` of stair pattern `p` (0 <= p < 66).
pub open spec fn stair_pattern(p: int) -> (int, int) {
    stair_pattern_from(p, 3)
}

/// The cards of a group of rank `rank`, one per suit bit set in `combo`,
/// in suit order.
pub open spec fn group_cards(rank: int, combo: int) -> Seq<u8> {
    (if combo % 2 == 1 {
        seq![rank as u8]
    } else {
        Seq::<u8>::empty()
    }) + (if (combo / 2) % 2 == 1 {
        seq![(13 + rank) as u8]
    } else {
        Seq::<u8>::empty()
    }) + (if (combo / 4) % 2 == 1 {
        seq![(26 + rank) as u8]
    } else {
        Seq::<u8>::empty()
    }) + (if (combo / 8) % 2 == 1 {
        seq![(39 + rank) as u8]
    } else {
        Seq::<u8>::empty()
    })
}

/// The cards of a stair of suit `suit` from rank `start`, `len` cards long.
pub open spec fn stair_cards(suit: int, start: int, len: int) -> Seq<u8> {
    Seq::new(len as nat, |i: int| (suit * 13 + start + i) as u8)
}

/// Id 0 passes; ids 1..=195 are groups (15 suit combinations for each of
/// the 13 ranks); 196..=459 are stairs (66 patterns for each of the 4 suits);
/// 460 plays one joker and 461 both jokers.
pub open spec fn action_type_of(id: int) -> ActionType {
    if id == 0 {
        ActionType::Pass
    } else if 1 <= id <= 195 {
        ActionType::Group
    } else if 196 <= id <= 459 {
        ActionType::Stair
    } else {
        ActionType::Group
    }
}

pub open spec fn action_cards(id: int) -> Seq<u8> {
    if id == 0 {
        Seq::<u8>::empty()
    } else if 1 <= id <= 195 {
        group_cards((id - 1) / 15, (id - 1) % 15 + 1)
    } else if 196 <= id <= 459 {
        let p = stair_pattern((id - 196) % 66);
        stair_cards((id - 196) / 66, p.0, p.1)
    } else if id == 460 {
        seq![52u8]
    } else {
        seq![52u8, 53u8]
    }
}

/// Groups are as strong as their rank, stairs as their top rank, jokers 13,
/// and passing -1.
pub open spec fn action_strength(id: int) -> int {
    if id == 0 {
        -1
    } else if 1 <= id <= 195 {
        (id - 1) / 15
    } else if 196 <= id <= 459 {
        let p = stair_pattern((id - 196) % 66);
        p.0 + p.1 - 1
    } else {
        13
    }
}

/// Four of a kind, and stairs of four or more cards, start a revolution.
pub open spec fn action_is_revolution(id: int) -> bool {
    if 1 <= id <= 195 {
        action_cards(id).len() == 4
    } else if 196 <= id <= 459 {
        stair_pattern((id - 196) % 66).1 >= 4
    } else {
        false
    }
}

/// A card list padded to 13 slots with `INVALID_CARD`.
pub open spec fn padded_cards(s: Seq<u8>) -> Seq<u8> {
    s + Seq::new((13 - s.len()) as nat, |i: int| INVALID_CARD)
}

/// The bit set of a list of deck indices.
pub open spec fn card_mask(s: Seq<u8>) -> u64
    decreases s.len(),
{
    if s.len() == 0 {
        0
    } else {
        card_mask(s.drop_last()) | (1u64 << s.last())
    }
}

/// `info` is the table entry for action `id`.
pub open spec fn info_matches(info: ActionInfo, id: int) -> bool {
    &&& info.id == id
    &&& info.action_type == action_type_of(id)
    &&& info.required_cards@ == padded_cards(action_cards(id))
    &&& info.size == action_cards(id).len()
    &&& info.strength == action_strength(id)
    &&& info.is_revolution_trigger == action_is_revolution(id)
    &&& info.required_mask == card_mask(action_cards(id))
}

/// The stair patterns as `(start, length)` pairs, in pattern order.
pub open spec fn stair_pattern_table() -> Seq<(usize, usize)> {
    Seq::new(66, |p: int| (stair_pattern(p).0 as usize, stair_pattern(p).1 as usize))
}

// ---------------------------------------------------------------------------
// Facts about stair patterns.
// ---------------------------------------------------------------------------
proof fn lemma_stair_offset_total()
    ensures
        stair_offset(14) == 66,
{
    reveal_with_fuel(stair_offset, 12);
}

/// The pattern with number `stair_offset(len) - stair_offset(l) + start`,
/// counted from length `l`, is `(start, len)`.
proof fn lemma_stair_pattern_at(len: nat, start: int, l: nat)
    requires
        3 <= l <= len <= 13,
        0 <= start < 14 - len,
    ensures
        stair_pattern_from(stair_offset(len) - stair_offset(l) + start, l) == (start, len as int),
    decreases len - l,
{
    if l < len {
        assert(stair_offset(l + 1) == stair_offset(l) + 14 - l);
        lemma_stair_offset_monotone(l + 1, len);
        lemma_stair_pattern_at(len, start, l + 1);
    }
}

proof fn lemma_stair_offset_monotone(a: nat, b: nat)
    requires
        3 <= a <= b <= 14,
    ensures
        stair_offset(a) <= stair_offset(b),
    decreases b - a,
{
    if a < b {
        lemma_stair_offset_monotone(a, (b - 1) as nat);
    }
}

/// Every pattern number below the number of remaining patterns names a stair
/// that fits in the 13 ranks and is at least `l` long.
proof fn lemma_stair_pattern_bounds(p: int, l: nat)
    requires
        3 <= l <= 13,
        0 <= p < stair_offset(14) - stair_offset(l),
    ensures
        l <= stair_pattern_from(p, l).1 <= 13,
        0 <= stair_pattern_from(p, l).0,
        stair_pattern_from(p, l).0 + stair_pattern_from(p, l).1 <= 13,
    decreases 13 - l,
{
    if l < 13 {
        assert(stair_offset(l + 1) == stair_offset(l) + 14 - l);
        if p >= 14 - l {
            lemma_stair_pattern_bounds(p - (14 - l), l + 1);
        }
    } else {
        assert(stair_offset(14) == stair_offset(13) + 1);
    }
}

/// Stair pattern `p` (0 <= p < 66) is a run of 3 to 13 ranks inside the 13 ranks.
pub proof fn lemma_stair_pattern_valid(p: int)
    requires
        0 <= p < 66,
    ensures
        3 <= stair_pattern(p).1 <= 13,
        0 <= stair_pattern(p).0,
        stair_pattern(p).0 + stair_pattern(p).1 <= 13,
{
    lemma_stair_offset_total();
    lemma_stair_pattern_bounds(p, 3);
}

/// Every action but the pass has between one and thirteen cards, all of them
/// deck indices, and only the joker actions use the jokers.
pub proof fn lemma_action_cards_valid(id: int)
    requires
        0 <= id < ACTION_SIZE,
    ensures
        action_cards(id).len() <= 13,
        id != PASS_ACTION_ID ==> action_cards(id).len() >= 1,
        forall|k: int| 0 <= k < action_cards(id).len() ==> #[trigger] action_cards(id)[k] < 54,
        id < JOKER_SINGLE_ACTION_ID ==> forall|k: int|
            0 <= k < action_cards(id).len() ==> #[trigger] action_cards(id)[k] < 52,
        action_type_of(id) == ActionType::Stair ==> action_cards(id).len() >= 3,
{
    if 196 <= id <= 459 {
        lemma_stair_pattern_valid((id - 196) % 66);
    }
}

// ---------------------------------------------------------------------------
// The cards and masks of the actions.
// ---------------------------------------------------------------------------
proof fn lemma_or_bit(m: u64, d: u8, c: u64)
    by (bit_vector)
    requires
        d < 64,
        c < 64,
    ensures
        (((m | (1u64 << d)) >> c) & 1 == 1) == (((m >> c) & 1 == 1) || c == d as u64),
        1u64 << d == 1u64 << (d as u64),
{
}

/// A mask has exactly the bits of its cards.
pub proof fn lemma_card_mask_bits(cards: Seq<u8>)
    requires
        forall|k: int| 0 <= k < cards.len() ==> #[trigger] cards[k] < 64,
    ensures
        forall|c: int| 0 <= c < 64 ==> (#[trigger] has_bit(card_mask(cards), c) <==> cards.contains(c as u8)),
    decreases cards.len(),
{
    if cards.len() == 0 {
        assert forall|c: int| 0 <= c < 64 implies !#[trigger] has_bit(card_mask(cards), c) by {
            let cu = c as u64;
            assert((0u64 >> cu) & 1 != 1) by (bit_vector);
        }
    } else {
        let prev = cards.drop_last();
        let last = cards.last();
        lemma_card_mask_bits(prev);
        assert forall|c: int| 0 <= c < 64 implies (#[trigger] has_bit(card_mask(cards), c)
            <==> cards.contains(c as u8)) by {
            lemma_or_bit(card_mask(prev), last, c as u64);
            assert(card_mask(cards) == card_mask(prev) | (1u64 << last));
            assert(((c as u64) == (last as u64)) == (c as u8 == last));
            assert(has_bit(card_mask(prev), c) == prev.contains(c as u8));
            if prev.contains(c as u8) {
                let k = choose|k: int| 0 <= k < prev.len() && prev[k] == c as u8;
                assert(cards[k] == prev[k]);
            }
            if cards.contains(c as u8) {
                let k = choose|k: int| 0 <= k < cards.len() && cards[k] == c as u8;
                if k < prev.len() {
                    assert(prev[k] == cards[k]);
                }
            }
            if c as u8 == last {
                assert(cards[cards.len() - 1] == last);
            }
        }
    }
}

/// A mask of distinct cards has one bit per card.
pub proof fn lemma_card_mask_count(cards: Seq<u8>)
    requires
        forall|k: int| 0 <= k < cards.len() ==> #[trigger] cards[k] < 64,
        cards.no_duplicates(),
    ensures
        popcount(card_mask(cards)) == cards.len(),
    decreases cards.len(),
{
    if cards.len() > 0 {
        let prev = cards.drop_last();
        let last = cards.last();
        assert forall|i: int, j: int| 0 <= i < prev.len() && 0 <= j < prev.len() && i != j implies prev[i] != prev[j] by {
            assert(prev[i] == cards[i] && prev[j] == cards[j]);
        }
        lemma_card_mask_count(prev);
        lemma_card_mask_bits(prev);
        if prev.contains(last) {
            let k = choose|k: int| 0 <= k < prev.len() && prev[k] == last;
            assert(cards[k] == cards[cards.len() - 1]);
        }
        assert(!has_bit(card_mask(prev), last as int));
        lemma_or_bit(card_mask(prev), last, 0);
        lemma_popcount_set_bit(card_mask(prev), last as u64);
    }
}

/// The cards of a group: all of its rank, and a suit's card is among them
/// exactly when the combination has that suit's bit.
pub proof fn lemma_group_cards(rank: int, combo: int)
    requires
        0 <= rank < 13,
        1 <= combo < 16,
    ensures
        group_cards(rank, combo).len() >= 1,
        group_cards(rank, combo).no_duplicates(),
        forall|k: int| 0 <= k < group_cards(rank, combo).len() ==> #[trigger] group_cards(rank, combo)[k] < 52
            && group_cards(rank, combo)[k] % 13 == rank,
        group_cards(rank, combo).contains(rank as u8) == (combo % 2 == 1),
        group_cards(rank, combo).contains((13 + rank) as u8) == ((combo / 2) % 2 == 1),
        group_cards(rank, combo).contains((26 + rank) as u8) == ((combo / 4) % 2 == 1),
        group_cards(rank, combo).contains((39 + rank) as u8) == ((combo / 8) % 2 == 1),
{
    let g = group_cards(rank, combo);
    let v = seq![rank as u8, (13 + rank) as u8, (26 + rank) as u8, (39 + rank) as u8];
    let bits = seq![combo % 2 == 1, (combo / 2) % 2 == 1, (combo / 4) % 2 == 1, (combo / 8) % 2 == 1];
    // g lists, in order, the entries of v whose bit is set
    let a = if bits[0] { seq![v[0]] } else { Seq::<u8>::empty() };
    let b = if bits[1] { seq![v[1]] } else { Seq::<u8>::empty() };
    let c = if bits[2] { seq![v[2]] } else { Seq::<u8>::empty() };
    let d = if bits[3] { seq![v[3]] } else { Seq::<u8>::empty() };
    assert(g == a + b + c + d);
    assert forall|k: int| 0 <= k < g.len() implies exists|t: int| 0 <= t < 4 && bits[t] && #[trigger] g[k] == v[t]
        && (t == 0 ==> k == 0) by {
        if k < a.len() {
            assert(g[k] == v[0]);
        } else if k < a.len() + b.len() {
            assert(g[k] == v[1]);
        } else if k < a.len() + b.len() + c.len() {
            assert(g[k] == v[2]);
        } else {
            assert(g[k] == v[3]);
        }
    }
    assert forall|t: int| 0 <= t < 4 && #[trigger] bits[t] implies g.contains(v[t]) by {
        if t == 0 {
            assert(g[0] == v[0]);
        } else if t == 1 {
            assert(g[a.len() as int] == v[1]);
        } else if t == 2 {
            assert(g[(a.len() + b.len()) as int] == v[2]);
        } else {
            assert(g[(a.len() + b.len() + c.len()) as int] == v[3]);
        }
    }
    assert(bits[0] || bits[1] || bits[2] || bits[3]);
    assert forall|k: int| 0 <= k < g.len() implies #[trigger] g[k] < 52 && g[k] % 13 == rank by {
        let t = choose|t: int| 0 <= t < 4 && bits[t] && #[trigger] g[k] == v[t] && (t == 0 ==> k == 0);
    }
    assert forall|t: int| 0 <= t < 4 implies g.contains(#[trigger] v[t]) == bits[t] by {
        if g.contains(v[t]) {
            let k = choose|k: int| 0 <= k < g.len() && g[k] == v[t];
            let t2 = choose|t2: int| 0 <= t2 < 4 && bits[t2] && #[trigger] g[k] == v[t2] && (t2 == 0 ==> k == 0);
        }
    }
    assert(v[0] == rank as u8 && v[1] == (13 + rank) as u8 && v[2] == (26 + rank) as u8 && v[3] == (39 + rank) as u8);
    assert forall|i: int, j: int| 0 <= i < g.len() && 0 <= j < g.len() && i != j implies g[i] != g[j] by {
        if i < a.len() {
            assert(g[i] == v[0]);
        } else if i < a.len() + b.len() {
            assert(g[i] == v[1]);
        } else if i < a.len() + b.len() + c.len() {
            assert(g[i] == v[2]);
        } else {
            assert(g[i] == v[3]);
        }
        if j < a.len() {
            assert(g[j] == v[0]);
        } else if j < a.len() + b.len() {
            assert(g[j] == v[1]);
        } else if j < a.len() + b.len() + c.len() {
            assert(g[j] == v[2]);
        } else {
            assert(g[j] == v[3]);
        }
    }
}

/// Pattern number `p`, counted among patterns of length at least `l`, sits
/// at its length's offset plus its start: patterns are numbered without gaps
/// or repeats.
proof fn lemma_stair_pattern_index(p: int, l: nat)
    requires
        3 <= l <= 13,
        0 <= p < stair_offset(14) - stair_offset(l),
    ensures
        p == stair_offset(stair_pattern_from(p, l).1 as nat) - stair_offset(l) + stair_pattern_from(p, l).0,
    decreases 13 - l,
{
    if l < 13 {
        assert(stair_offset(l + 1) == stair_offset(l) + 14 - l);
        if p >= 14 - l {
            lemma_stair_pattern_index(p - (14 - l), l + 1);
        }
    } else {
        assert(stair_offset(14) == stair_offset(13) + 1);
    }
}

/// Two actions with the same cards (`same_cards`) are the same action.
spec fn same_cards(i: int, j: int) -> bool {
    forall|c: u8| c < 64 ==> (action_cards(i).contains(c) <==> action_cards(j).contains(c))
}

proof fn lemma_determine_pass_and_jokers(i: int, j: int)
    requires
        0 <= i < ACTION_SIZE,
        0 <= j < ACTION_SIZE,
        same_cards(i, j),
        i == 0 || j == 0 || i >= 460 || j >= 460,
    ensures
        i == j,
{
    lemma_action_cards_valid(i);
    lemma_action_cards_valid(j);
    let ci = action_cards(i);
    let cj = action_cards(j);
    if i == 0 || j == 0 {
        if i != j {
            let other = if i == 0 { cj } else { ci };
            assert(other.contains(other[0]));
            assert(other[0] < 64);
        }
    } else {
        let other = if i >= 460 { ci } else { cj };
        assert(other[0] == 52u8);
        assert(other.contains(52u8));
        assert(ci.contains(52u8) && cj.contains(52u8));
        if i < 460 {
            let w = choose|w: int| 0 <= w < ci.len() && ci[w] == 52u8;
        }
        if j < 460 {
            let w = choose|w: int| 0 <= w < cj.len() && cj[w] == 52u8;
        }
        if i == 461 {
            assert(ci[1] == 53u8 && ci.contains(53u8));
        }
        if j == 461 {
            assert(cj[1] == 53u8 && cj.contains(53u8));
        }
        if ci.contains(53u8) && i == 460 {
            let w = choose|w: int| 0 <= w < ci.len() && ci[w] == 53u8;
        }
        if cj.contains(53u8) && j == 460 {
            let w = choose|w: int| 0 <= w < cj.len() && cj[w] == 53u8;
        }
    }
}

proof fn lemma_determine_groups(i: int, j: int)
    requires
        1 <= i <= 195,
        1 <= j <= 195,
        same_cards(i, j),
    ensures
        i == j,
{
    let ci = action_cards(i);
    let cj = action_cards(j);
    let (ri, ki) = ((i - 1) / 15, (i - 1) % 15 + 1);
    let (rj, kj) = ((j - 1) / 15, (j - 1) % 15 + 1);
    lemma_group_cards(ri, ki);
    lemma_group_cards(rj, kj);
    assert(ci.contains(ci[0]));
    assert(ci[0] < 64);
    assert(cj.contains(ci[0]));
    let w = choose|w: int| 0 <= w < cj.len() && cj[w] == ci[0];
    assert(ri == rj);
    assert(ci.contains(ri as u8) == cj.contains(ri as u8));
    assert(ci.contains((13 + ri) as u8) == cj.contains((13 + ri) as u8));
    assert(ci.contains((26 + ri) as u8) == cj.contains((26 + ri) as u8));
    assert(ci.contains((39 + ri) as u8) == cj.contains((39 + ri) as u8));
    assert(ki == kj);
}

proof fn lemma_determine_stairs(i: int, j: int)
    requires
        196 <= i <= 459,
        196 <= j <= 459,
        same_cards(i, j),
    ensures
        i == j,
{
    let ci = action_cards(i);
    let cj = action_cards(j);
    let (si, pi) = ((i - 196) / 66, (i - 196) % 66);
    let (sj, pj) = ((j - 196) / 66, (j - 196) % 66);
    let (sti, li) = stair_pattern(pi);
    let (stj, lj) = stair_pattern(pj);
    lemma_stair_pattern_valid(pi);
    lemma_stair_pattern_valid(pj);
    // the lowest and highest cards of each stair lie in the other
    assert(ci.contains(ci[0]) && ci.contains(ci[li - 1]));
    assert(cj.contains(cj[0]) && cj.contains(cj[lj - 1]));
    assert(ci[0] < 64 && ci[li - 1] < 64 && cj[0] < 64 && cj[lj - 1] < 64);
    let a = choose|w: int| 0 <= w < cj.len() && cj[w] == ci[0];
    let b = choose|w: int| 0 <= w < cj.len() && cj[w] == ci[li - 1];
    let c = choose|w: int| 0 <= w < ci.len() && ci[w] == cj[0];
    let d = choose|w: int| 0 <= w < ci.len() && ci[w] == cj[lj - 1];
    assert(si * 13 + sti == sj * 13 + stj + a);
    assert(sj * 13 + stj == si * 13 + sti + c);
    assert(si == sj);
    assert(sti == stj);
    assert(si * 13 + sti + li - 1 == sj * 13 + stj + b);
    assert(sj * 13 + stj + lj - 1 == si * 13 + sti + d);
    assert(li == lj);
    lemma_stair_offset_total();
    lemma_stair_pattern_index(pi, 3);
    lemma_stair_pattern_index(pj, 3);
    assert(pi == pj);
}

/// No group has the cards of a stair.
proof fn lemma_group_is_no_stair(g: int, t: int)
    requires
        1 <= g <= 195,
        196 <= t <= 459,
    ensures
        !same_cards(g, t),
{
    // a stair's two lowest cards differ in rank, a group's cards do not
    let gc = action_cards(g);
    let tc = action_cards(t);
    lemma_group_cards((g - 1) / 15, (g - 1) % 15 + 1);
    let (st, len) = stair_pattern((t - 196) % 66);
    lemma_stair_pattern_valid((t - 196) % 66);
    if same_cards(g, t) {
        assert(tc.contains(tc[0]) && tc.contains(tc[1]));
        assert(tc[0] < 64 && tc[1] < 64);
        let a = choose|w: int| 0 <= w < gc.len() && gc[w] == tc[0];
        let b = choose|w: int| 0 <= w < gc.len() && gc[w] == tc[1];
        assert(tc[1] == tc[0] + 1);
        assert(tc[0] % 13 == st);
    }
}

/// An action is determined by the set of its cards.
proof fn lemma_cards_determine_action(i: int, j: int)
    requires
        0 <= i < ACTION_SIZE,
        0 <= j < ACTION_SIZE,
        same_cards(i, j),
    ensures
        i == j,
{
    if i == 0 || j == 0 || i >= 460 || j >= 460 {
        lemma_determine_pass_and_jokers(i, j);
    } else if i <= 195 && j <= 195 {
        lemma_determine_groups(i, j);
    } else if i >= 196 && j >= 196 {
        lemma_determine_stairs(i, j);
    } else if i <= 195 {
        lemma_group_is_no_stair(i, j);
    } else {
        assert(same_cards(j, i));
        lemma_group_is_no_stair(j, i);
    }
}

/// Every entry of a complete table has a mask with exactly `size` bits, one
/// per card, and no two entries share a mask.
pub proof fn lemma_table_masks(manager: &ActionManager, i: int, j: int)
    requires
        manager.wf(),
        0 <= i < ACTION_SIZE,
        0 <= j < ACTION_SIZE,
    ensures
        popcount(manager.infos@[i].required_mask) == manager.infos@[i].size,
        i != j ==> manager.infos@[i].required_mask != manager.infos@[j].required_mask,
{
    assert(info_matches(manager.infos@[i], i));
    assert(info_matches(manager.infos@[j], j));
    lemma_action_cards_valid(i);
    lemma_action_cards_valid(j);
    let ci = action_cards(i);
    let cj = action_cards(j);
    lemma_action_cards_distinct(i);
    lemma_card_mask_count(ci);
    if manager.infos@[i].required_mask == manager.infos@[j].required_mask {
        lemma_card_mask_bits(ci);
        lemma_card_mask_bits(cj);
        assert forall|c: u8| c < 64 implies (ci.contains(c) <==> cj.contains(c)) by {
            assert(has_bit(card_mask(ci), c as int) == has_bit(card_mask(cj), c as int));
        }
        assert(same_cards(i, j));
        lemma_cards_determine_action(i, j);
    }
}

/// No action lists a card twice.
proof fn lemma_action_cards_distinct(id: int)
    requires
        0 <= id < ACTION_SIZE,
    ensures
        action_cards(id).no_duplicates(),
{
    if 1 <= id <= 195 {
        lemma_group_cards((id - 1) / 15, (id - 1) % 15 + 1);
    } else if 196 <= id <= 459 {
        lemma_stair_pattern_valid((id - 196) % 66);
    }
}

// ---------------------------------------------------------------------------
// Building the table.
// ---------------------------------------------------------------------------
/// All stair patterns: every length from 3 to 13, and for each length every
/// starting rank, in that order.
pub fn stair_patterns() -> (res: Vec<(usize, usize)>)
    ensures
        res@ == stair_pattern_table(),
{
    let mut res: Vec<(usize, usize)> = Vec::new();
    let mut length: usize = 3;
    while length <= 13
        invariant
            3 <= length <= 14,
            res@.len() == stair_offset(length as nat),
            forall|k: int| 0 <= k < res@.len() ==> #[trigger] res@[k] == stair_pattern_table()[k],
        decreases 14 - length,
    {
        proof {
            lemma_stair_offset_monotone((length + 1) as nat, 14);
            lemma_stair_offset_total();
            assert(stair_offset((length + 1) as nat) == stair_offset(length as nat) + 14 - length);
        }
        let mut start: usize = 0;
        while start <= 13 - length
            invariant
                3 <= length <= 13,
                0 <= start <= 14 - length,
                res@.len() == stair_offset(length as nat) + start,
                stair_offset(length as nat) + 14 - length <= 66,
                forall|k: int| 0 <= k < res@.len() ==> #[trigger] res@[k] == stair_pattern_table()[k],
            decreases 14 - length - start,
        {
            proof {
                lemma_stair_pattern_at(length as nat, start as int, 3);
                assert(stair_offset(3) == 0);
            }
            res.push((start, length));
            start += 1;
        }
        assert(stair_offset((length + 1) as nat) == stair_offset(length as nat) + 14 - length);
        length += 1;
    }
    proof {
        lemma_stair_offset_total();
    }
    assert(res@ =~= stair_pattern_table());
    res
}

proof fn lemma_combo_bits(combo: usize)
    requires
        1 <= combo < 16,
    ensures
        (combo & 1 != 0) == (combo % 2 == 1),
        (combo & 2 != 0) == ((combo / 2) % 2 == 1),
        (combo & 4 != 0) == ((combo / 4) % 2 == 1),
        (combo & 8 != 0) == ((combo / 8) % 2 == 1),
{
    assert((combo & 1 != 0) == (combo % 2 == 1) && (combo & 2 != 0) == ((combo / 2) % 2 == 1) && (
    combo & 4 != 0) == ((combo / 4) % 2 == 1) && (combo & 8 != 0) == ((combo / 8) % 2 == 1))
        by (bit_vector)
        requires
            combo < 16,
    ;
}

impl ActionManager {
    /// Builds the table of all 462 actions.
    pub fn new() -> (res: ActionManager)
        ensures
            res.wf(),
    {
        let stair_patterns = stair_patterns();
        let mut infos: Vec<ActionInfo> = Vec::with_capacity(ACTION_SIZE);
        let mut action_id: usize = 0;
        while action_id < ACTION_SIZE
            invariant
                action_id <= ACTION_SIZE,
                stair_patterns@ == stair_pattern_table(),
                infos@.len() == action_id,
                forall|k: int| 0 <= k < action_id ==> info_matches(#[trigger] infos@[k], k),
            decreases ACTION_SIZE - action_id,
        {
            let (action_type, required_cards, size, strength, is_revolution_trigger) =
                Self::decode_action(action_id, &stair_patterns);
            let ghost cards = action_cards(action_id as int);
            let mut required_mask: u64 = 0;
            let mut i: usize = 0;
            while i < size
                invariant
                    i <= size,
                    size == cards.len(),
                    size <= 13,
                    required_cards@ == padded_cards(cards),
                    forall|k: int| 0 <= k < cards.len() ==> #[trigger] cards[k] < 54,
                    required_mask == card_mask(cards.take(i as int)),
                decreases size - i,
            {
                assert(cards.take(i + 1).drop_last() =~= cards.take(i as int));
                assert(required_cards@[i as int] == cards[i as int]);
                required_mask = required_mask | (1u64 << required_cards[i]);
                i += 1;
            }
            assert(cards.take(size as int) =~= cards);
            infos.push(
                ActionInfo {
                    id: action_id,
                    action_type,
                    required_cards,
                    required_mask,
                    size: size as u8,
                    strength: strength as i8,
                    is_revolution_trigger,
                },
            );
            action_id += 1;
        }
        ActionManager { infos }
    }

    /// The table holds the entry for every action id, in id order.
    pub open spec fn wf(&self) -> bool {
        &&& self.infos@.len() == ACTION_SIZE
        &&& forall|i: int| 0 <= i < ACTION_SIZE ==> info_matches(#[trigger] self.infos@[i], i)
    }

    /// Decodes an action id into its type, cards, size, strength and whether it
    /// starts a revolution.
    #[verifier::spinoff_prover]
    fn decode_action(action_id: usize, stair_patterns: &Vec<(usize, usize)>) -> (res: (
        ActionType,
        [u8; 13],
        usize,
        i32,
        bool,
    ))
        requires
            action_id < ACTION_SIZE,
            stair_patterns@ == stair_pattern_table(),
        ensures
            res.0 == action_type_of(action_id as int),
            res.1@ == padded_cards(action_cards(action_id as int)),
            res.2 == action_cards(action_id as int).len(),
            res.2 <= 13,
            res.3 == action_strength(action_id as int),
            -1 <= res.3 <= 13,
            res.4 == action_is_revolution(action_id as int),
            forall|k: int|
                0 <= k < action_cards(action_id as int).len() ==> #[trigger] action_cards(
                    action_id as int,
                )[k] < 54,
    {
        let mut cards: [u8; 13] = [INVALID_CARD; 13];
        let mut size: usize = 0;
        assert(cards@ =~= padded_cards(Seq::<u8>::empty()));
        if action_id == PASS_ACTION_ID {
            return (ActionType::Pass, cards, 0, -1, false);
        }
        if 1 <= action_id && action_id <= 195 {
            let idx = action_id - 1;
            let rank = idx / 15;
            let combo = (idx % 15) + 1;
            proof {
                lemma_combo_bits(combo);
            }
            let ghost mut built: Seq<u8> = Seq::empty();
            if combo & 1 != 0 {
                cards[size] = rank as u8;
                proof {
                    built = built.push(rank as u8);
                }
                size += 1;
            }
            assert(cards@ =~= padded_cards(built));
            if combo & 2 != 0 {
                cards[size] = (13 + rank) as u8;
                proof {
                    built = built.push((13 + rank) as u8);
                }
                size += 1;
            }
            assert(cards@ =~= padded_cards(built));
            if combo & 4 != 0 {
                cards[size] = (26 + rank) as u8;
                proof {
                    built = built.push((26 + rank) as u8);
                }
                size += 1;
            }
            assert(cards@ =~= padded_cards(built));
            if combo & 8 != 0 {
                cards[size] = (39 + rank) as u8;
                proof {
                    built = built.push((39 + rank) as u8);
                }
                size += 1;
            }
            assert(cards@ =~= padded_cards(built));
            assert(built =~= group_cards(rank as int, combo as int));
            return (ActionType::Group, cards, size, rank as i32, size == 4);
        }
        if 196 <= action_id && action_id <= 459 {
            let idx = action_id - 196;
            let suit = idx / 66;
            let pattern_idx = idx % 66;
            let (start, length) = stair_patterns[pattern_idx];
            proof {
                lemma_stair_pattern_valid(pattern_idx as int);
            }
            let mut i: usize = 0;
            while i < length
                invariant
                    i <= length,
                    3 <= length <= 13,
                    start + length <= 13,
                    suit < 4,
                    size == i,
                    cards@ == padded_cards(stair_cards(suit as int, start as int, i as int)),
                decreases length - i,
            {
                cards[size] = (suit * 13 + start + i) as u8;
                size += 1;
                i += 1;
                assert(cards@ =~= padded_cards(stair_cards(suit as int, start as int, i as int)));
            }
            return (ActionType::Stair, cards, size, (start + length - 1) as i32, length >= 4);
        }
        if action_id == JOKER_SINGLE_ACTION_ID {
            cards[0] = 52;
            assert(cards@ =~= padded_cards(seq![52u8]));
            return (ActionType::Group, cards, 1, 13, false);
        }
        cards[0] = 52;
        cards[1] = 53;
        assert(cards@ =~= padded_cards(seq![52u8, 53u8]));
        (ActionType::Group, cards, 2, 13, false)
    }
}

// ---------------------------------------------------------------------------
// Showing an action.
// ---------------------------------------------------------------------------
pub open spec fn digit_char(d: int) -> char {
    if d == 0 {
        '0'
    } else if d == 1 {
        '1'
    } else if d == 2 {
        '2'
    } else if d == 3 {
        '3'
    } else if d == 4 {
        '4'
    } else if d == 5 {
        '5'
    } else if d == 6 {
        '6'
    } else if d == 7 {
        '7'
    } else if d == 8 {
        '8'
    } else {
        '9'
    }
}

/// The decimal digits of a natural number, most significant first.
pub open spec fn decimal_nat(n: nat) -> Seq<char>
    decreases n,
{
    if n < 10 {
        seq![digit_char(n as int)]
    } else {
        decimal_nat(n / 10) + seq![digit_char((n % 10) as int)]
    }
}

/// The decimal form of an integer, with a leading minus sign when negative.
pub open spec fn decimal(n: int) -> Seq<char> {
    if n < 0 {
        seq!['-'] + decimal_nat((-n) as nat)
    } else {
        decimal_nat(n as nat)
    }
}

/// A string as Rust's debug format writes it (for strings with nothing to escape).
pub open spec fn quoted(s: Seq<char>) -> Seq<char> {
    seq!['"'] + s + seq!['"']
}

/// The quoted strings, separated by ", ".
pub open spec fn joined(strs: Seq<Seq<char>>) -> Seq<char>
    decreases strs.len(),
{
    if strs.len() == 0 {
        Seq::<char>::empty()
    } else if strs.len() == 1 {
        quoted(strs[0])
    } else {
        joined(strs.drop_last()) + seq![',', ' '] + quoted(strs.last())
    }
}

/// A list of strings as Rust's debug format writes it: `["a", "b"]`.
pub open spec fn debug_list(strs: Seq<Seq<char>>) -> Seq<char> {
    seq!['['] + joined(strs) + seq![']']
}

/// The shown forms of the first `n` cards of a card list, skipping filler slots.
pub open spec fn shown_cards(cards: Seq<u8>, n: int) -> Seq<Seq<char>>
    decreases n,
{
    if n <= 0 {
        Seq::<Seq<char>>::empty()
    } else {
        shown_cards(cards, n - 1) + (if cards[n - 1] != INVALID_CARD {
            seq![display_of_card(card_of_index(cards[n - 1] as int))]
        } else {
            Seq::<Seq<char>>::empty()
        })
    }
}

pub open spec fn type_label(info: ActionInfo) -> Seq<char> {
    match info.action_type {
        ActionType::Stair => "階段"@,
        _ => if info.size == 1 {
            "単発"@
        } else if info.size == 2 {
            "ペア"@
        } else if info.size == 3 {
            "3枚出し"@
        } else if info.size == 4 {
            "4枚出し (革命)"@
        } else {
            "グループ"@
        },
    }
}

/// The readable description of an action: "パス" for a pass, otherwise the
/// list of its cards, its kind, its strength and a mark when it starts a revolution.
pub open spec fn readable(info: ActionInfo) -> Seq<char> {
    match info.action_type {
        ActionType::Pass => "パス"@,
        _ => debug_list(shown_cards(info.required_cards@, info.size as int)) + " "@ + type_label(
            info,
        ) + " (強さ: "@ + decimal(info.strength as int) + ")"@ + (if info.is_revolution_trigger {
            " ★革命トリガー"@
        } else {
            ""@
        }),
    }
}

fn digit_str(d: u32) -> (res: &'static str)
    requires
        d < 10,
    ensures
        res@ == seq![digit_char(d as int)],
{
    proof {
        reveal_strlit("0");
        reveal_strlit("1");
        reveal_strlit("2");
        reveal_strlit("3");
        reveal_strlit("4");
        reveal_strlit("5");
        reveal_strlit("6");
        reveal_strlit("7");
        reveal_strlit("8");
        reveal_strlit("9");
    }
    if d == 0 {
        "0"
    } else if d == 1 {
        "1"
    } else if d == 2 {
        "2"
    } else if d == 3 {
        "3"
    } else if d == 4 {
        "4"
    } else if d == 5 {
        "5"
    } else if d == 6 {
        "6"
    } else if d == 7 {
        "7"
    } else if d == 8 {
        "8"
    } else {
        "9"
    }
}

/// The decimal form of `n`.
fn decimal_string(n: i8) -> (res: String)
    ensures
        res@ == decimal(n as int),
{
    let mut res = String::new();
    let v: u32 = if n < 0 {
        proof {
            reveal_strlit("-");
        }
        res.append("-");
        (0i32 - n as i32) as u32
    } else {
        n as u32
    };
    let ghost prefix = res@;
    proof {
        reveal_with_fuel(decimal_nat, 3);
    }
    if v >= 100 {
        res.append(digit_str(v / 100));
    }
    if v >= 10 {
        res.append(digit_str((v / 10) % 10));
    }
    res.append(digit_str(v % 10));
    proof {
        if v >= 100 {
            assert(decimal_nat(v as nat) =~= seq![digit_char((v / 100) as int)] + seq![
                digit_char(((v / 10) % 10) as int),
            ] + seq![digit_char((v % 10) as int)]);
        } else if v >= 10 {
            assert(decimal_nat(v as nat) =~= seq![digit_char(((v / 10) % 10) as int)] + seq![
                digit_char((v % 10) as int),
            ]);
        }
        assert(res@ =~= prefix + decimal_nat(v as nat));
    }
    res
}

/// Every entry of a complete table can be shown by `to_readable_string`.
pub proof fn lemma_table_printable(manager: &ActionManager, id: int)
    requires
        manager.wf(),
        0 <= id < ACTION_SIZE,
    ensures
        manager.infos@[id].printable(),
{
    lemma_action_cards_valid(id);
    let info = manager.infos@[id];
    assert(info_matches(info, id));
    assert forall|i: int| 0 <= i < info.size implies #[trigger] info.required_cards@[i] == INVALID_CARD
        || info.required_cards@[i] < 54 by {
        assert(info.required_cards@[i] == action_cards(id)[i]);
    }
}

impl ActionInfo {
    /// Every listed card slot up to `size` is a deck index or filler.
    pub open spec fn printable(&self) -> bool {
        &&& self.size <= 13
        &&& forall|i: int|
            0 <= i < self.size ==> #[trigger] self.required_cards@[i] == INVALID_CARD
                || self.required_cards@[i] < 54
    }

    /// A readable description such as `["♠3", "♣3"] ペア (強さ: 0)`.
    pub fn to_readable_string(&self) -> (res: String)
        requires
            self.action_type != ActionType::Pass ==> self.printable(),
        ensures
            res@ == readable(*self),
    {
        match self.action_type {
            ActionType::Pass => String::from_str("パス"),
            _ => {
                let mut res = String::from_str("[");
                proof {
                    reveal_strlit("[");
                    reveal_strlit("\"");
                    reveal_strlit(", ");
                    reveal_strlit("]");
                }
                let mut count: usize = 0;
                let size = self.size as usize;
                let mut i: usize = 0;
                while i < size
                    invariant
                        i <= size,
                        size == self.size,
                        self.printable(),
                        count == shown_cards(self.required_cards@, i as int).len(),
                        count <= i,
                        res@ == seq!['['] + joined(shown_cards(self.required_cards@, i as int)),
                    decreases size - i,
                {
                    proof {
                        reveal_strlit("\"");
                        reveal_strlit(", ");
                    }
                    let card_idx = self.required_cards[i];
                    let ghost before = shown_cards(self.required_cards@, i as int);
                    if card_idx != INVALID_CARD {
                        let shown = Card::from_index(card_idx as usize).to_display_string();
                        if count > 0 {
                            res.append(", ");
                        }
                        res.append("\"");
                        res.append(shown.as_str());
                        res.append("\"");
                        count += 1;
                        proof {
                            let after = before.push(shown@);
                            assert(after.drop_last() =~= before);
                            assert(shown_cards(self.required_cards@, i + 1) =~= after);
                            if before.len() == 0 {
                                assert(joined(after) == quoted(shown@));
                            } else {
                                assert(joined(after) == joined(before) + seq![',', ' '] + quoted(
                                    shown@,
                                ));
                            }
                            assert(res@ =~= seq!['['] + joined(after));
                        }
                    } else {
                        assert(shown_cards(self.required_cards@, i + 1) =~= before);
                    }
                    i += 1;
                }
                res.append("]");
                res.append(" ");
                let label = match self.action_type {
                    ActionType::Group => if self.size == 1 {
                        "単発"
                    } else if self.size == 2 {
                        "ペア"
                    } else if self.size == 3 {
                        "3枚出し"
                    } else if self.size == 4 {
                        "4枚出し (革命)"
                    } else {
                        "グループ"
                    },
                    _ => "階段",
                };
                res.append(label);
                res.append(" (強さ: ");
                let strength = decimal_string(self.strength);
                res.append(strength.as_str());
                res.append(")");
                if self.is_revolution_trigger {
                    res.append(" ★革命トリガー");
                } else {
                    res.append("");
                }
                res
            },
        }
    }
}

} // verus!
