use vstd::prelude::*;

use crate::action::{
    lemma_group_cards, ActionType,
    action_cards, action_type_of, card_mask, info_matches, lemma_action_cards_valid, ActionInfo,
    ActionManager,
};
use crate::bits::{has_bit, lemma_popcount_zero, popcount};
use crate::common::{ACTION_SIZE, JOKER_PAIR_ACTION_ID, JOKER_SINGLE_ACTION_ID, NUM_PLAYERS, PASS_ACTION_ID};
use crate::env::{
    after_apply, after_field, after_finalize, beats, after_finish, after_turn, alive_bit, anyone_alive,
    buffer_valid, cards_held, count_alive, dealt_hand, exchange_legal_mask, exchange_result,
    first_alive, full_deck, hand_after_play, is_joker_action, is_shuffled_deck, jokers_in, legal_at,
    next_alive, payable, received, reset_state, set_aside, set_aside_all, strength_order,
    strongest_cards, turn_can_resolve, turn_core, ExchangeBuffer, StateView, hand_without_owned,
    jokers_needed, can_pay,
};
use crate::rule::{effects_of, HandEffects, RuleConfig};

verus! {

// ---------------------------------------------------------------------------
// Legal actions can be played.
// ---------------------------------------------------------------------------
proof fn lemma_card_mask_no_jokers(cards: Seq<u8>)
    requires
        forall|k: int| 0 <= k < cards.len() ==> #[trigger] cards[k] < 52,
    ensures
        !has_bit(card_mask(cards), 52),
        !has_bit(card_mask(cards), 53),
    decreases cards.len(),
{
    if cards.len() == 0 {
        assert(!((0u64 >> 52u64) & 1 == 1) && !((0u64 >> 53u64) & 1 == 1)) by (bit_vector);
    } else {
        lemma_card_mask_no_jokers(cards.drop_last());
        let m = card_mask(cards.drop_last());
        let c = cards.last();
        assert(c < 52);
        assert(card_mask(cards) == m | (1u64 << c));
        assert(!((m >> 52u64) & 1 == 1));
        assert(!((m >> 53u64) & 1 == 1));
        assert((!((m >> 52u64) & 1 == 1) && c < 52 ==> !(((m | (1u64 << c)) >> 52u64) & 1 == 1)) && (
        !((m >> 53u64) & 1 == 1) && c < 52 ==> !(((m | (1u64 << c)) >> 53u64) & 1 == 1)))
            by (bit_vector);
    }
}

/// Whatever the legal-action computation marks as legal, the current player
/// can pay for: it never offers a move that would need more jokers than the
/// hand holds.
pub proof fn lemma_legal_is_payable(s: StateView, config: RuleConfig, manager: &ActionManager, i: int)
    requires
        manager.wf(),
        0 <= i < ACTION_SIZE,
        legal_at(s, config, manager.infos@, i),
    ensures
        payable(s, manager.infos@, i),
{
    let infos = manager.infos@;
    let hand = s.hands[s.current_player as int];
    let info = infos[i];
    assert(info_matches(info, i));
    if i != PASS_ACTION_ID && !is_joker_action(i) {
        lemma_action_cards_valid(i);
        lemma_card_mask_no_jokers(action_cards(i));
        let m = info.required_mask;
        let base = hand & !(hand & m);
        assert(m & !(hand & m) == m & !hand && (!((m >> 52u64) & 1 == 1) ==> (((hand & !(hand & m))
            >> 52u64) & 1 == 1) == ((hand >> 52u64) & 1 == 1)) && (!((m >> 53u64) & 1 == 1) ==> (((hand
            & !(hand & m)) >> 53u64) & 1 == 1) == ((hand >> 53u64) & 1 == 1))) by (bit_vector);
        assert(jokers_in(base) == jokers_in(hand));
    }
}

// ---------------------------------------------------------------------------
// Playing only removes cards.
// ---------------------------------------------------------------------------
/// Playing an action never puts a card into the hand, and a non-joker action
/// takes out every one of its cards that the hand held.
pub proof fn lemma_play_only_removes(hand: u64, action: int, info: ActionInfo)
    ensures
        hand_after_play(hand, action, info) & !hand == 0,
        !is_joker_action(action) ==> hand_after_play(hand, action, info) & (hand & info.required_mask)
            == 0,
{
    let m = info.required_mask;
    let base = if is_joker_action(action) {
        hand
    } else {
        hand & !(hand & m)
    };
    assert((hand & !(hand & m)) & !hand == 0 && (hand & !(hand & m)) & (hand & m) == 0 && hand & !hand
        == 0) by (bit_vector);
    let j52 = !(1u64 << 52u64);
    let j53 = !(1u64 << 53u64);
    assert forall|x: u64, y: u64| #![auto] x & !y == 0 implies (x & j52) & !y == 0 && (x & j53) & !y
        == 0 by {
        assert(x & !y == 0 ==> (x & !(1u64 << 52u64)) & !y == 0 && (x & !(1u64 << 53u64)) & !y == 0)
            by (bit_vector);
    }
    assert forall|x: u64, y: u64| #![auto] x & y == 0 implies (x & j52) & y == 0 && (x & j53) & y
        == 0 by {
        assert(x & y == 0 ==> (x & !(1u64 << 52u64)) & y == 0 && (x & !(1u64 << 53u64)) & y == 0)
            by (bit_vector);
    }
}

// ---------------------------------------------------------------------------
// Turn order.
// ---------------------------------------------------------------------------
/// While anyone is alive, the turn always moves to an alive player.
pub proof fn lemma_next_alive_is_alive(cur: int, alive: u8)
    requires
        0 <= cur < NUM_PLAYERS,
        anyone_alive(alive),
    ensures
        alive_bit(alive, next_alive(cur, alive)),
        0 <= next_alive(cur, alive) < NUM_PLAYERS,
{
    assert(anyone_alive(alive) ==> alive_bit(alive, 0) || alive_bit(alive, 1) || alive_bit(alive, 2)
        || alive_bit(alive, 3)) by (bit_vector);
}

/// After a move that passes the turn on, the player to move is one who still
/// holds cards (an eight cut leaves the turn with its player only while they
/// do).
pub proof fn lemma_turn_lands_on_alive(s: StateView, config: RuleConfig, infos: Seq<ActionInfo>, action: int)
    requires
        s.current_player < NUM_PLAYERS,
        turn_can_resolve(s, config, infos, action),
    ensures
        alive_bit(
            after_turn(s, config, infos, action).alive_players,
            after_turn(s, config, infos, action).current_player as int,
        ),
{
    let player = s.current_player as int;
    let info = infos[action];
    let effects = effects_of(config, info);
    let s1 = after_apply(s, player, action, info);
    let s2 = after_field(s1, action, info, effects);
    let t = turn_core(s, config, infos, action);
    assert(t == after_finish(s2, player));
    assert(t.current_player == s.current_player);
    if !(effects.eight_cut && alive_bit(t.alive_players, player)) {
        lemma_next_alive_is_alive(player, t.alive_players);
    }
}

/// While two or more players are alive, an opponent's move can always pass
/// the turn on (the precondition of `opponent_turn` that concerns turn order).
pub proof fn lemma_live_round_can_resolve(s: StateView, config: RuleConfig, infos: Seq<ActionInfo>, action: int)
    requires
        s.alive_players < 16,
        s.current_player < NUM_PLAYERS,
        count_alive(s.alive_players) > 1,
    ensures
        turn_can_resolve(s, config, infos, action),
{
    let player = s.current_player as int;
    let info = infos[action];
    let effects = effects_of(config, info);
    let s1 = after_apply(s, player, action, info);
    let s2 = after_field(s1, action, info, effects);
    assert(s2.alive_players == s.alive_players);
    let t = turn_core(s, config, infos, action);
    assert(t == after_finish(s2, player));
    let a = s.alive_players;
    lemma_popcount_four(a);
    let q = player as u8;
    // two seats are alive, so one other than the mover stays alive
    let r: u8 = if q != 0 && alive_bit(a, 0) {
        0
    } else if q != 1 && alive_bit(a, 1) {
        1
    } else if q != 2 && alive_bit(a, 2) {
        2
    } else {
        3
    };
    assert(r != q && alive_bit(a, r as int));
    lemma_alive_bit_clear(a, q, r);
    let b = t.alive_players;
    assert(b == a || b == a & !(1u8 << q));
    assert(alive_bit(b, r as int));
    assert(r < 4 && (b >> r) & 1 == 1 ==> b & 15 != 0) by (bit_vector);
}

// ---------------------------------------------------------------------------
// What a play does to the field, the hand and the turn.
// ---------------------------------------------------------------------------
/// Any play other than a pass starts a new round of passing: no earlier
/// pass counts against it. Unless an eight clears it, the play lies on the
/// field and belongs to the player who made it.
pub proof fn lemma_play_resets_passes(s: StateView, action: int, info: ActionInfo, effects: HandEffects)
    requires
        action != PASS_ACTION_ID,
    ensures
        after_field(s, action, info, effects).passed_players == 0,
        !effects.eight_cut ==> after_field(s, action, info, effects).current_field_action == Some(
            action as u16,
        ),
        !effects.eight_cut ==> after_field(s, action, info, effects).field_owner == Some(
            s.current_player,
        ),
        effects.eight_cut ==> after_field(s, action, info, effects).current_field_action is None,
{
}

proof fn lemma_joker_bits(b: u64, hand: u64, mask: u64)
    by (bit_vector)
    ensures
        ((b & !(1u64 << 52u64)) >> 52u64) & 1 != 1,
        (((b & !(1u64 << 52u64)) >> 53u64) & 1 == 1) == ((b >> 53u64) & 1 == 1),
        ((b & !(1u64 << 53u64)) >> 53u64) & 1 != 1,
        (((b & !(1u64 << 53u64)) >> 52u64) & 1 == 1) == ((b >> 52u64) & 1 == 1),
        hand & mask == mask ==> mask & !(hand & mask) == 0,
        hand & mask == mask ==> hand & !(hand & mask) == hand & !mask,
{
}

/// A play takes out exactly as many jokers as it needs (the joker actions one
/// or two, any other play one per card the hand lacks), and no other card but
/// its own; a play whose cards are all in hand leaves the jokers alone.
pub proof fn lemma_play_uses_needed_jokers(hand: u64, action: int, info: ActionInfo)
    requires
        action != PASS_ACTION_ID,
        can_pay(hand, action, info),
    ensures
        jokers_in(hand_after_play(hand, action, info)) + jokers_needed(hand, action, info) == jokers_in(
            hand_without_owned(hand, action, info),
        ),
        !is_joker_action(action) && hand & info.required_mask == info.required_mask ==> hand_after_play(
            hand,
            action,
            info,
        ) == hand & !info.required_mask,
{
    let base = hand_without_owned(hand, action, info);
    let b1 = base & !(1u64 << 52u64);
    lemma_joker_bits(base, hand, info.required_mask);
    lemma_joker_bits(b1, hand, info.required_mask);
    if !is_joker_action(action) && hand & info.required_mask == info.required_mask {
        lemma_popcount_zero(0u64);
        assert(jokers_needed(hand, action, info) == 0);
    }
}

/// The turn goes to the first seat still in the round, counting on from the
/// current one in seat order: every seat passed over has finished.
pub proof fn lemma_next_alive_is_first(cur: int, alive: u8)
    requires
        0 <= cur < NUM_PLAYERS,
        anyone_alive(alive),
    ensures
        alive_bit(alive, next_alive(cur, alive)),
        forall|j: int|
            1 <= j < (next_alive(cur, alive) - cur + 3) % 4 + 1 ==> !#[trigger] alive_bit(alive, (cur + j) % 4),
{
    lemma_next_alive_is_alive(cur, alive);
}

/// Under the eight-cut rule, every group of eights cuts, whatever its size,
/// and nothing else does.
pub proof fn lemma_eights_cut(config: RuleConfig, info: ActionInfo)
    ensures
        effects_of(config, info).eight_cut == (config.eight_cut && info.action_type == ActionType::Group
            && info.required_cards@[0] < 52 && info.required_cards@[0] % 13 == 5),
{
}

/// In the action table, a group (one to four cards of a rank) cuts exactly
/// when it is made of eights and the eight-cut rule is on.
pub proof fn lemma_table_eights_cut(config: RuleConfig, manager: &ActionManager, i: int)
    requires
        manager.wf(),
        1 <= i <= 195,
    ensures
        effects_of(config, manager.infos@[i]).eight_cut == (config.eight_cut && (i - 1) / 15 == 5),
{
    assert(info_matches(manager.infos@[i], i));
    lemma_group_cards((i - 1) / 15, (i - 1) % 15 + 1);
    lemma_action_cards_valid(i);
    assert(manager.infos@[i].required_cards@[0] == action_cards(i)[0]);
}

/// A move beats only a field of its own shape: same kind (group or stair) and
/// same number of cards.
pub proof fn lemma_beats_needs_same_shape(config: RuleConfig, is_revolution: bool, action: ActionInfo, field: ActionInfo)
    ensures
        action.action_type != field.action_type ==> !beats(config, is_revolution, action, field),
        action.size != field.size ==> !beats(config, is_revolution, action, field),
{
}

/// With something on the field, no move of another kind is legal.
pub proof fn lemma_legal_needs_same_shape(s: StateView, config: RuleConfig, infos: Seq<ActionInfo>, i: int, f: u16)
    requires
        s.current_field_action == Some(f),
        i != PASS_ACTION_ID,
        infos[i].action_type != infos[f as int].action_type,
    ensures
        !legal_at(s, config, infos, i),
{
}

// ---------------------------------------------------------------------------
// The field and card strength.
// ---------------------------------------------------------------------------
/// A second revolution undoes the first: when two revolution-starting plays
/// follow each other and neither reverses strength with jacks, strength
/// follows the lasting revolution after each of them, and after the second the
/// lasting revolution is back to what it was before the first.
pub proof fn lemma_double_revolution(
    s: StateView,
    a: int,
    info_a: ActionInfo,
    effects_a: HandEffects,
    b: int,
    info_b: ActionInfo,
    effects_b: HandEffects,
)
    requires
        a != PASS_ACTION_ID,
        b != PASS_ACTION_ID,
        info_a.is_revolution_trigger,
        info_b.is_revolution_trigger,
        !effects_a.eleven_back,
        !effects_b.eleven_back,
    ensures
        after_field(s, a, info_a, effects_a).is_revolution == after_field(
            s,
            a,
            info_a,
            effects_a,
        ).is_parmanent_revolution,
        after_field(s, a, info_a, effects_a).is_parmanent_revolution == !s.is_parmanent_revolution,
        after_field(after_field(s, a, info_a, effects_a), b, info_b, effects_b).is_parmanent_revolution
            == s.is_parmanent_revolution,
        after_field(after_field(s, a, info_a, effects_a), b, info_b, effects_b).is_revolution
            == s.is_parmanent_revolution,
{
}

/// Outside the joker cases, a revolution reverses which of two actions of
/// the same shape and different strength beats the other.
pub proof fn lemma_revolution_reverses_beats(config: RuleConfig, action: ActionInfo, field: ActionInfo)
    requires
        action.size == field.size,
        action.action_type == field.action_type,
        action.strength != field.strength,
        action.id != JOKER_SINGLE_ACTION_ID,
        action.id != JOKER_PAIR_ACTION_ID,
        field.id != JOKER_SINGLE_ACTION_ID,
    ensures
        beats(config, true, action, field) == !beats(config, false, action, field),
{
}

/// No entry of the action table beats itself, in or out of a revolution;
/// the one exception is the pair of jokers, which beats everything of its
/// shape.
pub proof fn lemma_nothing_beats_itself(config: RuleConfig, is_revolution: bool, manager: &ActionManager, i: int)
    requires
        manager.wf(),
        0 <= i < ACTION_SIZE,
        i != JOKER_PAIR_ACTION_ID,
    ensures
        !beats(config, is_revolution, manager.infos@[i], manager.infos@[i]),
{
    let info = manager.infos@[i];
    assert(info_matches(info, i));
    if i == JOKER_SINGLE_ACTION_ID {
        let cards = action_cards(i);
        assert(cards.drop_last() =~= Seq::<u8>::empty());
        assert(card_mask(cards.drop_last()) == 0u64);
        assert(info.required_mask == 0u64 | (1u64 << 52u8));
        assert(0u64 | (1u64 << 52u8) != 1u64) by (bit_vector);
    }
}

// ---------------------------------------------------------------------------
// Seating and the final ranking.
// ---------------------------------------------------------------------------
/// The alive set and the finishing order agree: every seat is either still
/// alive or appears (once) in the finishing order, never both.
pub open spec fn seating_consistent(s: StateView) -> bool {
    &&& s.alive_players < 16
    &&& s.finished_order.no_duplicates()
    &&& forall|k: int| 0 <= k < s.finished_order.len() ==> #[trigger] s.finished_order[k] < NUM_PLAYERS
    &&& forall|p: int|
        0 <= p < NUM_PLAYERS ==> (alive_bit(s.alive_players, p) <==> !s.finished_order.contains(
            #[trigger] (p as u8),
        ))
}

proof fn lemma_alive_bit_clear(a: u8, p: u8, q: u8)
    requires
        p < 4,
        q < 4,
    ensures
        alive_bit(a & !(1u8 << p), q as int) == (q != p && alive_bit(a, q as int)),
        a < 16 ==> a & !(1u8 << p) < 16,
{
    assert(p < 4 && q < 4 ==> ((((a & !(1u8 << p)) >> q) & 1 == 1) == (q != p && (a >> q) & 1 == 1)))
        by (bit_vector);
    assert(a < 16 ==> a & !(1u8 << p) < 16) by (bit_vector);
}

proof fn lemma_popcount_four(a: u8)
    requires
        a < 16,
    ensures
        count_alive(a) == (if alive_bit(a, 0) {
            1nat
        } else {
            0nat
        }) + (if alive_bit(a, 1) {
            1nat
        } else {
            0nat
        }) + (if alive_bit(a, 2) {
            1nat
        } else {
            0nat
        }) + (if alive_bit(a, 3) {
            1nat
        } else {
            0nat
        }),
{
    let x = a as u64;
    reveal_with_fuel(popcount, 5);
    assert(a < 16 ==> ((a >> 0u8) & 1 == 1) == ((a as u64) % 2 == 1) && ((a >> 1u8) & 1 == 1) == (((
    a as u64) / 2) % 2 == 1) && ((a >> 2u8) & 1 == 1) == (((a as u64) / 4) % 2 == 1) && ((a >> 3u8)
        & 1 == 1) == (((a as u64) / 8) % 2 == 1)) by (bit_vector);
    assert(x / 2 / 2 == x / 4);
    assert(x / 4 / 2 == x / 8);
    assert(x / 8 / 2 == 0);
}

/// Recording that a player finished is done once: recording it again
/// changes nothing.
pub proof fn lemma_finish_idempotent(s: StateView, player: int)
    requires
        0 <= player < NUM_PLAYERS,
    ensures
        after_finish(after_finish(s, player), player) == after_finish(s, player),
{
    let t = after_finish(s, player);
    if t != s {
        assert(t.finished_order[t.finished_order.len() - 1] == player as u8);
        assert(t.finished_order.contains(player as u8));
    }
}

/// A new round starts with every seat alive and nobody finished.
pub proof fn lemma_reset_seating(s: StateView, deck: Seq<u8>, infos: Seq<ActionInfo>, agent_id: int)
    ensures
        seating_consistent(reset_state(s, deck, infos, agent_id)),
{
    let r = reset_state(s, deck, infos, agent_id);
    assert forall|p: int| 0 <= p < NUM_PLAYERS implies (alive_bit(r.alive_players, p) <==> !r.finished_order.contains(
        #[trigger] (p as u8),
    )) by {
        let q = p as u8;
        assert(q < 4 ==> (15u8 >> q) & 1 == 1) by (bit_vector);
    }
}

/// A whole move keeps the alive set and the finishing order in agreement.
pub proof fn lemma_turn_keeps_seating(s: StateView, config: RuleConfig, infos: Seq<ActionInfo>, action: int)
    requires
        seating_consistent(s),
        s.current_player < NUM_PLAYERS,
    ensures
        seating_consistent(turn_core(s, config, infos, action)),
        seating_consistent(after_turn(s, config, infos, action)),
{
    let player = s.current_player as int;
    let info = infos[action];
    let effects = effects_of(config, info);
    let s1 = after_apply(s, player, action, info);
    let s2 = after_field(s1, action, info, effects);
    assert(s2.alive_players == s.alive_players && s2.finished_order == s.finished_order);
    let t = turn_core(s, config, infos, action);
    assert(t == after_finish(s2, player));
    if t.finished_order.len() != s.finished_order.len() {
        // The player just finished.
        let q = player as u8;
        assert(t.finished_order == s.finished_order.push(q));
        assert(!s.finished_order.contains(q));
        assert forall|p: int| 0 <= p < NUM_PLAYERS implies (alive_bit(t.alive_players, p) <==> !t.finished_order.contains(
            #[trigger] (p as u8),
        )) by {
            lemma_alive_bit_clear(s.alive_players, q, p as u8);
            if t.finished_order.contains(p as u8) && p != player {
                let k = choose|k: int| 0 <= k < t.finished_order.len() && t.finished_order[k] == p as u8;
                assert(k < s.finished_order.len());
                assert(s.finished_order[k] == p as u8);
            }
            if s.finished_order.contains(p as u8) {
                let k = choose|k: int| 0 <= k < s.finished_order.len() && s.finished_order[k] == p as u8;
                assert(t.finished_order[k] == p as u8);
            }
            if p == player {
                assert(t.finished_order[s.finished_order.len() as int] == q);
            }
        }
        lemma_alive_bit_clear(s.alive_players, q, 0);
        assert forall|k: int| 0 <= k < t.finished_order.len() implies #[trigger] t.finished_order[k] < NUM_PLAYERS by {
            if k < s.finished_order.len() {
                assert(t.finished_order[k] == s.finished_order[k]);
            }
        }
        assert forall|i: int, j: int|
            0 <= i < t.finished_order.len() && 0 <= j < t.finished_order.len() && i != j implies t.finished_order[i]
            != t.finished_order[j] by {
            if i == s.finished_order.len() as int {
                assert(s.finished_order[j] == t.finished_order[j]);
                assert(s.finished_order.contains(s.finished_order[j]));
            } else if j == s.finished_order.len() as int {
                assert(s.finished_order[i] == t.finished_order[i]);
                assert(s.finished_order.contains(s.finished_order[i]));
            }
        }
    }
    assert(seating_consistent(t));
}

/// When at most one seat is left, ending the round puts every seat in the
/// finishing order exactly once: the ranking is a permutation of the seats.
pub proof fn lemma_final_ranking(s: StateView)
    requires
        seating_consistent(s),
        count_alive(s.alive_players) <= 1,
    ensures
        seating_consistent(after_finalize(s)),
        forall|p: int| 0 <= p < NUM_PLAYERS ==> after_finalize(s).previous_rankings.contains(#[trigger] (p as u8)),
        after_finalize(s).previous_rankings.no_duplicates(),
        forall|k: int|
            0 <= k < after_finalize(s).previous_rankings.len() ==> #[trigger] after_finalize(s).previous_rankings[k]
                < NUM_PLAYERS,
        after_finalize(s).alive_players == 0,
{
    let a = s.alive_players;
    let f = after_finalize(s);
    lemma_popcount_four(a);
    assert(a < 16 ==> (a == 0 <==> !((a >> 0u8) & 1 == 1) && !((a >> 1u8) & 1 == 1) && !((a >> 2u8)
        & 1 == 1) && !((a >> 3u8) & 1 == 1))) by (bit_vector);
    match first_alive(a) {
        Some(p) => {
            let q = p as u8;
            assert(f.finished_order == s.finished_order.push(q));
            assert(!s.finished_order.contains(q));
            assert forall|r: int| 0 <= r < NUM_PLAYERS implies f.finished_order.contains(#[trigger] (r as u8)) by {
                if r == p {
                    assert(f.finished_order[s.finished_order.len() as int] == q);
                } else {
                    assert(!alive_bit(a, r));
                    assert(s.finished_order.contains(r as u8));
                    let k = choose|k: int| 0 <= k < s.finished_order.len() && s.finished_order[k] == r as u8;
                    assert(f.finished_order[k] == r as u8);
                }
            }
            assert forall|k: int| 0 <= k < f.finished_order.len() implies #[trigger] f.finished_order[k] < NUM_PLAYERS by {
                if k < s.finished_order.len() {
                    assert(f.finished_order[k] == s.finished_order[k]);
                }
            }
            assert forall|i: int, j: int|
                0 <= i < f.finished_order.len() && 0 <= j < f.finished_order.len() && i != j implies f.finished_order[i]
                != f.finished_order[j] by {
                if i == s.finished_order.len() as int {
                    assert(s.finished_order[j] == f.finished_order[j]);
                    assert(s.finished_order.contains(s.finished_order[j]));
                } else if j == s.finished_order.len() as int {
                    assert(s.finished_order[i] == f.finished_order[i]);
                    assert(s.finished_order.contains(s.finished_order[i]));
                }
            }
            assert forall|r: int| 0 <= r < NUM_PLAYERS implies (alive_bit(f.alive_players, r) <==> !f.finished_order.contains(
                #[trigger] (r as u8),
            )) by {
                let rr = r as u8;
                assert(rr < 4 ==> !((0u8 >> rr) & 1 == 1)) by (bit_vector);
            }
        },
        None => {
            assert forall|r: int| 0 <= r < NUM_PLAYERS implies f.finished_order.contains(#[trigger] (r as u8)) by {
                assert(!alive_bit(a, r));
            }
        },
    }
}

// ---------------------------------------------------------------------------
// Dealing.
// ---------------------------------------------------------------------------
proof fn lemma_bit_or(h: u64, d: u64, c: u64)
    requires
        d < 64,
        c < 64,
    ensures
        ((h | (1u64 << d)) >> c) & 1 == 1 <==> ((h >> c) & 1 == 1 || d == c),
        !((0u64 >> c) & 1 == 1),
{
    assert(d < 64 && c < 64 ==> ((((h | (1u64 << d)) >> c) & 1 == 1) <==> ((h >> c) & 1 == 1 || d
        == c))) by (bit_vector);
    assert(!((0u64 >> c) & 1 == 1)) by (bit_vector);
}

/// A seat receives card `c` exactly when `c` sits at a deck position that
/// goes to that seat.
proof fn lemma_dealt_bit(deck: Seq<u8>, p: int, c: int)
    requires
        forall|k: int| 0 <= k < deck.len() ==> #[trigger] deck[k] < 64,
        0 <= c < 64,
        0 <= p < NUM_PLAYERS,
    ensures
        has_bit(dealt_hand(deck, p), c) <==> exists|i: int|
            0 <= i < deck.len() && i % 4 == p && #[trigger] deck[i] == c,
    decreases deck.len(),
{
    if deck.len() == 0 {
        lemma_bit_or(0, 0, c as u64);
    } else {
        let d = deck.drop_last();
        lemma_dealt_bit(d, p, c);
        let h = dealt_hand(d, p);
        let n = deck.len() - 1;
        lemma_bit_or(h, deck.last() as u64, c as u64);
        if has_bit(dealt_hand(deck, p), c) {
            if has_bit(h, c) {
                let i = choose|i: int| 0 <= i < d.len() && i % 4 == p && #[trigger] d[i] == c;
                assert(deck[i] == c);
            } else {
                assert(deck[n] == c);
            }
        }
        if exists|i: int| 0 <= i < deck.len() && i % 4 == p && #[trigger] deck[i] == c {
            let i = choose|i: int| 0 <= i < deck.len() && i % 4 == p && #[trigger] deck[i] == c;
            if i < n {
                assert(d[i] == c);
            }
        }
    }
}

/// Some seat receives card `c` when `deck` is dealt.
pub open spec fn dealt_to_someone(deck: Seq<u8>, c: int) -> bool {
    exists|p: int| 0 <= p < NUM_PLAYERS && #[trigger] has_bit(dealt_hand(deck, p), c)
}

/// Dealing a shuffled deck hands every one of the 54 cards to exactly one
/// seat, and nothing else.
pub proof fn lemma_deal_partitions(deck: Seq<u8>)
    requires
        is_shuffled_deck(deck),
    ensures
        forall|c: int| 0 <= c < 64 ==> (#[trigger] dealt_to_someone(deck, c) <==> c < 54),
        forall|p: int, q: int, c: int|
            0 <= p < NUM_PLAYERS && 0 <= q < NUM_PLAYERS && p != q && 0 <= c < 64 && #[trigger] has_bit(
                dealt_hand(deck, p),
                c,
            ) ==> !#[trigger] has_bit(dealt_hand(deck, q), c),
{
    broadcast use vstd::seq_lib::group_to_multiset_ensures;

    let full = full_deck();
    assert(full.no_duplicates());
    full.lemma_multiset_has_no_duplicates();
    deck.lemma_multiset_has_no_duplicates_conv();
    assert forall|k: int| 0 <= k < deck.len() implies #[trigger] deck[k] < 64 by {
        assert(deck.contains(deck[k]));
        assert(full.to_multiset().count(deck[k]) > 0);
        assert(full.contains(deck[k]));
    }
    assert forall|c: int| 0 <= c < 64 implies (#[trigger] dealt_to_someone(deck, c) <==> c < 54) by {
        if c < 54 {
            assert(full[c] == c as u8);
            assert(full.contains(c as u8));
            assert(deck.to_multiset().count(c as u8) > 0);
            assert(deck.contains(c as u8));
            let i = choose|i: int| 0 <= i < deck.len() && deck[i] == c as u8;
            let p = i % 4;
            lemma_dealt_bit(deck, p, c);
            assert(has_bit(dealt_hand(deck, p), c));
        } else {
            assert forall|p: int| 0 <= p < NUM_PLAYERS implies !#[trigger] has_bit(dealt_hand(deck, p), c) by {
                lemma_dealt_bit(deck, p, c);
                if has_bit(dealt_hand(deck, p), c) {
                    let i = choose|i: int| 0 <= i < deck.len() && i % 4 == p && #[trigger] deck[i] == c;
                    assert(deck.contains(deck[i]));
                    assert(deck.to_multiset().count(deck[i]) > 0);
                    assert(full.to_multiset().count(deck[i]) > 0);
                    assert(full.contains(deck[i]));
                    let k = choose|k: int| 0 <= k < full.len() && full[k] == deck[i];
                    assert(full[k] == k as u8);
                }
            }
        }
    }
    assert forall|p: int, q: int, c: int|
        0 <= p < NUM_PLAYERS && 0 <= q < NUM_PLAYERS && p != q && 0 <= c < 64 && #[trigger] has_bit(
            dealt_hand(deck, p),
            c,
        ) implies !#[trigger] has_bit(dealt_hand(deck, q), c) by {
        lemma_dealt_bit(deck, p, c);
        lemma_dealt_bit(deck, q, c);
        if has_bit(dealt_hand(deck, q), c) {
            let i = choose|i: int| 0 <= i < deck.len() && i % 4 == p && #[trigger] deck[i] == c;
            let j = choose|j: int| 0 <= j < deck.len() && j % 4 == q && #[trigger] deck[j] == c;
            assert(i != j);
        }
    }
}

// ---------------------------------------------------------------------------
// The exchange moves cards, it never makes or loses them.
// ---------------------------------------------------------------------------
/// Card `c` is somewhere: in a hand, or set aside for the exchange.
pub open spec fn card_placed(hands: Seq<u64>, buffer: Seq<ExchangeBuffer>, c: int) -> bool {
    ||| exists|p: int| 0 <= p < NUM_PLAYERS && #[trigger] has_bit(hands[p], c)
    ||| exists|k: int| 0 <= k < buffer.len() && #[trigger] buffer[k].card == c
}

/// No card is in two places at once: not in two hands, not both in a hand
/// and set aside, not set aside twice.
pub open spec fn placed_once(hands: Seq<u64>, buffer: Seq<ExchangeBuffer>) -> bool {
    &&& forall|p: int, q: int, c: int|
        0 <= p < NUM_PLAYERS && 0 <= q < NUM_PLAYERS && p != q && 0 <= c < 64 && #[trigger] has_bit(hands[p], c)
            ==> !#[trigger] has_bit(hands[q], c)
    &&& forall|k: int, p: int|
        0 <= k < buffer.len() && 0 <= p < NUM_PLAYERS ==> !#[trigger] has_bit(hands[p], buffer[k].card as int)
    &&& forall|k: int, l: int|
        0 <= k < buffer.len() && 0 <= l < buffer.len() && k != l ==> #[trigger] buffer[k].card
            != #[trigger] buffer[l].card
}

proof fn lemma_bit_clear(h: u64, d: u64, c: u64)
    requires
        d < 64,
        c < 64,
    ensures
        ((h & !(1u64 << d)) >> c) & 1 == 1 <==> ((h >> c) & 1 == 1 && d != c),
{
    assert(d < 64 && c < 64 ==> ((((h & !(1u64 << d)) >> c) & 1 == 1) <==> ((h >> c) & 1 == 1 && d
        != c))) by (bit_vector);
}

/// Setting cards aside clears exactly those cards from the giver's hand and
/// lists them, in order, as pending.
proof fn lemma_set_aside_all_effect(
    hands: Seq<u64>,
    buffer: Seq<ExchangeBuffer>,
    from: usize,
    to: usize,
    cards: Seq<u8>,
)
    requires
        hands.len() == NUM_PLAYERS,
        from < NUM_PLAYERS,
        forall|k: int| 0 <= k < cards.len() ==> #[trigger] cards[k] < 64,
    ensures
        set_aside_all(hands, buffer, from, to, cards).0.len() == NUM_PLAYERS,
        forall|p: int, c: int|
            0 <= p < NUM_PLAYERS && 0 <= c < 64 ==> (#[trigger] has_bit(
                set_aside_all(hands, buffer, from, to, cards).0[p],
                c,
            ) <==> (has_bit(hands[p], c) && !(p == from && cards.contains(c as u8)))),
        set_aside_all(hands, buffer, from, to, cards).1 == buffer + cards.map_values(
            |x: u8| ExchangeBuffer { from, to, card: x },
        ),
    decreases cards.len(),
{
    if cards.len() == 0 {
        assert(buffer + cards.map_values(|x: u8| ExchangeBuffer { from, to, card: x }) =~= buffer);
    } else {
        let d = cards.drop_last();
        lemma_set_aside_all_effect(hands, buffer, from, to, d);
        let prev = set_aside_all(hands, buffer, from, to, d);
        let last = cards.last();
        assert forall|p: int, c: int|
            0 <= p < NUM_PLAYERS && 0 <= c < 64 implies (#[trigger] has_bit(
                set_aside_all(hands, buffer, from, to, cards).0[p],
                c,
            ) <==> (has_bit(hands[p], c) && !(p == from && cards.contains(c as u8)))) by {
            let cur = set_aside_all(hands, buffer, from, to, cards);
            assert(cur == set_aside(prev.0, prev.1, from, to, last));
            assert(cur.0 == prev.0.update(from as int, prev.0[from as int] & !(1u64 << last)));
            lemma_bit_clear(prev.0[from as int], last as u64, c as u64);
            assert(has_bit(prev.0[p], c) <==> (has_bit(hands[p], c) && !(p == from && d.contains(
                c as u8,
            ))));
            assert(cards.contains(c as u8) <==> (d.contains(c as u8) || c as u8 == last)) by {
                if cards.contains(c as u8) && c as u8 != last {
                    let k = choose|k: int| 0 <= k < cards.len() && cards[k] == c as u8;
                    assert(k < d.len());
                    assert(d[k] == c as u8);
                }
                if d.contains(c as u8) {
                    let k = choose|k: int| 0 <= k < d.len() && d[k] == c as u8;
                    assert(cards[k] == c as u8);
                }
                if c as u8 == last {
                    assert(cards[cards.len() - 1] == last);
                }
            }
            if p == from {
                if cards.contains(c as u8) && c as u8 != last {
                    let k = choose|k: int| 0 <= k < cards.len() && cards[k] == c as u8;
                    assert(k < d.len());
                    assert(d[k] == c as u8);
                }
                if d.contains(c as u8) {
                    let k = choose|k: int| 0 <= k < d.len() && d[k] == c as u8;
                    assert(cards[k] == c as u8);
                }
                if c as u8 == last {
                    assert(cards[cards.len() - 1] == last);
                }
            }
        }
        assert(buffer + cards.map_values(|x: u8| ExchangeBuffer { from, to, card: x }) =~= (buffer
            + d.map_values(|x: u8| ExchangeBuffer { from, to, card: x })).push(
            ExchangeBuffer { from, to, card: last },
        ));
    }
}

/// Setting aside distinct cards the giver holds keeps every card in exactly
/// one place.
proof fn lemma_set_aside_all_conserves(
    hands: Seq<u64>,
    buffer: Seq<ExchangeBuffer>,
    from: usize,
    to: usize,
    cards: Seq<u8>,
)
    requires
        hands.len() == NUM_PLAYERS,
        from < NUM_PLAYERS,
        to < NUM_PLAYERS,
        cards.no_duplicates(),
        forall|k: int| 0 <= k < cards.len() ==> #[trigger] cards[k] < 64,
        forall|k: int| 0 <= k < cards.len() ==> has_bit(hands[from as int], #[trigger] cards[k] as int),
        placed_once(hands, buffer),
        buffer_valid(buffer),
    ensures
        placed_once(set_aside_all(hands, buffer, from, to, cards).0, set_aside_all(hands, buffer, from, to, cards).1),
        buffer_valid(set_aside_all(hands, buffer, from, to, cards).1),
        set_aside_all(hands, buffer, from, to, cards).0.len() == NUM_PLAYERS,
        forall|c: int|
            0 <= c < 64 ==> #[trigger] card_placed(
                set_aside_all(hands, buffer, from, to, cards).0,
                set_aside_all(hands, buffer, from, to, cards).1,
                c,
            ) == card_placed(hands, buffer, c),
{
    lemma_set_aside_all_effect(hands, buffer, from, to, cards);
    let r = set_aside_all(hands, buffer, from, to, cards);
    let h = r.0;
    let b = r.1;
    let n = buffer.len();
    assert forall|k: int| 0 <= k < b.len() implies (#[trigger] b[k]).to < NUM_PLAYERS && b[k].card < 64 by {
        if k >= n {
            assert(b[k] == ExchangeBuffer { from, to, card: cards[k - n] });
        }
    }
    // every new entry is a card of `cards`, every old one is from `buffer`
    assert forall|k: int| n <= k < b.len() implies #[trigger] b[k].card == cards[k - n] by {}
    assert forall|k: int| 0 <= k < n implies #[trigger] b[k] == buffer[k] by {}
    assert forall|c: int| 0 <= c < 64 implies #[trigger] card_placed(h, b, c) == card_placed(hands, buffer, c) by {
        if cards.contains(c as u8) {
            let k = choose|k: int| 0 <= k < cards.len() && cards[k] == c as u8;
            assert(b[n + k].card == c);
            assert(has_bit(hands[from as int], cards[k] as int));
        } else {
            if card_placed(h, b, c) {
                if exists|p: int| 0 <= p < NUM_PLAYERS && #[trigger] has_bit(h[p], c) {
                    let p = choose|p: int| 0 <= p < NUM_PLAYERS && #[trigger] has_bit(h[p], c);
                    assert(has_bit(hands[p], c));
                } else {
                    let k = choose|k: int| 0 <= k < b.len() && #[trigger] b[k].card == c;
                    if k >= n {
                        assert(cards[k - n] == c as u8);
                        assert(cards.contains(c as u8));
                    }
                    assert(buffer[k].card == c);
                }
            }
            if card_placed(hands, buffer, c) {
                if exists|p: int| 0 <= p < NUM_PLAYERS && #[trigger] has_bit(hands[p], c) {
                    let p = choose|p: int| 0 <= p < NUM_PLAYERS && #[trigger] has_bit(hands[p], c);
                    assert(has_bit(h[p], c));
                } else {
                    let k = choose|k: int| 0 <= k < buffer.len() && #[trigger] buffer[k].card == c;
                    assert(b[k].card == c);
                }
            }
        }
    }
    assert forall|p: int, q: int, c: int|
        0 <= p < NUM_PLAYERS && 0 <= q < NUM_PLAYERS && p != q && 0 <= c < 64 && #[trigger] has_bit(h[p], c)
            implies !#[trigger] has_bit(h[q], c) by {
        assert(has_bit(hands[p], c));
    }
    assert forall|k: int, p: int| 0 <= k < b.len() && 0 <= p < NUM_PLAYERS implies !#[trigger] has_bit(h[p], b[k].card as int) by {
        if k < n {
            assert(!has_bit(hands[p], buffer[k].card as int));
        } else {
            let c = cards[k - n];
            assert(cards.contains(c));
            if p != from {
                assert(has_bit(hands[from as int], c as int));
                assert(!has_bit(hands[p], c as int));
            }
        }
    }
    assert forall|k: int, l: int| 0 <= k < b.len() && 0 <= l < b.len() && k != l implies #[trigger] b[k].card
        != #[trigger] b[l].card by {
        if k >= n && l >= n {
        } else if k < n && l >= n {
            assert(has_bit(hands[from as int], cards[l - n] as int));
            assert(!has_bit(hands[from as int], buffer[k].card as int));
        } else if k >= n && l < n {
            assert(has_bit(hands[from as int], cards[k - n] as int));
            assert(!has_bit(hands[from as int], buffer[l].card as int));
        }
    }
}

/// Receiving the pending cards adds each to its receiver's hand.
proof fn lemma_received_effect(hands: Seq<u64>, buffer: Seq<ExchangeBuffer>)
    requires
        hands.len() == NUM_PLAYERS,
        buffer_valid(buffer),
    ensures
        received(hands, buffer).len() == NUM_PLAYERS,
        forall|p: int, c: int|
            0 <= p < NUM_PLAYERS && 0 <= c < 64 ==> (#[trigger] has_bit(received(hands, buffer)[p], c) <==> (
            has_bit(hands[p], c) || exists|k: int|
                0 <= k < buffer.len() && buffer[k].to == p && #[trigger] buffer[k].card == c)),
    decreases buffer.len(),
{
    if buffer.len() > 0 {
        let d = buffer.drop_last();
        lemma_received_effect(hands, d);
        let h = received(hands, d);
        let e = buffer.last();
        assert forall|p: int, c: int|
            0 <= p < NUM_PLAYERS && 0 <= c < 64 implies (#[trigger] has_bit(received(hands, buffer)[p], c) <==> (
            has_bit(hands[p], c) || exists|k: int|
                0 <= k < buffer.len() && buffer[k].to == p && #[trigger] buffer[k].card == c)) by {
            let cur = received(hands, buffer);
            assert(cur == h.update(e.to as int, h[e.to as int] | (1u64 << e.card)));
            lemma_bit_or(h[e.to as int], e.card as u64, c as u64);
            assert(has_bit(h[p], c) <==> (has_bit(hands[p], c) || exists|k: int|
                0 <= k < d.len() && d[k].to == p && #[trigger] d[k].card == c));
            if exists|k: int| 0 <= k < d.len() && d[k].to == p && #[trigger] d[k].card == c {
                let k = choose|k: int| 0 <= k < d.len() && d[k].to == p && #[trigger] d[k].card == c;
                assert(buffer[k] == d[k]);
            }
            if exists|k: int| 0 <= k < buffer.len() && buffer[k].to == p && #[trigger] buffer[k].card == c {
                let k = choose|k: int| 0 <= k < buffer.len() && buffer[k].to == p && #[trigger] buffer[k].card == c;
                if k < d.len() {
                    assert(d[k] == buffer[k]);
                } else {
                    assert(buffer[k] == e);
                }
            }
        }
    }
}

/// Handing the pending cards over keeps every card in exactly one place.
proof fn lemma_received_conserves(hands: Seq<u64>, buffer: Seq<ExchangeBuffer>)
    requires
        hands.len() == NUM_PLAYERS,
        buffer_valid(buffer),
        placed_once(hands, buffer),
    ensures
        placed_once(received(hands, buffer), Seq::<ExchangeBuffer>::empty()),
        received(hands, buffer).len() == NUM_PLAYERS,
        forall|c: int|
            0 <= c < 64 ==> #[trigger] card_placed(received(hands, buffer), Seq::<ExchangeBuffer>::empty(), c)
                == card_placed(hands, buffer, c),
{
    lemma_received_effect(hands, buffer);
    let h = received(hands, buffer);
    let e = Seq::<ExchangeBuffer>::empty();
    assert forall|c: int| 0 <= c < 64 implies #[trigger] card_placed(h, e, c) == card_placed(hands, buffer, c) by {
        if card_placed(hands, buffer, c) {
            if exists|p: int| 0 <= p < NUM_PLAYERS && #[trigger] has_bit(hands[p], c) {
                let p = choose|p: int| 0 <= p < NUM_PLAYERS && #[trigger] has_bit(hands[p], c);
                assert(has_bit(h[p], c));
            } else {
                let k = choose|k: int| 0 <= k < buffer.len() && #[trigger] buffer[k].card == c;
                let p = buffer[k].to as int;
                assert(has_bit(h[p], c));
            }
        }
        if card_placed(h, e, c) {
            let p = choose|p: int| 0 <= p < NUM_PLAYERS && #[trigger] has_bit(h[p], c);
            if !has_bit(hands[p], c) {
                let k = choose|k: int| 0 <= k < buffer.len() && buffer[k].to == p && #[trigger] buffer[k].card == c;
            }
        }
    }
    assert forall|p: int, q: int, c: int|
        0 <= p < NUM_PLAYERS && 0 <= q < NUM_PLAYERS && p != q && 0 <= c < 64 && #[trigger] has_bit(h[p], c)
            implies !#[trigger] has_bit(h[q], c) by {
        if has_bit(h[q], c) {
            if has_bit(hands[p], c) {
                if !has_bit(hands[q], c) {
                    let l = choose|l: int| 0 <= l < buffer.len() && buffer[l].to == q && #[trigger] buffer[l].card == c;
                    assert(!has_bit(hands[p], buffer[l].card as int));
                }
            } else {
                let k = choose|k: int| 0 <= k < buffer.len() && buffer[k].to == p && #[trigger] buffer[k].card == c;
                if has_bit(hands[q], c) {
                    assert(!has_bit(hands[q], buffer[k].card as int));
                } else {
                    let l = choose|l: int| 0 <= l < buffer.len() && buffer[l].to == q && #[trigger] buffer[l].card == c;
                    assert(k != l);
                }
            }
        }
    }
}

proof fn lemma_strength_order_distinct()
    ensures
        strength_order().no_duplicates(),
        forall|k: int| 0 <= k < strength_order().len() ==> #[trigger] strength_order()[k] < 54,
{
    let o = strength_order();
    assert forall|i: int, j: int| 0 <= i < o.len() && 0 <= j < o.len() && i != j implies o[i] != o[j] by {
        if i >= 2 && j >= 2 {
            let a = i - 2;
            let b = j - 2;
            assert((a % 4) * 13 + (12 - a / 4) == o[i] as int);
            assert((b % 4) * 13 + (12 - b / 4) == o[j] as int);
        }
    }
}

/// The cards `cards_held` lists are held, distinct when the order is, and
/// taken from the order.
proof fn lemma_cards_held_props(hand: u64, order: Seq<u8>)
    requires
        order.no_duplicates(),
        forall|k: int| 0 <= k < order.len() ==> #[trigger] order[k] < 64,
    ensures
        cards_held(hand, order).no_duplicates(),
        forall|k: int| 0 <= k < cards_held(hand, order).len() ==> #[trigger] cards_held(hand, order)[k] < 64
            && has_bit(hand, cards_held(hand, order)[k] as int) && order.contains(cards_held(hand, order)[k]),
    decreases order.len(),
{
    if order.len() > 0 {
        let d = order.drop_last();
        assert(d.no_duplicates());
        lemma_cards_held_props(hand, d);
        let prev = cards_held(hand, d);
        let cur = cards_held(hand, order);
        assert forall|k: int| 0 <= k < cur.len() implies #[trigger] cur[k] < 64 && has_bit(hand, cur[k] as int)
            && order.contains(cur[k]) by {
            if k < prev.len() {
                assert(cur[k] == prev[k]);
                let j = choose|j: int| 0 <= j < d.len() && d[j] == prev[k];
                assert(order[j] == prev[k]);
            } else {
                assert(cur[k] == order.last());
                assert(order[order.len() - 1] == order.last());
            }
        }
        assert forall|i: int, j: int| 0 <= i < cur.len() && 0 <= j < cur.len() && i != j implies cur[i] != cur[j] by {
            if i >= prev.len() || j >= prev.len() {
                let other = if i >= prev.len() {
                    j
                } else {
                    i
                };
                if other < prev.len() {
                    assert(cur[other] == prev[other]);
                    let m = choose|m: int| 0 <= m < d.len() && d[m] == prev[other];
                    assert(order[m] == d[m]);
                    assert(order[order.len() - 1] == order.last());
                }
            } else {
                assert(cur[i] == prev[i] && cur[j] == prev[j]);
            }
        }
    }
}

proof fn lemma_strongest_props(hand: u64, count: nat)
    ensures
        strongest_cards(hand, count).no_duplicates(),
        forall|k: int| 0 <= k < strongest_cards(hand, count).len() ==> #[trigger] strongest_cards(hand, count)[k] < 64
            && has_bit(hand, strongest_cards(hand, count)[k] as int),
{
    lemma_strength_order_distinct();
    lemma_cards_held_props(hand, strength_order());
    let all = cards_held(hand, strength_order());
    if !(count == 0 || all.len() <= count) {
        let t = all.take(count as int);
        assert forall|k: int| 0 <= k < t.len() implies #[trigger] t[k] < 64 && has_bit(hand, t[k] as int) by {
            assert(t[k] == all[k]);
        }
        assert forall|i: int, j: int| 0 <= i < t.len() && 0 <= j < t.len() && i != j implies t[i] != t[j] by {
            assert(t[i] == all[i] && t[j] == all[j]);
        }
    }
}

proof fn lemma_set_aside_single(hands: Seq<u64>, buffer: Seq<ExchangeBuffer>, from: usize, to: usize, card: u8)
    ensures
        set_aside(hands, buffer, from, to, card) == set_aside_all(hands, buffer, from, to, seq![card]),
{
    let s = seq![card];
    assert(s.drop_last() =~= Seq::<u8>::empty());
    assert(set_aside_all(hands, buffer, from, to, s.drop_last()) == (hands, buffer));
    assert(s.last() == card);
}

/// A card offered as legal during the exchange is one the player holds.
pub proof fn lemma_exchange_legal_is_held(hand: u64, manager: &ActionManager, i: int)
    requires
        manager.wf(),
        0 <= i < ACTION_SIZE,
        exchange_legal_mask(hand, manager.infos@)[i],
    ensures
        0 < i,
        has_bit(hand, manager.infos@[i].required_cards@[0] as int),
{
    let info = manager.infos@[i];
    assert(info_matches(info, i));
    lemma_action_cards_valid(i);
    let cards = action_cards(i);
    assert(cards.len() == 1);
    let c = cards[0];
    assert(cards.drop_last() =~= Seq::<u8>::empty());
    assert(card_mask(cards.drop_last()) == 0u64);
    assert(info.required_mask == 0u64 | (1u64 << c));
    assert(info.required_cards@[0] == c);
    assert(c < 64 ==> ((hand & (0u64 | (1u64 << c))) == (0u64 | (1u64 << c)) ==> (hand >> (c as u64)) & 1 == 1)) by (bit_vector);
}

/// A round dealt from a shuffled deck has every one of the 54 cards in
/// exactly one hand, and nothing set aside.
pub proof fn lemma_reset_places_every_card_once(s: StateView, deck: Seq<u8>, infos: Seq<ActionInfo>, agent_id: int)
    requires
        is_shuffled_deck(deck),
    ensures
        placed_once(reset_state(s, deck, infos, agent_id).hands, Seq::<ExchangeBuffer>::empty()),
        forall|c: int|
            0 <= c < 64 ==> (#[trigger] card_placed(reset_state(s, deck, infos, agent_id).hands, Seq::<ExchangeBuffer>::empty(), c)
                <==> c < 54),
{
    lemma_deal_partitions(deck);
    let h = reset_state(s, deck, infos, agent_id).hands;
    assert forall|c: int|
        0 <= c < 64 implies (#[trigger] card_placed(h, Seq::<ExchangeBuffer>::empty(), c) <==> c < 54) by {
        assert(dealt_to_someone(deck, c) <==> c < 54);
        if card_placed(h, Seq::<ExchangeBuffer>::empty(), c) {
            let p = choose|p: int| 0 <= p < NUM_PLAYERS && #[trigger] has_bit(h[p], c);
            assert(has_bit(dealt_hand(deck, p), c));
        }
        if dealt_to_someone(deck, c) {
            let p = choose|p: int| 0 <= p < NUM_PLAYERS && #[trigger] has_bit(dealt_hand(deck, p), c);
            assert(has_bit(h[p], c));
        }
    }
    assert forall|p: int, q: int, c: int|
        0 <= p < NUM_PLAYERS && 0 <= q < NUM_PLAYERS && p != q && 0 <= c < 64 && #[trigger] has_bit(h[p], c)
            implies !#[trigger] has_bit(h[q], c) by {
        assert(has_bit(dealt_hand(deck, p), c));
    }
}

/// One turn of the exchange keeps every card in exactly one place and loses
/// none, provided the giver holds the card it hands over: a card is set aside
/// from one hand and, once the exchange completes, lands in exactly one other.
pub proof fn lemma_exchange_conserves_cards(
    s: StateView,
    buffer: Seq<ExchangeBuffer>,
    turn: u8,
    config: RuleConfig,
    manager: &ActionManager,
    action: int,
)
    requires
        manager.wf(),
        0 < action < ACTION_SIZE,
        turn <= 2,
        s.hands.len() == NUM_PLAYERS,
        s.previous_rankings.len() >= 2,
        forall|k: int| 0 <= k < s.previous_rankings.len() ==> #[trigger] s.previous_rankings[k] < NUM_PLAYERS,
        buffer_valid(buffer),
        placed_once(s.hands, buffer),
        has_bit(
            s.hands[(if turn < 2 {
                s.previous_rankings[0]
            } else {
                s.previous_rankings[1]
            }) as int],
            manager.infos@[action].required_cards@[0] as int,
        ),
    ensures
        placed_once(
            exchange_result(s, buffer, turn, config, manager.infos@, action).0.hands,
            exchange_result(s, buffer, turn, config, manager.infos@, action).1,
        ),
        forall|c: int|
            0 <= c < 64 ==> #[trigger] card_placed(
                exchange_result(s, buffer, turn, config, manager.infos@, action).0.hands,
                exchange_result(s, buffer, turn, config, manager.infos@, action).1,
                c,
            ) == card_placed(s.hands, buffer, c),
{
    let infos = manager.infos@;
    lemma_action_cards_valid(action);
    assert(info_matches(infos[action], action));
    let card = infos[action].required_cards@[0];
    assert(card == action_cards(action)[0]);
    let prev = s.previous_rankings;
    let n = prev.len() as int;
    let daifugo = prev[0] as usize;
    let fugo = prev[1] as usize;
    let hinmin = prev[n - 2] as usize;
    let daihinmin = prev[n - 1] as usize;
    let r = exchange_result(s, buffer, turn, config, infos, action);
    let one = seq![card];
    assert(one.no_duplicates());
    if turn < 2 {
        lemma_set_aside_single(s.hands, buffer, daifugo, daihinmin, card);
        lemma_set_aside_all_conserves(s.hands, buffer, daifugo, daihinmin, one);
    } else {
        lemma_set_aside_single(s.hands, buffer, fugo, hinmin, card);
        lemma_set_aside_all_conserves(s.hands, buffer, fugo, hinmin, one);
        let g1 = set_aside(s.hands, buffer, fugo, hinmin, card);
        let c2 = strongest_cards(g1.0[hinmin as int], 1);
        lemma_strongest_props(g1.0[hinmin as int], 1);
        lemma_set_aside_all_conserves(g1.0, g1.1, hinmin, fugo, c2);
        let g2 = set_aside_all(g1.0, g1.1, hinmin, fugo, c2);
        let c3 = strongest_cards(g2.0[daihinmin as int], 2);
        lemma_strongest_props(g2.0[daihinmin as int], 2);
        lemma_set_aside_all_conserves(g2.0, g2.1, daihinmin, daifugo, c3);
        let g3 = set_aside_all(g2.0, g2.1, daihinmin, daifugo, c3);
        lemma_received_conserves(g3.0, g3.1);
        assert forall|c: int| 0 <= c < 64 implies #[trigger] card_placed(r.0.hands, r.1, c) == card_placed(
            s.hands,
            buffer,
            c,
        ) by {
            assert(card_placed(g1.0, g1.1, c) == card_placed(s.hands, buffer, c));
            assert(card_placed(g2.0, g2.1, c) == card_placed(g1.0, g1.1, c));
            assert(card_placed(g3.0, g3.1, c) == card_placed(g2.0, g2.1, c));
        }
    }
}

} // verus!
