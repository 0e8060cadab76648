use vstd::prelude::*;

use rand::seq::SliceRandom;

use crate::action::{
    action_cards, info_matches, lemma_action_cards_valid, ActionInfo, ActionManager, ActionType,
};
use crate::card::{card_of_index, display_of_card, Card};
use crate::bits::{count_ones, has_bit, lemma_popcount_zero, popcount};
use crate::common::{ACTION_SIZE, JOKER_PAIR_ACTION_ID, JOKER_SINGLE_ACTION_ID, NUM_PLAYERS, PASS_ACTION_ID};
use crate::rule::{effects_of, HandEffects, RuleConfig, RuleEvaluator};

verus! {

/// Everything a player can observe of the game, and the bookkeeping of a round.
#[derive(Debug, Clone)]
pub struct RawState {
    /// Each player's hand as a bit set over deck indices.
    pub hands: [u64; NUM_PLAYERS],
    /// The action currently on the field, if any.
    pub current_field_action: Option<u16>,
    pub current_player: usize,
    /// Players in the order they emptied their hands.
    pub finished_order: Vec<u8>,
    /// Bit set of players still holding cards.
    pub alive_players: u8,
    /// The last action of each player.
    pub action_log: [u16; NUM_PLAYERS],
    pub legal_actions_mask: [bool; 462],
    /// Strength is reversed (revolution, possibly flipped by a jack).
    pub is_revolution: bool,
    /// A revolution started by four cards is in force.
    pub is_parmanent_revolution: bool,
    /// Who played the action on the field.
    pub field_owner: Option<usize>,
    /// Bit set of players who passed since the field was last taken.
    pub passed_players: u8,
    /// The finishing order of the previous game, best first.
    pub previous_rankings: Vec<u8>,
    pub exchange_phase: bool,
}

/// A card handed over during the exchange, not yet received.
#[derive(Debug, Clone)]
pub struct ExchangeBuffer {
    pub from: usize,
    pub to: usize,
    pub card: u8,
}

/// The game environment: the table of actions, the state of the round, the
/// pending exchange and the rules in force.
pub struct DaifugoEnv {
    pub agent_id: usize,
    pub action_manager: ActionManager,
    pub state: RawState,
    pub exchange_buffer: Vec<ExchangeBuffer>,
    pub exchange_turn_idx: u8,
    pub evaluator: RuleEvaluator,
}

/// The mathematical content of a `RawState`.
#[verifier::ext_equal]
pub struct StateView {
    pub hands: Seq<u64>,
    pub current_field_action: Option<u16>,
    pub current_player: usize,
    pub finished_order: Seq<u8>,
    pub alive_players: u8,
    pub action_log: Seq<u16>,
    pub legal_actions_mask: Seq<bool>,
    pub is_revolution: bool,
    pub is_parmanent_revolution: bool,
    pub field_owner: Option<usize>,
    pub passed_players: u8,
    pub previous_rankings: Seq<u8>,
    pub exchange_phase: bool,
}

impl View for RawState {
    type V = StateView;

    open spec fn view(&self) -> StateView {
        StateView {
            hands: self.hands@,
            current_field_action: self.current_field_action,
            current_player: self.current_player,
            finished_order: self.finished_order@,
            alive_players: self.alive_players,
            action_log: self.action_log@,
            legal_actions_mask: self.legal_actions_mask@,
            is_revolution: self.is_revolution,
            is_parmanent_revolution: self.is_parmanent_revolution,
            field_owner: self.field_owner,
            passed_players: self.passed_players,
            previous_rankings: self.previous_rankings@,
            exchange_phase: self.exchange_phase,
        }
    }
}

// ---------------------------------------------------------------------------
// Playing cards out of a hand.
// ---------------------------------------------------------------------------
/// Number of jokers in a hand.
pub open spec fn jokers_in(h: u64) -> nat {
    (if has_bit(h, 52) {
        1nat
    } else {
        0nat
    }) + (if has_bit(h, 53) {
        1nat
    } else {
        0nat
    })
}

/// The joker actions need no real cards.
pub open spec fn is_joker_action(action: int) -> bool {
    action == JOKER_SINGLE_ACTION_ID || action == JOKER_PAIR_ACTION_ID
}

/// The hand once the real cards of the action that it holds are taken out.
pub open spec fn hand_without_owned(hand: u64, action: int, info: ActionInfo) -> u64 {
    if is_joker_action(action) {
        hand
    } else {
        hand & !(hand & info.required_mask)
    }
}

/// Jokers the action needs: the joker actions one or two, others one for each
/// required card the hand lacks.
pub open spec fn jokers_needed(hand: u64, action: int, info: ActionInfo) -> nat {
    if action == JOKER_SINGLE_ACTION_ID {
        1
    } else if action == JOKER_PAIR_ACTION_ID {
        2
    } else {
        popcount(info.required_mask & !(hand & info.required_mask))
    }
}

/// The hand holds enough jokers to stand in for what the action lacks.
pub open spec fn can_pay(hand: u64, action: int, info: ActionInfo) -> bool {
    jokers_needed(hand, action, info) <= jokers_in(hand_without_owned(hand, action, info))
}

/// The hand after playing the action: its real cards leave, then jokers make up
/// the shortfall, joker 52 before joker 53.
pub open spec fn hand_after_play(hand: u64, action: int, info: ActionInfo) -> u64 {
    let base = hand_without_owned(hand, action, info);
    let need = jokers_needed(hand, action, info);
    let drop52 = need >= 1 && has_bit(base, 52);
    let b1 = if drop52 {
        base & !(1u64 << 52u64)
    } else {
        base
    };
    let drop53 = has_bit(base, 53) && (if drop52 {
        1nat
    } else {
        0nat
    }) < need;
    if drop53 {
        b1 & !(1u64 << 53u64)
    } else {
        b1
    }
}

/// The state after `player` plays `action`: a pass marks the player as passed;
/// anything else takes the cards out of the player's hand. Either way the
/// action is logged.
pub open spec fn after_apply(s: StateView, player: int, action: int, info: ActionInfo) -> StateView {
    if action == PASS_ACTION_ID {
        StateView {
            passed_players: s.passed_players | (1u8 << (player as u8)),
            action_log: s.action_log.update(player, PASS_ACTION_ID as u16),
            ..s
        }
    } else {
        StateView {
            hands: s.hands.update(player, hand_after_play(s.hands[player], action, info)),
            action_log: s.action_log.update(player, action as u16),
            ..s
        }
    }
}

// ---------------------------------------------------------------------------
// Showing hands.
// ---------------------------------------------------------------------------
/// How the cards of a bit set are shown, in deck order.
pub open spec fn shown_hand(hand: u64) -> Seq<Seq<char>> {
    cards_held(hand, full_deck()).map_values(|c: u8| display_of_card(card_of_index(c as int)))
}

/// The cards held by nobody: the whole deck less the four hands (counted
/// over the first `n` seats).
pub open spec fn unheld_cards(hands: Seq<u64>, n: int) -> u64
    decreases n,
{
    if n <= 0 {
        0x3F_FFFF_FFFF_FFFFu64
    } else {
        unheld_cards(hands, n - 1) & !hands[n - 1]
    }
}

fn shown_cards_of(hand: u64) -> (res: Vec<String>)
    ensures
        res@.map_values(|s: String| s@) == shown_hand(hand),
{
    let mut strs: Vec<String> = Vec::new();
    let ghost order = full_deck();
    let ghost mut held: Seq<u8> = Seq::empty();
    let mut idx: usize = 0;
    while idx < 54
        invariant
            idx <= 54,
            order == full_deck(),
            held == cards_held(hand, order.take(idx as int)),
            strs@.len() == held.len(),
            forall|k: int| 0 <= k < held.len() ==> (#[trigger] strs@[k])@ == display_of_card(card_of_index(held[k] as int)),
        decreases 54 - idx,
    {
        assert(order.take(idx + 1).drop_last() =~= order.take(idx as int));
        assert(order[idx as int] == idx as u8);
        if (hand >> (idx as u64)) & 1 == 1 {
            let shown = if idx < 52 {
                Card::from_index(idx).to_display_string()
            } else if idx == 52 {
                String::from_str("Joker(1)")
            } else {
                String::from_str("Joker(2)")
            };
            strs.push(shown);
            proof {
                held = held.push(idx as u8);
            }
        }
        idx += 1;
        assert(held =~= cards_held(hand, order.take(idx as int)));
    }
    assert(order.take(54) =~= order);
    assert(strs@.map_values(|s: String| s@) =~= shown_hand(hand));
    strs
}

impl RawState {
    /// `player`'s hand shown card by card in deck order, such as `["♠3", "♣5", "Joker(1)"]`.
    pub fn hand_to_strings(&self, player: usize) -> (res: Vec<String>)
        requires
            player < NUM_PLAYERS,
        ensures
            res@.map_values(|s: String| s@) == shown_hand(self.hands@[player as int]),
    {
        shown_cards_of(self.hands[player])
    }

    /// The cards no player holds any more (those already played or set
    /// aside), shown card by card in deck order.
    pub fn used_card_to_string(&self) -> (res: Vec<String>)
        ensures
            res@.map_values(|s: String| s@) == shown_hand(unheld_cards(self.hands@, NUM_PLAYERS as int)),
    {
        assert(1u64 << 54u64 == 0x40_0000_0000_0000u64) by (bit_vector);
        let mut used_card: u64 = (1u64 << 54u64) - 1;
        let mut i: usize = 0;
        while i < NUM_PLAYERS
            invariant
                i <= NUM_PLAYERS,
                used_card == unheld_cards(self.hands@, i as int),
            decreases NUM_PLAYERS - i,
        {
            used_card = used_card & !self.hands[i];
            i += 1;
        }
        shown_cards_of(used_card)
    }

    /// The place at which `player` finished this round (0 for first), if
    /// they have finished.
    pub fn finishing_position(&self, player: u8) -> (res: Option<usize>)
        ensures
            match res {
                Some(k) => {
                    &&& k < self.finished_order@.len()
                    &&& self.finished_order@[k as int] == player
                    &&& forall|j: int| 0 <= j < k ==> self.finished_order@[j] != player
                },
                None => !self.finished_order@.contains(player),
            },
    {
        let mut k: usize = 0;
        while k < self.finished_order.len()
            invariant
                k <= self.finished_order@.len(),
                forall|j: int| 0 <= j < k ==> self.finished_order@[j] != player,
            decreases self.finished_order@.len() - k,
        {
            if self.finished_order[k] == player {
                return Some(k);
            }
            k += 1;
        }
        None
    }

    /// The legal actions, in increasing order.
    pub fn legal_action_ids(&self) -> (res: Vec<u16>)
        ensures
            forall|a: int, b: int| 0 <= a < b < res@.len() ==> res@[a] < res@[b],
            forall|k: int| 0 <= k < res@.len() ==> (#[trigger] res@[k]) < ACTION_SIZE
                && self.legal_actions_mask@[res@[k] as int],
            forall|i: int| 0 <= i < ACTION_SIZE && #[trigger] self.legal_actions_mask@[i]
                ==> res@.contains(i as u16),
    {
        let mut ids: Vec<u16> = Vec::new();
        let mut i: usize = 0;
        while i < ACTION_SIZE
            invariant
                i <= ACTION_SIZE,
                forall|a: int, b: int| 0 <= a < b < ids@.len() ==> ids@[a] < ids@[b],
                forall|k: int| 0 <= k < ids@.len() ==> (#[trigger] ids@[k]) < i
                    && self.legal_actions_mask@[ids@[k] as int],
                forall|j: int| 0 <= j < i && #[trigger] self.legal_actions_mask@[j]
                    ==> ids@.contains(j as u16),
            decreases ACTION_SIZE - i,
        {
            let ghost before = ids@;
            if self.legal_actions_mask[i] {
                ids.push(i as u16);
            }
            proof {
                assert forall|j: int| 0 <= j < i + 1 && #[trigger] self.legal_actions_mask@[j]
                    implies ids@.contains(j as u16) by {
                    if j == i {
                        assert(ids@[ids@.len() - 1] == i as u16);
                    } else {
                        assert(before.contains(j as u16));
                        let w = choose|w: int| 0 <= w < before.len() && before[w] == j as u16;
                        assert(ids@[w] == before[w]);
                    }
                }
            }
            i += 1;
        }
        ids
    }
}

// ---------------------------------------------------------------------------
// Legal actions.
// ---------------------------------------------------------------------------
/// Whether action `i` is legal for the current player. Passing is legal only
/// when something is on the field. A joker action needs that many jokers and
/// a field it beats. Any other action is legal when the hand holds at least
/// one of its cards, jokers cover the rest, it beats the field (if any), and,
/// with the spade-three rule, the lone three of spades is not played from thin air.
pub open spec fn legal_at(s: StateView, config: RuleConfig, infos: Seq<ActionInfo>, i: int) -> bool {
    let hand = s.hands[s.current_player as int];
    let jokers = jokers_in(hand);
    let info = infos[i];
    let beats_field = match s.current_field_action {
        Some(f) => beats(config, s.is_revolution, info, infos[f as int]),
        None => true,
    };
    if i == PASS_ACTION_ID {
        s.current_field_action is Some
    } else if i == JOKER_SINGLE_ACTION_ID {
        jokers >= 1 && s.current_field_action is Some && beats_field
    } else if i == JOKER_PAIR_ACTION_ID {
        jokers >= 2 && s.current_field_action is Some && beats_field
    } else {
        &&& !(config.spade_3_beat && info.required_mask == 1 && hand & 1 == 0)
        &&& popcount(info.required_mask & !hand) <= jokers
        &&& popcount(hand & info.required_mask) != 0
        &&& beats_field
    }
}

/// The legal actions of the current player.
pub open spec fn legal_mask(s: StateView, config: RuleConfig, infos: Seq<ActionInfo>) -> Seq<bool> {
    Seq::new(ACTION_SIZE as nat, |i: int| legal_at(s, config, infos, i))
}

pub open spec fn with_hands(s: StateView, hands: Seq<u64>) -> StateView {
    StateView { hands, ..s }
}

pub open spec fn exchange_done(s: StateView) -> StateView {
    StateView { exchange_phase: false, ..s }
}

pub open spec fn with_legal_mask(s: StateView, mask: Seq<bool>) -> StateView {
    StateView { legal_actions_mask: mask, ..s }
}

/// During the exchange a player may hand over any single card they hold
/// (a single joker included).
pub open spec fn exchange_legal_mask(hand: u64, infos: Seq<ActionInfo>) -> Seq<bool> {
    Seq::new(
        ACTION_SIZE as nat,
        |i: int|
            i != PASS_ACTION_ID && infos[i].action_type == ActionType::Group && infos[i].size == 1
                && hand & infos[i].required_mask == infos[i].required_mask,
    )
}

// ---------------------------------------------------------------------------
// The card exchange.
// ---------------------------------------------------------------------------
/// The deck indices from strongest to weakest: the two jokers, then the
/// ranks from two down to three, each rank in suit order.
pub open spec fn strength_order() -> Seq<u8> {
    Seq::new(
        54,
        |i: int|
            if i == 0 {
                52u8
            } else if i == 1 {
                53u8
            } else {
                (((i - 2) % 4) * 13 + (12 - (i - 2) / 4)) as u8
            },
    )
}

/// The cards of `order` that the hand holds, in the order of `order`.
pub open spec fn cards_held(hand: u64, order: Seq<u8>) -> Seq<u8>
    decreases order.len(),
{
    if order.len() == 0 {
        Seq::<u8>::empty()
    } else {
        cards_held(hand, order.drop_last()) + (if has_bit(hand, order.last() as int) {
            seq![order.last()]
        } else {
            Seq::<u8>::empty()
        })
    }
}

/// The `count` strongest cards of the hand (all of them when it holds fewer,
/// or when `count` is zero).
pub open spec fn strongest_cards(hand: u64, count: nat) -> Seq<u8> {
    let all = cards_held(hand, strength_order());
    if count == 0 || all.len() <= count {
        all
    } else {
        all.take(count as int)
    }
}

/// Hands and pending exchange after `from` sets `card` aside for `to`.
pub open spec fn set_aside(
    hands: Seq<u64>,
    buffer: Seq<ExchangeBuffer>,
    from: usize,
    to: usize,
    card: u8,
) -> (Seq<u64>, Seq<ExchangeBuffer>) {
    (
        hands.update(from as int, hands[from as int] & !(1u64 << card)),
        buffer.push(ExchangeBuffer { from, to, card }),
    )
}

/// Hands and pending exchange after `from` sets each of `cards` aside for `to`, in order.
pub open spec fn set_aside_all(
    hands: Seq<u64>,
    buffer: Seq<ExchangeBuffer>,
    from: usize,
    to: usize,
    cards: Seq<u8>,
) -> (Seq<u64>, Seq<ExchangeBuffer>)
    decreases cards.len(),
{
    if cards.len() == 0 {
        (hands, buffer)
    } else {
        let prev = set_aside_all(hands, buffer, from, to, cards.drop_last());
        set_aside(prev.0, prev.1, from, to, cards.last())
    }
}

/// Every pending card goes to a seat and is a bit of a hand.
pub open spec fn buffer_valid(buffer: Seq<ExchangeBuffer>) -> bool {
    forall|k: int| 0 <= k < buffer.len() ==> (#[trigger] buffer[k]).to < NUM_PLAYERS && buffer[k].card < 64
}

/// The hands once every pending card reaches its receiver.
pub open spec fn received(hands: Seq<u64>, buffer: Seq<ExchangeBuffer>) -> Seq<u64>
    decreases buffer.len(),
{
    if buffer.len() == 0 {
        hands
    } else {
        let h = received(hands, buffer.drop_last());
        let e = buffer.last();
        h.update(e.to as int, h[e.to as int] | (1u64 << e.card))
    }
}

/// Listing the held cards of two orders one after the other is listing them
/// over the joined order.
pub proof fn lemma_cards_held_append(hand: u64, a: Seq<u8>, b: Seq<u8>)
    ensures
        cards_held(hand, a + b) == cards_held(hand, a) + cards_held(hand, b),
    decreases b.len(),
{
    if b.len() == 0 {
        assert(a + b =~= a);
        assert(cards_held(hand, a) + cards_held(hand, b) =~= cards_held(hand, a));
    } else {
        lemma_cards_held_append(hand, a, b.drop_last());
        assert((a + b).drop_last() =~= a + b.drop_last());
        assert(cards_held(hand, a + b) =~= cards_held(hand, a) + cards_held(hand, b));
    }
}

/// Every card listed by `cards_held` comes from the order.
pub proof fn lemma_cards_held_from(hand: u64, order: Seq<u8>)
    ensures
        forall|k: int| 0 <= k < cards_held(hand, order).len() ==> order.contains(#[trigger] cards_held(hand, order)[k]),
        cards_held(hand, order).len() <= order.len(),
    decreases order.len(),
{
    if order.len() > 0 {
        lemma_cards_held_from(hand, order.drop_last());
        let prev = cards_held(hand, order.drop_last());
        assert forall|k: int| 0 <= k < cards_held(hand, order).len() implies order.contains(#[trigger] cards_held(hand, order)[k]) by {
            if k < prev.len() {
                assert(order.drop_last().contains(prev[k]));
                let j = choose|j: int| 0 <= j < order.drop_last().len() && order.drop_last()[j] == prev[k];
                assert(order[j] == prev[k]);
            } else {
                assert(order[order.len() - 1] == order.last());
            }
        }
    }
}

// ---------------------------------------------------------------------------
// Dealing and whole turns.
// ---------------------------------------------------------------------------
/// The hand player `p` receives when `deck` is dealt round the table,
/// card `i` going to seat `i % 4`.
pub open spec fn dealt_hand(deck: Seq<u8>, p: int) -> u64
    decreases deck.len(),
{
    if deck.len() == 0 {
        0
    } else {
        let h = dealt_hand(deck.drop_last(), p);
        if (deck.len() - 1) % 4 == p {
            h | (1u64 << deck.last())
        } else {
            h
        }
    }
}

/// The 54 deck indices in order.
pub open spec fn full_deck() -> Seq<u8> {
    Seq::new(54, |i: int| i as u8)
}

/// `deck` is an ordering of the whole deck.
pub open spec fn is_shuffled_deck(deck: Seq<u8>) -> bool {
    deck.to_multiset() == full_deck().to_multiset()
}

/// The state at the start of a round dealt from `deck`: fresh hands, an
/// empty field, everyone alive, the previous ranking kept; when there is a
/// previous ranking the exchange starts and its winner leads. The legal
/// actions are the agent's single cards.
pub open spec fn reset_state(s: StateView, deck: Seq<u8>, infos: Seq<ActionInfo>, agent_id: int) -> StateView {
    let hands = Seq::new(NUM_PLAYERS as nat, |p: int| dealt_hand(deck, p));
    StateView {
        hands,
        current_field_action: None,
        current_player: if s.previous_rankings.len() == 0 {
            0
        } else {
            s.previous_rankings[0] as usize
        },
        finished_order: Seq::<u8>::empty(),
        alive_players: 15,
        action_log: Seq::new(NUM_PLAYERS as nat, |p: int| 0u16),
        legal_actions_mask: exchange_legal_mask(hands[agent_id], infos),
        is_revolution: false,
        is_parmanent_revolution: false,
        field_owner: None,
        passed_players: 0,
        previous_rankings: s.previous_rankings,
        exchange_phase: s.previous_rankings.len() != 0,
    }
}

/// The state after the current player's action, its effects on the field
/// and the check whether it finished them.
pub open spec fn turn_core(s: StateView, config: RuleConfig, infos: Seq<ActionInfo>, action: int) -> StateView {
    let player = s.current_player as int;
    let info = infos[action];
    let effects = effects_of(config, info);
    after_finish(after_field(after_apply(s, player, action, info), action, info, effects), player)
}

/// The state after a whole move of the current player, the round not being
/// over: the turn moves on and the new player's legal actions are computed.
pub open spec fn after_turn(s: StateView, config: RuleConfig, infos: Seq<ActionInfo>, action: int) -> StateView {
    let player = s.current_player as int;
    let effects = effects_of(config, infos[action]);
    let resolved = after_resolve(turn_core(s, config, infos, action), effects, player);
    with_legal_mask(resolved, legal_mask(resolved, config, infos))
}

/// The state as handed back at the end of a round: nothing is legal any more.
pub open spec fn final_observation(s: StateView) -> StateView {
    with_legal_mask(s, Seq::new(ACTION_SIZE as nat, |i: int| false))
}

/// The next player can be found after the current player's move.
pub open spec fn turn_can_resolve(s: StateView, config: RuleConfig, infos: Seq<ActionInfo>, action: int) -> bool {
    can_resolve(
        turn_core(s, config, infos, action),
        effects_of(config, infos[action]),
        s.current_player as int,
    )
}

/// The current player can pay for `action`.
pub open spec fn payable(s: StateView, infos: Seq<ActionInfo>, action: int) -> bool {
    action != PASS_ACTION_ID ==> can_pay(s.hands[s.current_player as int], action, infos[action])
}

/// The hands, pending exchange and turn counter after the current giver of
/// the exchange hands over the card of `action`. The winner of the previous
/// round gives two cards to its loser, the runner-up one to the second-last;
/// then the second-last and the loser give back their strongest one and two
/// cards, every card changes hands, and the loser leads.
pub open spec fn exchange_result(
    s: StateView,
    buffer: Seq<ExchangeBuffer>,
    turn: u8,
    config: RuleConfig,
    infos: Seq<ActionInfo>,
    action: int,
) -> (StateView, Seq<ExchangeBuffer>, u8) {
    let prev = s.previous_rankings;
    let n = prev.len() as int;
    let daifugo = prev[0] as usize;
    let fugo = prev[1] as usize;
    let hinmin = prev[n - 2] as usize;
    let daihinmin = prev[n - 1] as usize;
    let card = infos[action].required_cards@[0];
    if turn < 2 {
        let given = set_aside(s.hands, buffer, daifugo, daihinmin, card);
        let next = if turn == 0 {
            daifugo
        } else {
            fugo
        };
        (
            with_current_player(
                with_legal_mask(with_hands(s, given.0), exchange_legal_mask(given.0[next as int], infos)),
                next,
            ),
            given.1,
            (turn + 1) as u8,
        )
    } else {
        let g1 = set_aside(s.hands, buffer, fugo, hinmin, card);
        let g2 = set_aside_all(g1.0, g1.1, hinmin, fugo, strongest_cards(g1.0[hinmin as int], 1));
        let g3 = set_aside_all(g2.0, g2.1, daihinmin, daifugo, strongest_cards(g2.0[daihinmin as int], 2));
        let s4 = with_current_player(exchange_done(with_hands(s, received(g3.0, g3.1))), daihinmin);
        (with_legal_mask(s4, legal_mask(s4, config, infos)), Seq::<ExchangeBuffer>::empty(), 0)
    }
}

/// The next player after a resolved turn is a seat.
proof fn lemma_next_alive_range(s: StateView)
    requires
        s.current_player < NUM_PLAYERS,
    ensures
        next_alive(s.current_player as int, s.alive_players) < NUM_PLAYERS,
        next_alive(s.current_player as int, s.alive_players) >= 0,
{
}

/// With two or more players alive (and no seat beyond the fourth), someone is alive.
proof fn lemma_many_alive(alive: u8)
    requires
        alive < 16,
        count_alive(alive) > 1,
    ensures
        anyone_alive(alive),
{
    lemma_popcount_zero(alive as u64);
    assert(alive < 16 ==> alive & 15 == alive) by (bit_vector);
}

/// Randomly reorders the deck.
#[verifier::external_body]
fn shuffle_deck(deck: &mut Vec<u8>)
    ensures
        final(deck)@.to_multiset() == old(deck)@.to_multiset(),
{
    deck.shuffle(&mut rand::rng());
}

fn copy_u8s(v: &Vec<u8>) -> (res: Vec<u8>)
    ensures
        res@ == v@,
{
    let mut res: Vec<u8> = Vec::new();
    let mut i: usize = 0;
    while i < v.len()
        invariant
            i <= v@.len(),
            res@ == v@.take(i as int),
        decreases v@.len() - i,
    {
        res.push(v[i]);
        i += 1;
        assert(res@ =~= v@.take(i as int));
    }
    assert(v@.take(v@.len() as int) =~= v@);
    res
}

// ---------------------------------------------------------------------------
// Turn order and the end of the round.
// ---------------------------------------------------------------------------
/// Player `p` (below 8) is still holding cards according to the bit set `alive`.
pub open spec fn alive_bit(alive: u8, p: int) -> bool {
    (alive >> (p as u8)) & 1 == 1
}

/// Number of players in the bit set.
pub open spec fn count_alive(alive: u8) -> nat {
    popcount(alive as u64)
}

/// The state after `player`'s move, if it emptied their hand for the first
/// time: they join the finishing order, leave the alive set, and their last
/// action reads as a pass.
pub open spec fn after_finish(s: StateView, player: int) -> StateView {
    if s.hands[player] != 0 || s.finished_order.contains(player as u8) {
        s
    } else {
        StateView {
            finished_order: s.finished_order.push(player as u8),
            alive_players: s.alive_players & !(1u8 << (player as u8)),
            action_log: s.action_log.update(player, PASS_ACTION_ID as u16),
            ..s
        }
    }
}

/// The state of a new environment, before any round is dealt.
pub open spec fn initial_state() -> StateView {
    StateView {
        hands: Seq::new(NUM_PLAYERS as nat, |p: int| 0u64),
        current_field_action: None,
        current_player: 0,
        finished_order: Seq::<u8>::empty(),
        alive_players: 15,
        action_log: Seq::new(NUM_PLAYERS as nat, |p: int| 0u16),
        legal_actions_mask: Seq::new(ACTION_SIZE as nat, |i: int| false),
        is_revolution: false,
        is_parmanent_revolution: false,
        field_owner: None,
        passed_players: 0,
        previous_rankings: Seq::<u8>::empty(),
        exchange_phase: false,
    }
}

impl RawState {
    /// Seats, the action on the field and the alive set are in range.
    pub open spec fn wf(&self) -> bool {
        &&& self.current_player < NUM_PLAYERS
        &&& (self.current_field_action matches Some(f) ==> f < ACTION_SIZE)
        &&& (self.field_owner matches Some(o) ==> o < NUM_PLAYERS)
        &&& self.alive_players < 16
        &&& forall|k: int| 0 <= k < self.finished_order@.len() ==> #[trigger] self.finished_order@[k] < NUM_PLAYERS
        &&& forall|k: int| 0 <= k < self.previous_rankings@.len() ==> #[trigger] self.previous_rankings@[k] < NUM_PLAYERS
    }
}

/// The state with the turn given to `p`.
pub open spec fn with_current_player(s: StateView, p: usize) -> StateView {
    StateView { current_player: p, ..s }
}

/// The next seat after `cur` (cyclically, `cur` itself last) whose player is alive.
pub open spec fn next_alive(cur: int, alive: u8) -> int {
    if alive_bit(alive, (cur + 1) % 4) {
        (cur + 1) % 4
    } else if alive_bit(alive, (cur + 2) % 4) {
        (cur + 2) % 4
    } else if alive_bit(alive, (cur + 3) % 4) {
        (cur + 3) % 4
    } else {
        cur % 4
    }
}

/// Some seat is alive.
pub open spec fn anyone_alive(alive: u8) -> bool {
    alive & 15 != 0
}

/// The turn passes on unless an eight cut it and its player still holds cards.
pub open spec fn after_resolve(s: StateView, effects: HandEffects, player: int) -> StateView {
    if effects.eight_cut && alive_bit(s.alive_players, player) {
        s
    } else {
        with_current_player(s, next_alive(s.current_player as int, s.alive_players) as usize)
    }
}

/// `after_resolve` can find a next player.
pub open spec fn can_resolve(s: StateView, effects: HandEffects, player: int) -> bool {
    !(effects.eight_cut && alive_bit(s.alive_players, player)) ==> anyone_alive(s.alive_players)
}

/// The lowest seat still alive.
pub open spec fn first_alive(alive: u8) -> Option<int> {
    if alive_bit(alive, 0) {
        Some(0)
    } else if alive_bit(alive, 1) {
        Some(1)
    } else if alive_bit(alive, 2) {
        Some(2)
    } else if alive_bit(alive, 3) {
        Some(3)
    } else {
        None
    }
}

/// The state once the round is over: the last player standing (the lowest
/// alive seat) finishes last, and the finishing order becomes the ranking for
/// the next round.
pub open spec fn after_finalize(s: StateView) -> StateView {
    let order = match first_alive(s.alive_players) {
        Some(p) => s.finished_order.push(p as u8),
        None => s.finished_order,
    };
    StateView {
        finished_order: order,
        alive_players: if first_alive(s.alive_players) is Some {
            0
        } else {
            s.alive_players
        },
        previous_rankings: order,
        ..s
    }
}

// ---------------------------------------------------------------------------
// The field.
// ---------------------------------------------------------------------------
/// Whether `action` may be played on top of `field`: same size and type; on a
/// lone joker only the three of spades (when that rule is on); jokers beat
/// everything else; otherwise strictly stronger, or strictly weaker during a revolution.
pub open spec fn beats(config: RuleConfig, is_revolution: bool, action: ActionInfo, field: ActionInfo) -> bool {
    if action.size != field.size {
        false
    } else if action.action_type != field.action_type {
        false
    } else if field.id == JOKER_SINGLE_ACTION_ID {
        config.spade_3_beat && action.required_mask == 1
    } else if action.id == JOKER_SINGLE_ACTION_ID || action.id == JOKER_PAIR_ACTION_ID {
        true
    } else if !is_revolution {
        action.strength > field.strength
    } else {
        action.strength < field.strength
    }
}

/// The field is cleared: nothing on it, nobody owns it, no passes, and a
/// jack's reversal ends.
pub open spec fn cleared_field(s: StateView) -> StateView {
    StateView {
        current_field_action: None,
        field_owner: None,
        passed_players: 0,
        is_revolution: s.is_parmanent_revolution,
        ..s
    }
}

/// The field after the current player plays `action`. A pass clears the
/// field once every alive player other than the field's (alive) owner has
/// passed. Any other action takes the field; four cards flip the lasting
/// revolution, a jack flips strength for this field, an eight clears it.
pub open spec fn after_field(s: StateView, action: int, info: ActionInfo, effects: HandEffects) -> StateView {
    if action == PASS_ACTION_ID {
        let alive_count = count_alive(s.alive_players);
        let pass_count = count_alive(s.passed_players & s.alive_players);
        let owner_alive = match s.field_owner {
            Some(o) => alive_bit(s.alive_players, o as int),
            None => false,
        };
        let required = if owner_alive {
            alive_count - 1
        } else {
            alive_count as int
        };
        if pass_count >= required {
            cleared_field(s)
        } else {
            s
        }
    } else {
        let perm = if info.is_revolution_trigger {
            !s.is_parmanent_revolution
        } else {
            s.is_parmanent_revolution
        };
        let rev1 = if info.is_revolution_trigger {
            perm
        } else {
            s.is_revolution
        };
        let rev2 = if effects.eleven_back {
            !rev1
        } else {
            rev1
        };
        let taken = StateView {
            current_field_action: Some(action as u16),
            field_owner: Some(s.current_player),
            passed_players: 0,
            is_parmanent_revolution: perm,
            is_revolution: rev2,
            ..s
        };
        if effects.eight_cut {
            cleared_field(taken)
        } else {
            taken
        }
    }
}

/// The lowest seat still alive, scanning seats in order.
fn first_alive_seat(alive: u8) -> (res: Option<usize>)
    ensures
        res == (match first_alive(alive) {
            Some(p) => Some(p as usize),
            None => None::<usize>,
        }),
{
    let mut player: usize = 0;
    while player < NUM_PLAYERS
        invariant
            player <= NUM_PLAYERS,
            forall|j: int| 0 <= j < player ==> !alive_bit(alive, j),
        decreases NUM_PLAYERS - player,
    {
        if (alive >> (player as u8)) & 1 == 1 {
            return Some(player);
        }
        player += 1;
    }
    None
}

fn contains_u8(v: &Vec<u8>, x: u8) -> (res: bool)
    ensures
        res == v@.contains(x),
{
    let mut i: usize = 0;
    while i < v.len()
        invariant
            i <= v@.len(),
            forall|j: int| 0 <= j < i ==> v@[j] != x,
        decreases v@.len() - i,
    {
        if v[i] == x {
            return true;
        }
        i += 1;
    }
    false
}

impl DaifugoEnv {
    /// Records that `player` has finished if their hand just became empty.
    fn update_finish(&mut self, player: usize)
        requires
            player < NUM_PLAYERS,
        ensures
            final(self).state@ =~= after_finish(old(self).state@, player as int),
            final(self).same_setup(old(self)),
            final(self).exchange_buffer@ == old(self).exchange_buffer@,
            final(self).exchange_turn_idx == old(self).exchange_turn_idx,
    {
        if self.state.hands[player] != 0 {
            return ;
        }
        if contains_u8(&self.state.finished_order, player as u8) {
            return ;
        }
        self.state.finished_order.push(player as u8);
        self.state.alive_players = self.state.alive_players & !(1u8 << (player as u8));
        self.state.action_log[player] = PASS_ACTION_ID as u16;
    }

    /// The round is over when at most one player still holds cards.
    pub fn check_done(&self) -> (res: bool)
        ensures
            res == (count_alive(self.state.alive_players) <= 1),
    {
        count_ones(self.state.alive_players as u64) <= 1
    }

    /// Moves the turn to the next alive seat.
    fn advance_player(&mut self)
        requires
            old(self).state.current_player < usize::MAX,
            anyone_alive(old(self).state.alive_players),
        ensures
            final(self).state@ =~= with_current_player(
                old(self).state@,
                next_alive(old(self).state.current_player as int, old(self).state.alive_players)
                    as usize,
            ),
            final(self).same_setup(old(self)),
            final(self).exchange_buffer@ == old(self).exchange_buffer@,
            final(self).exchange_turn_idx == old(self).exchange_turn_idx,
    {
        let ghost cur = self.state.current_player as int;
        let alive = self.state.alive_players;
        assert(anyone_alive(alive) ==> alive_bit(alive, 0) || alive_bit(alive, 1) || alive_bit(
            alive,
            2,
        ) || alive_bit(alive, 3)) by (bit_vector);
        let mut k: usize = 0;
        while k < NUM_PLAYERS
            invariant
                k <= NUM_PLAYERS,
                k == 0 ==> self.state.current_player == cur,
                k > 0 ==> self.state.current_player == (cur + k) % 4,
                alive == self.state.alive_players,
                0 <= cur < usize::MAX,
                cur == old(self).state.current_player,
                alive_bit(alive, 0) || alive_bit(alive, 1) || alive_bit(alive, 2) || alive_bit(
                    alive,
                    3,
                ),
                forall|j: int|
                    #![trigger alive_bit(alive, (cur + j) % 4)]
                    1 <= j <= k ==> !alive_bit(alive, (cur + j) % 4),
                self.state@ =~= with_current_player(old(self).state@, self.state.current_player),
                self.same_setup(old(self)),
                self.exchange_buffer@ == old(self).exchange_buffer@,
                self.exchange_turn_idx == old(self).exchange_turn_idx,
            decreases NUM_PLAYERS - k,
        {
            self.state.current_player = (self.state.current_player + 1) % NUM_PLAYERS;
            let a = (self.state.alive_players >> (self.state.current_player as u8)) & 1;
            if a == 1 {
                assert(alive_bit(alive, self.state.current_player as int));
                assert(k == 0 ==> self.state.current_player == (cur + 1) % 4);
                assert(k == 1 ==> self.state.current_player == (cur + 2) % 4);
                assert(k == 2 ==> self.state.current_player == (cur + 3) % 4);
                assert(k == 3 ==> self.state.current_player == cur % 4);
                assert(k >= 1 ==> !alive_bit(alive, (cur + 1) % 4));
                assert(k >= 2 ==> !alive_bit(alive, (cur + 2) % 4));
                assert(k >= 3 ==> !alive_bit(alive, (cur + 3) % 4));
                assert(self.state.current_player == next_alive(cur, alive));
                return ;
            }
            assert(!alive_bit(alive, (cur + k + 1) % 4));
            k += 1;
        }
        assert(!alive_bit(alive, (cur + 1) % 4) && !alive_bit(alive, (cur + 2) % 4) && !alive_bit(
            alive,
            (cur + 3) % 4,
        ) && !alive_bit(alive, (cur + 4) % 4));
        assert(false);
    }

    /// Passes the turn on after `current_player`'s move, unless an eight cut
    /// and that player still holds cards (then they lead again).
    pub fn resolve_next_turn(&mut self, effects: &HandEffects, current_player: usize)
        requires
            current_player < 8,
            old(self).state.current_player < usize::MAX,
            can_resolve(old(self).state@, *effects, current_player as int),
        ensures
            final(self).state@ =~= after_resolve(old(self).state@, *effects, current_player as int),
            final(self).same_setup(old(self)),
            final(self).exchange_buffer@ == old(self).exchange_buffer@,
            final(self).exchange_turn_idx == old(self).exchange_turn_idx,
    {
        let alive = self.state.alive_players;
        let cp = current_player as u8;
        assert(((alive >> cp) & 1 == 0) == !((alive >> cp) & 1 == 1)) by (bit_vector);
        let player_cleared = (alive >> cp) & 1 == 0;
        if effects.eight_cut && !player_cleared {
            return ;
        }
        self.advance_player();
    }

    /// Ends the round: the last player standing finishes, and the finishing
    /// order is kept as the ranking for the next round.
    fn finalize_last_player(&mut self)
        ensures
            final(self).state@ =~= after_finalize(old(self).state@),
            final(self).same_setup(old(self)),
            final(self).exchange_buffer@ == old(self).exchange_buffer@,
            final(self).exchange_turn_idx == old(self).exchange_turn_idx,
    {
        if let Some(player) = first_alive_seat(self.state.alive_players) {
            self.state.finished_order.push(player as u8);
            self.state.alive_players = 0;
        }
        self.state.previous_rankings = copy_u8s(&self.state.finished_order);
    }

    /// Marks the single cards `player` holds as the legal actions (for the exchange).
    fn update_exchange_legal_actions(&mut self, player: usize)
        requires
            player < NUM_PLAYERS,
            old(self).action_manager.wf(),
        ensures
            final(self).state@ =~= with_legal_mask(
                old(self).state@,
                exchange_legal_mask(old(self).state.hands[player as int], old(self).action_manager.infos@),
            ),
            final(self).same_setup(old(self)),
            final(self).exchange_buffer@ == old(self).exchange_buffer@,
            final(self).exchange_turn_idx == old(self).exchange_turn_idx,
    {
        let mut mask: [bool; 462] = [false; 462];
        let hand = self.state.hands[player];
        let ghost infos = self.action_manager.infos@;
        let mut i: usize = 0;
        while i < ACTION_SIZE
            invariant
                i <= ACTION_SIZE,
                self.action_manager.wf(),
                infos == self.action_manager.infos@,
                forall|k: int| 0 <= k < i ==> mask@[k] == exchange_legal_mask(hand, infos)[k],
                forall|k: int| i <= k < ACTION_SIZE ==> mask@[k] == false,
            decreases ACTION_SIZE - i,
        {
            let info = &self.action_manager.infos[i];
            if info.id != 0 && info.action_type == ActionType::Group && info.size == 1 {
                let owned = hand & info.required_mask;
                if owned == info.required_mask {
                    mask[info.id] = true;
                }
            }
            i += 1;
        }
        assert(mask@ =~= exchange_legal_mask(hand, infos));
        self.state.legal_actions_mask = mask;
    }

    /// Recomputes the legal actions of the current player.
    fn update_legal_actions(&mut self)
        requires
            old(self).state.current_player < NUM_PLAYERS,
            old(self).action_manager.wf(),
            (old(self).state.current_field_action matches Some(f) ==> f < ACTION_SIZE),
        ensures
            final(self).state@ =~= with_legal_mask(
                old(self).state@,
                legal_mask(old(self).state@, old(self).evaluator.config, old(self).action_manager.infos@),
            ),
            final(self).same_setup(old(self)),
            final(self).exchange_buffer@ == old(self).exchange_buffer@,
            final(self).exchange_turn_idx == old(self).exchange_turn_idx,
    {
        let ghost s = self.state@;
        let ghost infos = self.action_manager.infos@;
        let ghost config = self.evaluator.config;
        let mut mask: [bool; 462] = [false; 462];
        let player = self.state.current_player;
        let hand = self.state.hands[player];
        assert(((hand >> 52u64) & 1) == 1 || ((hand >> 52u64) & 1) == 0) by (bit_vector);
        assert(((hand >> 53u64) & 1) == 1 || ((hand >> 53u64) & 1) == 0) by (bit_vector);
        let joker_count: u64 = ((hand >> 52u64) & 1) + ((hand >> 53u64) & 1);
        assert(1u64 << 0u64 == 1) by (bit_vector);
        if self.state.current_field_action.is_some() {
            mask[0] = true;
        }
        let mut i: usize = 1;
        while i < ACTION_SIZE
            invariant
                1 <= i <= ACTION_SIZE,
                self.action_manager.wf(),
                s == self.state@,
                infos == self.action_manager.infos@,
                config == self.evaluator.config,
                player == s.current_player,
                player < NUM_PLAYERS,
                hand == s.hands[player as int],
                joker_count == jokers_in(hand),
                (s.current_field_action matches Some(f) ==> f < ACTION_SIZE),
                1u64 << 0u64 == 1,
                forall|k: int| 0 <= k < i ==> mask@[k] == legal_mask(s, config, infos)[k],
            decreases ACTION_SIZE - i,
        {
            let info = &self.action_manager.infos[i];
            let beats_field = if let Some(field_action) = self.state.current_field_action {
                let field_info = &self.action_manager.infos[field_action as usize];
                self.can_beat(info, field_info)
            } else {
                true
            };
            let legal = if info.id == JOKER_SINGLE_ACTION_ID {
                joker_count >= 1 && self.state.current_field_action.is_some() && beats_field
            } else if info.id == JOKER_PAIR_ACTION_ID {
                joker_count >= 2 && self.state.current_field_action.is_some() && beats_field
            } else if self.evaluator.config.spade_3_beat && info.required_mask == 1u64 << 0u64 && (
            hand & (1u64 << 0u64)) == 0 {
                false
            } else {
                let missing = info.required_mask & !hand;
                if count_ones(missing) > joker_count as u32 {
                    false
                } else {
                    let owned_real_cards = hand & info.required_mask;
                    if count_ones(owned_real_cards) == 0 {
                        false
                    } else {
                        beats_field
                    }
                }
            };
            mask[i] = legal;
            i += 1;
        }
        assert(mask@ =~= legal_mask(s, config, infos));
        self.state.legal_actions_mask = mask;
    }

    /// The `count` strongest cards in `player`'s hand, strongest first.
    fn extract_strongest_cards(&self, player: usize, count: usize) -> (res: Vec<u8>)
        requires
            player < NUM_PLAYERS,
        ensures
            res@ == strongest_cards(self.state.hands[player as int], count as nat),
    {
        let hand = self.state.hands[player];
        let mut result: Vec<u8> = Vec::with_capacity(count);
        let ghost order = strength_order();
        let mut pos: usize = 0;
        while pos < 54
            invariant
                pos <= 54,
                order == strength_order(),
                player < NUM_PLAYERS,
                hand == self.state.hands[player as int],
                result@ == cards_held(hand, order.take(pos as int)),
                count == 0 || result@.len() < count,
            decreases 54 - pos,
        {
            let card: u8 = if pos < 2 {
                (52 + pos) as u8
            } else {
                let j = pos - 2;
                let rank = 12 - j / 4;
                let suit = j % 4;
                (suit * 13 + rank) as u8
            };
            assert(card == order[pos as int]);
            assert(order.take(pos + 1).drop_last() =~= order.take(pos as int));
            if (hand >> (card as u64)) & 1 == 1 {
                result.push(card);
                if result.len() == count {
                    proof {
                        lemma_cards_held_append(hand, order.take(pos + 1), order.skip(pos + 1));
                        assert(order.take(pos + 1) + order.skip(pos + 1) =~= order);
                        assert(cards_held(hand, order).take(count as int) =~= result@);
                        assert(cards_held(hand, order).len() >= count);
                        if cards_held(hand, order).len() <= count {
                            assert(cards_held(hand, order) =~= cards_held(hand, order).take(count as int));
                        }
                    }
                    return result;
                }
            }
            assert(result@ =~= cards_held(hand, order.take(pos + 1)));
            pos += 1;
        }
        assert(order.take(54) =~= order);
        result
    }

    /// `from` sets aside the card of `action` for `to`.
    fn exchange_select(&mut self, from: usize, to: usize, action: usize)
        requires
            from < NUM_PLAYERS,
            action < old(self).action_manager.infos@.len(),
            old(self).action_manager.infos@[action as int].required_cards@[0] < 64,
        ensures
            (final(self).state.hands@, final(self).exchange_buffer@) == set_aside(
                old(self).state.hands@,
                old(self).exchange_buffer@,
                from,
                to,
                old(self).action_manager.infos@[action as int].required_cards@[0],
            ),
            final(self).state@ =~= with_hands(old(self).state@, final(self).state.hands@),
            final(self).same_setup(old(self)),
            final(self).exchange_turn_idx == old(self).exchange_turn_idx,
    {
        let card = self.action_manager.infos[action].required_cards[0];
        self.state.hands[from] = self.state.hands[from] & !(1u64 << card);
        self.exchange_buffer.push(ExchangeBuffer { from, to, card });
    }

    /// `from` sets aside their `count` strongest cards for `to`.
    fn exchange_strongest(&mut self, from: usize, to: usize, count: usize)
        requires
            from < NUM_PLAYERS,
        ensures
            buffer_valid(old(self).exchange_buffer@) && to < NUM_PLAYERS ==> buffer_valid(
                final(self).exchange_buffer@,
            ),
            (final(self).state.hands@, final(self).exchange_buffer@) == set_aside_all(
                old(self).state.hands@,
                old(self).exchange_buffer@,
                from,
                to,
                strongest_cards(old(self).state.hands[from as int], count as nat),
            ),
            final(self).state@ =~= with_hands(old(self).state@, final(self).state.hands@),
            final(self).same_setup(old(self)),
            final(self).exchange_turn_idx == old(self).exchange_turn_idx,
    {
        let cards = self.extract_strongest_cards(from, count);
        let ghost hands0 = self.state.hands@;
        let ghost buffer0 = self.exchange_buffer@;
        proof {
            let hand = self.state.hands[from as int];
            lemma_cards_held_from(hand, strength_order());
            let all = cards_held(hand, strength_order());
            assert forall|k: int| 0 <= k < cards@.len() implies #[trigger] cards@[k] < 64 by {
                assert(cards@[k] == all[k]);
                assert(strength_order().contains(all[k]));
            }
        }
        let mut i: usize = 0;
        while i < cards.len()
            invariant
                i <= cards@.len(),
                from < NUM_PLAYERS,
                cards@ == strongest_cards(hands0[from as int], count as nat),
                forall|k: int| 0 <= k < cards@.len() ==> #[trigger] cards@[k] < 64,
                buffer_valid(buffer0) && to < NUM_PLAYERS ==> buffer_valid(self.exchange_buffer@),
                (self.state.hands@, self.exchange_buffer@) == set_aside_all(
                    hands0,
                    buffer0,
                    from,
                    to,
                    cards@.take(i as int),
                ),
                self.state@ =~= with_hands(old(self).state@, self.state.hands@),
                self.same_setup(old(self)),
                self.exchange_turn_idx == old(self).exchange_turn_idx,
            decreases cards@.len() - i,
        {
            let card = cards[i];
            assert(cards@.take(i + 1).drop_last() =~= cards@.take(i as int));
            self.state.hands[from] = self.state.hands[from] & !(1u64 << card);
            self.exchange_buffer.push(ExchangeBuffer { from, to, card });
            i += 1;
            assert(self.state.hands@ =~= set_aside_all(hands0, buffer0, from, to, cards@.take(i as int)).0);
            assert(self.exchange_buffer@ =~= set_aside_all(hands0, buffer0, from, to, cards@.take(i as int)).1);
        }
        assert(cards@.take(cards@.len() as int) =~= cards@);
    }

    /// Every pending card reaches its receiver, and the exchange ends.
    fn commit_exchange(&mut self)
        requires
            forall|k: int| 0 <= k < old(self).exchange_buffer@.len() ==> (#[trigger] old(self).exchange_buffer@[k]).to < NUM_PLAYERS
                && old(self).exchange_buffer@[k].card < 64,
        ensures
            final(self).state@ =~= exchange_done(
                with_hands(old(self).state@, received(old(self).state.hands@, old(self).exchange_buffer@)),
            ),
            final(self).exchange_buffer@ == Seq::<ExchangeBuffer>::empty(),
            final(self).exchange_turn_idx == 0,
            final(self).same_setup(old(self)),
    {
        let ghost hands0 = self.state.hands@;
        let ghost buffer0 = self.exchange_buffer@;
        let mut i: usize = 0;
        while i < self.exchange_buffer.len()
            invariant
                i <= buffer0.len(),
                buffer0 == self.exchange_buffer@,
                forall|k: int| 0 <= k < buffer0.len() ==> (#[trigger] buffer0[k]).to < NUM_PLAYERS && buffer0[k].card < 64,
                self.state.hands@ == received(hands0, buffer0.take(i as int)),
                self.state@ =~= with_hands(old(self).state@, self.state.hands@),
                self.same_setup(old(self)),
            decreases buffer0.len() - i,
        {
            let to = self.exchange_buffer[i].to;
            let card = self.exchange_buffer[i].card;
            assert(buffer0.take(i + 1).drop_last() =~= buffer0.take(i as int));
            self.state.hands[to] = self.state.hands[to] | (1u64 << card);
            i += 1;
            assert(self.state.hands@ =~= received(hands0, buffer0.take(i as int)));
        }
        assert(buffer0.take(buffer0.len() as int) =~= buffer0);
        self.exchange_buffer.clear();
        self.state.exchange_phase = false;
        self.exchange_turn_idx = 0;
    }

    /// Whether `action` may be played on top of `field` in the current state.
    fn can_beat(&self, action: &ActionInfo, field: &ActionInfo) -> (res: bool)
        ensures
            res == beats(self.evaluator.config, self.state.is_revolution, *action, *field),
    {
        if action.size != field.size {
            return false;
        }
        if action.action_type != field.action_type {
            return false;
        }
        if action.action_type == ActionType::Stair && action.size != field.size {
            return false;
        }
        if field.id == JOKER_SINGLE_ACTION_ID {
            assert(1u64 << 0u64 == 1) by (bit_vector);
            if self.evaluator.config.spade_3_beat && action.required_mask == 1u64 << 0u64 {
                return true;
            }
            return false;
        }
        if action.id == JOKER_SINGLE_ACTION_ID {
            return true;
        }
        if action.id == JOKER_PAIR_ACTION_ID {
            return true;
        }
        if !self.state.is_revolution {
            action.strength > field.strength
        } else {
            action.strength < field.strength
        }
    }

    /// Updates the field after the current player plays `action` with `effects`.
    fn update_field(&mut self, action: u16, effects: &HandEffects)
        requires
            action != PASS_ACTION_ID ==> action < old(self).action_manager.infos@.len(),
            (old(self).state.field_owner matches Some(o) ==> o < 8),
        ensures
            final(self).state@ =~= after_field(
                old(self).state@,
                action as int,
                old(self).action_manager.infos@[action as int],
                *effects,
            ),
            final(self).same_setup(old(self)),
            final(self).exchange_buffer@ == old(self).exchange_buffer@,
            final(self).exchange_turn_idx == old(self).exchange_turn_idx,
    {
        if action == PASS_ACTION_ID as u16 {
            let alive_count = count_ones(self.state.alive_players as u64);
            let pass_count = count_ones((self.state.passed_players & self.state.alive_players) as u64);
            let owner_alive = if let Some(owner) = self.state.field_owner {
                (self.state.alive_players >> (owner as u8)) & 1 == 1
            } else {
                false
            };
            let required_passes = if owner_alive {
                proof {
                    lemma_popcount_zero(self.state.alive_players as u64);
                    let a = self.state.alive_players;
                    let o = self.state.field_owner.unwrap() as u8;
                    assert(alive_bit(a, o as int) ==> a as u64 != 0) by (bit_vector);
                }
                alive_count - 1
            } else {
                alive_count
            };
            if pass_count >= required_passes {
                self.state.current_field_action = None;
                self.state.field_owner = None;
                self.state.passed_players = 0;
                self.state.is_revolution = self.state.is_parmanent_revolution;
            }
            return ;
        }
        self.state.current_field_action = Some(action);
        self.state.field_owner = Some(self.state.current_player);
        self.state.passed_players = 0;
        let is_trigger = self.action_manager.infos[action as usize].is_revolution_trigger;
        if is_trigger {
            self.state.is_parmanent_revolution = !self.state.is_parmanent_revolution;
            self.state.is_revolution = self.state.is_parmanent_revolution;
        }
        if effects.eleven_back {
            self.state.is_revolution = !self.state.is_revolution;
        }
        if effects.eight_cut {
            self.state.current_field_action = None;
            self.state.field_owner = None;
            self.state.passed_players = 0;
            self.state.is_revolution = self.state.is_parmanent_revolution;
            return ;
        }
    }
    /// Takes `player`'s action out of their hand (or records their pass).
    pub fn apply_action(&mut self, player: usize, action: u16)
        requires
            player < NUM_PLAYERS,
            action != PASS_ACTION_ID ==> action < old(self).action_manager.infos@.len(),
            action != PASS_ACTION_ID ==> can_pay(
                old(self).state.hands[player as int],
                action as int,
                old(self).action_manager.infos@[action as int],
            ),
        ensures
            final(self).state@ =~= after_apply(
                old(self).state@,
                player as int,
                action as int,
                old(self).action_manager.infos@[action as int],
            ),
            final(self).same_setup(old(self)),
            final(self).exchange_buffer@ == old(self).exchange_buffer@,
            final(self).exchange_turn_idx == old(self).exchange_turn_idx,
    {
        if action == PASS_ACTION_ID as u16 {
            self.state.passed_players = self.state.passed_players | (1u8 << (player as u8));
            self.state.action_log[player] = PASS_ACTION_ID as u16;
            return ;
        }
        let info = &self.action_manager.infos[action as usize];
        let mut hand = self.state.hands[player];
        let ghost info_s = *info;
        let ghost hand0 = hand;
        let required_joker_count: u32 = if action == JOKER_SINGLE_ACTION_ID as u16 {
            1
        } else if action == JOKER_PAIR_ACTION_ID as u16 {
            2
        } else {
            let owned = hand & info.required_mask;
            hand = hand & !owned;
            count_ones(info.required_mask & !owned)
        };
        assert(hand == hand_without_owned(hand0, action as int, info_s));
        assert(required_joker_count == jokers_needed(hand0, action as int, info_s));
        let ghost base = hand;
        if required_joker_count > 0 {
            let mut removed: u32 = 0;
            if (hand >> 52u64) & 1 == 1 && removed < required_joker_count {
                hand = hand & !(1u64 << 52u64);
                removed += 1;
            }
            assert(has_bit(hand, 53) == has_bit(base, 53)) by {
                assert(((base & !(1u64 << 52u64)) >> 53u64) & 1 == (base >> 53u64) & 1)
                    by (bit_vector);
            }
            if (hand >> 53u64) & 1 == 1 && removed < required_joker_count {
                hand = hand & !(1u64 << 53u64);
                removed += 1;
            }
        }
        self.state.hands[player] = hand;
        self.state.action_log[player] = action;
    }

    /// The environment is consistent: a complete action table, seats below 4
    /// everywhere, actions on the field inside the table.
    pub open spec fn wf(&self) -> bool {
        &&& self.action_manager.wf()
        &&& self.agent_id < NUM_PLAYERS
        &&& self.state.wf()
        &&& forall|k: int|
            0 <= k < self.exchange_buffer@.len() ==> (#[trigger] self.exchange_buffer@[k]).to
                < NUM_PLAYERS && self.exchange_buffer@[k].card < 64
    }

    /// A new environment for an agent in seat `agent_id` under the given rules;
    /// no cards are dealt until `reset`.
    pub fn new(agent_id: usize, rule: RuleConfig) -> (res: DaifugoEnv)
        ensures
            res.agent_id == agent_id,
            res.action_manager.wf(),
            res.evaluator.config == rule,
            res.state@ == initial_state(),
            res.exchange_buffer@ == Seq::<ExchangeBuffer>::empty(),
            res.exchange_turn_idx == 0,
            agent_id < NUM_PLAYERS ==> res.wf(),
    {
        let res = DaifugoEnv {
            agent_id,
            action_manager: ActionManager::new(),
            state: RawState {
                hands: [0u64; NUM_PLAYERS],
                current_field_action: None,
                current_player: 0,
                finished_order: Vec::new(),
                alive_players: 0b1111,
                action_log: [0u16; NUM_PLAYERS],
                legal_actions_mask: [false; 462],
                is_revolution: false,
                is_parmanent_revolution: false,
                field_owner: None,
                passed_players: 0,
                previous_rankings: Vec::new(),
                exchange_phase: false,
            },
            exchange_buffer: Vec::new(),
            exchange_turn_idx: 0,
            evaluator: RuleEvaluator::new(rule),
        };
        assert(res.state@ =~= initial_state());
        res
    }

    /// A copy of the current state.
    pub fn get_raw_state(&self) -> (res: RawState)
        ensures
            res@ == self.state@,
    {
        RawState {
            hands: self.state.hands,
            current_field_action: self.state.current_field_action,
            current_player: self.state.current_player,
            finished_order: copy_u8s(&self.state.finished_order),
            alive_players: self.state.alive_players,
            action_log: self.state.action_log,
            legal_actions_mask: self.state.legal_actions_mask,
            is_revolution: self.state.is_revolution,
            is_parmanent_revolution: self.state.is_parmanent_revolution,
            field_owner: self.state.field_owner,
            passed_players: self.state.passed_players,
            previous_rankings: copy_u8s(&self.state.previous_rankings),
            exchange_phase: self.state.exchange_phase,
        }
    }

    /// Deals `deck` round the table into the hands.
    fn deal_cards(&mut self, deck: &Vec<u8>)
        requires
            forall|k: int| 0 <= k < deck@.len() ==> #[trigger] deck@[k] < 64,
        ensures
            forall|p: int|
                0 <= p < NUM_PLAYERS ==> #[trigger] final(self).state.hands@[p] == old(self).state.hands@[p]
                    | dealt_hand(deck@, p),
            final(self).state@ =~= with_hands(old(self).state@, final(self).state.hands@),
            final(self).same_setup(old(self)),
            final(self).exchange_buffer@ == old(self).exchange_buffer@,
            final(self).exchange_turn_idx == old(self).exchange_turn_idx,
    {
        let ghost hands0 = self.state.hands@;
        assert forall|p: int| 0 <= p < NUM_PLAYERS implies #[trigger] self.state.hands@[p] == hands0[p]
            | dealt_hand(deck@.take(0), p) by {
            assert(deck@.take(0).len() == 0);
            let h = hands0[p];
            assert(h | 0u64 == h) by (bit_vector);
        }
        let mut i: usize = 0;
        while i < deck.len()
            invariant
                i <= deck@.len(),
                forall|k: int| 0 <= k < deck@.len() ==> #[trigger] deck@[k] < 64,
                forall|p: int|
                    0 <= p < NUM_PLAYERS ==> #[trigger] self.state.hands@[p] == hands0[p] | dealt_hand(
                        deck@.take(i as int),
                        p,
                    ),
                self.state@ =~= with_hands(old(self).state@, self.state.hands@),
                self.same_setup(old(self)),
                self.exchange_buffer@ == old(self).exchange_buffer@,
                self.exchange_turn_idx == old(self).exchange_turn_idx,
            decreases deck@.len() - i,
        {
            let card = deck[i];
            let player = i % NUM_PLAYERS;
            let ghost before = self.state.hands@;
            self.state.hands[player] = self.state.hands[player] | (1u64 << card);
            proof {
                let t = deck@.take(i + 1);
                assert(t.drop_last() =~= deck@.take(i as int));
                assert forall|p: int| 0 <= p < NUM_PLAYERS implies #[trigger] self.state.hands@[p]
                    == hands0[p] | dealt_hand(t, p) by {
                    let d = dealt_hand(deck@.take(i as int), p);
                    let h0 = hands0[p];
                    let bit = 1u64 << card;
                    if p == player {
                        assert((h0 | d) | bit == h0 | (d | bit)) by (bit_vector);
                    }
                }
            }
            i += 1;
        }
        assert(deck@.take(deck@.len() as int) =~= deck@);
    }

    /// What a new round needs of the environment: a complete action table, the
    /// agent at a seat, and a previous ranking (if any) made of seats. The rest
    /// of the state is overwritten.
    pub open spec fn can_reset(&self) -> bool {
        &&& self.action_manager.wf()
        &&& self.agent_id < NUM_PLAYERS
        &&& forall|k: int| 0 <= k < self.state.previous_rankings@.len() ==> #[trigger] self.state.previous_rankings@[k] < NUM_PLAYERS
    }

    /// Starts a new round dealt from `deck`.
    pub fn reset_with_deck(&mut self, deck: &Vec<u8>) -> (res: RawState)
        requires
            old(self).can_reset(),
            forall|k: int| 0 <= k < deck@.len() ==> #[trigger] deck@[k] < 64,
        ensures
            final(self).wf(),
            final(self).is_reset_of(old(self), deck@),
            res@ == final(self).state@,
    {
        self.state.hands = [0u64; NUM_PLAYERS];
        self.state.current_field_action = None;
        self.state.current_player = 0;
        self.state.finished_order.clear();
        self.state.alive_players = 0b1111;
        self.state.action_log = [0u16; NUM_PLAYERS];
        self.state.legal_actions_mask = [false; 462];
        self.state.is_revolution = false;
        self.state.is_parmanent_revolution = false;
        self.state.field_owner = None;
        self.state.passed_players = 0;
        self.exchange_buffer.clear();
        let ghost zeroed = self.state.hands@;
        assert(forall|p: int| 0 <= p < NUM_PLAYERS ==> #[trigger] zeroed[p] == 0u64);
        self.deal_cards(deck);
        assert forall|p: int| 0 <= p < NUM_PLAYERS implies #[trigger] self.state.hands@[p] == dealt_hand(deck@, p) by {
            let d = dealt_hand(deck@, p);
            assert(0u64 | d == d) by (bit_vector);
        }
        if self.state.previous_rankings.len() == 0 {
            self.state.exchange_phase = false;
        } else {
            self.state.exchange_phase = true;
            self.exchange_turn_idx = 0;
            self.state.current_player = self.state.previous_rankings[0] as usize;
        }
        let agent_id = self.agent_id;
        self.update_exchange_legal_actions(agent_id);
        assert(self.state.hands@ =~= Seq::new(NUM_PLAYERS as nat, |p: int| dealt_hand(deck@, p)));
        assert(self.state@ =~= reset_state(old(self).state@, deck@, self.action_manager.infos@, self.agent_id as int));
        self.get_raw_state()
    }

    /// `self` is `old` with a new round dealt from `deck`.
    pub open spec fn is_reset_of(&self, old: &DaifugoEnv, deck: Seq<u8>) -> bool {
        &&& self.same_setup(old)
        &&& self.state@ == reset_state(old.state@, deck, old.action_manager.infos@, old.agent_id as int)
        &&& self.exchange_buffer@ == Seq::<ExchangeBuffer>::empty()
        &&& self.exchange_turn_idx == if old.state.previous_rankings@.len() != 0 {
            0
        } else {
            old.exchange_turn_idx
        }
    }

    /// Starts a new round from a freshly shuffled deck.
    pub fn reset(&mut self) -> (res: RawState)
        requires
            old(self).can_reset(),
        ensures
            final(self).wf(),
            exists|deck: Seq<u8>| is_shuffled_deck(deck) && final(self).is_reset_of(old(self), deck),
            res@ == final(self).state@,
    {
        let mut deck: Vec<u8> = Vec::new();
        let mut c: u8 = 0;
        while c < 54
            invariant
                c <= 54,
                deck@ == full_deck().take(c as int),
            decreases 54 - c,
        {
            deck.push(c);
            c += 1;
            assert(deck@ =~= full_deck().take(c as int));
        }
        assert(deck@ =~= full_deck());
        shuffle_deck(&mut deck);
        proof {
            broadcast use vstd::seq_lib::group_to_multiset_ensures;

            assert forall|k: int| 0 <= k < deck@.len() implies #[trigger] deck@[k] < 64 by {
                assert(deck@.contains(deck@[k]));
                assert(deck@.to_multiset().count(deck@[k]) > 0);
                assert(full_deck().contains(deck@[k]));
            }
        }
        let res = self.reset_with_deck(&deck);
        assert(is_shuffled_deck(deck@));
        res
    }

    /// Who hands over a card at the current exchange turn: the winner of the
    /// previous round twice, then the runner-up.
    pub fn exchange_giver(&self) -> (res: usize)
        requires
            self.state.previous_rankings@.len() >= 2,
        ensures
            res == if self.exchange_turn_idx < 2 {
                self.state.previous_rankings@[0]
            } else {
                self.state.previous_rankings@[1]
            },
    {
        if self.exchange_turn_idx < 2 {
            self.state.previous_rankings[0] as usize
        } else {
            self.state.previous_rankings[1] as usize
        }
    }

    /// One turn of the card exchange: the current giver (see `exchange_giver`)
    /// hands over the card of `action`. After the last turn the exchange is
    /// completed and play starts with the loser of the previous round.
    pub fn exchange_step(&mut self, action: usize) -> (res: RawState)
        requires
            old(self).wf(),
            old(self).exchange_turn_idx <= 2,
            old(self).state.previous_rankings@.len() >= 2,
            action < ACTION_SIZE,
            action != PASS_ACTION_ID,
        ensures
            final(self).wf(),
            final(self).same_setup(old(self)),
            (final(self).state@, final(self).exchange_buffer@, final(self).exchange_turn_idx)
                == exchange_result(
                old(self).state@,
                old(self).exchange_buffer@,
                old(self).exchange_turn_idx,
                old(self).evaluator.config,
                old(self).action_manager.infos@,
                action as int,
            ),
            res@ == final(self).state@,
    {
        proof {
            lemma_action_cards_valid(action as int);
            assert(info_matches(self.action_manager.infos@[action as int], action as int));
            assert(self.action_manager.infos@[action as int].required_cards@[0] == action_cards(
                action as int,
            )[0]);
        }
        let n = self.state.previous_rankings.len();
        let daifugo = self.state.previous_rankings[0] as usize;
        let fugo = self.state.previous_rankings[1] as usize;
        let hinmin = self.state.previous_rankings[n - 2] as usize;
        let daihinmin = self.state.previous_rankings[n - 1] as usize;
        if self.exchange_turn_idx == 0 {
            self.exchange_select(daifugo, daihinmin, action);
            self.exchange_turn_idx = 1;
            self.update_exchange_legal_actions(daifugo);
            self.state.current_player = daifugo;
        } else if self.exchange_turn_idx == 1 {
            self.exchange_select(daifugo, daihinmin, action);
            self.exchange_turn_idx = 2;
            self.update_exchange_legal_actions(fugo);
            self.state.current_player = fugo;
        } else {
            self.exchange_select(fugo, hinmin, action);
            self.exchange_strongest(hinmin, fugo, 1);
            self.exchange_strongest(daihinmin, daifugo, 2);
            self.commit_exchange();
            self.state.current_player = daihinmin;
            self.update_legal_actions();
        }
        self.get_raw_state()
    }

    /// The current player's move chosen by an opponent: it is played, the
    /// field and finishing order are updated, the turn moves on and the new
    /// player's legal actions are computed.
    pub fn opponent_turn(&mut self, action: u16)
        requires
            old(self).wf(),
            action < ACTION_SIZE,
            payable(old(self).state@, old(self).action_manager.infos@, action as int),
            turn_can_resolve(
                old(self).state@,
                old(self).evaluator.config,
                old(self).action_manager.infos@,
                action as int,
            ),
        ensures
            final(self).wf(),
            final(self).same_setup(old(self)),
            final(self).exchange_buffer@ == old(self).exchange_buffer@,
            final(self).exchange_turn_idx == old(self).exchange_turn_idx,
            final(self).state@ == after_turn(
                old(self).state@,
                old(self).evaluator.config,
                old(self).action_manager.infos@,
                action as int,
            ),
    {
        let player = self.state.current_player;
        let effects = self.play_core(action);
        self.resolve_next_turn(&effects, player);
        proof {
            lemma_next_alive_range(self.state@);
        }
        self.update_legal_actions();
    }

    /// Plays the current player's action and updates the field and the
    /// finishing order; returns the action's effects.
    fn play_core(&mut self, action: u16) -> (effects: HandEffects)
        requires
            old(self).wf(),
            action < ACTION_SIZE,
            payable(old(self).state@, old(self).action_manager.infos@, action as int),
        ensures
            final(self).wf(),
            final(self).same_setup(old(self)),
            final(self).exchange_buffer@ == old(self).exchange_buffer@,
            final(self).exchange_turn_idx == old(self).exchange_turn_idx,
            final(self).state@ == turn_core(
                old(self).state@,
                old(self).evaluator.config,
                old(self).action_manager.infos@,
                action as int,
            ),
            effects == effects_of(old(self).evaluator.config, old(self).action_manager.infos@[action as int]),
            final(self).state.current_player == old(self).state.current_player,
    {
        let player = self.state.current_player;
        proof {
            lemma_action_cards_valid(action as int);
            assert(info_matches(self.action_manager.infos@[action as int], action as int));
        }
        let effects = self.evaluator.evaluate_effects(action as usize, &self.action_manager);
        self.apply_action(player, action);
        self.update_field(action, &effects);
        self.update_finish(player);
        proof {
            let a = old(self).state.alive_players;
            let p = player as u8;
            assert(a < 16 ==> a & !(1u8 << p) < 16) by (bit_vector);
            assert forall|k: int| 0 <= k < self.state.finished_order@.len() implies #[trigger] self.state.finished_order@[k] < NUM_PLAYERS by {
                if k < old(self).state.finished_order@.len() {
                    assert(self.state.finished_order@[k] == old(self).state.finished_order@[k]);
                }
            }
        }
        effects
    }

    /// The current player's own move (it must be among the legal actions).
    /// Returns the resulting state and whether the round is over; at the end
    /// of a round the last player is ranked and no action is legal any more.
    pub fn step(&mut self, action: u16) -> (res: (RawState, bool))
        requires
            old(self).wf(),
            action < ACTION_SIZE,
            old(self).state.legal_actions_mask@[action as int],
            payable(old(self).state@, old(self).action_manager.infos@, action as int),
        ensures
            final(self).wf(),
            final(self).same_setup(old(self)),
            final(self).exchange_buffer@ == old(self).exchange_buffer@,
            final(self).exchange_turn_idx == old(self).exchange_turn_idx,
            res.1 == (count_alive(
                turn_core(
                    old(self).state@,
                    old(self).evaluator.config,
                    old(self).action_manager.infos@,
                    action as int,
                ).alive_players,
            ) <= 1),
            res.1 ==> final(self).state@ == after_finalize(
                turn_core(
                    old(self).state@,
                    old(self).evaluator.config,
                    old(self).action_manager.infos@,
                    action as int,
                ),
            ),
            res.1 ==> res.0@ == final_observation(final(self).state@),
            !res.1 ==> final(self).state@ == after_turn(
                old(self).state@,
                old(self).evaluator.config,
                old(self).action_manager.infos@,
                action as int,
            ),
            !res.1 ==> res.0@ == final(self).state@,
    {
        let player = self.state.current_player;
        let effects = self.play_core(action);
        if self.check_done() {
            self.finalize_last_player();
            let mut final_state = self.get_raw_state();
            final_state.legal_actions_mask = [false; 462];
            assert(final_state@ =~= final_observation(self.state@));
            return (final_state, true);
        }
        proof {
            lemma_many_alive(self.state.alive_players);
        }
        self.resolve_next_turn(&effects, player);
        proof {
            lemma_next_alive_range(self.state@);
        }
        self.update_legal_actions();
        (self.get_raw_state(), false)
    }

    /// An opponent's move followed by the end-of-round check: returns the
    /// resulting state and whether the round is over (then the last player is
    /// ranked and no action is legal any more).
    pub fn opponent_step(&mut self, action: u16) -> (res: (RawState, bool))
        requires
            old(self).wf(),
            action < ACTION_SIZE,
            payable(old(self).state@, old(self).action_manager.infos@, action as int),
            turn_can_resolve(
                old(self).state@,
                old(self).evaluator.config,
                old(self).action_manager.infos@,
                action as int,
            ),
        ensures
            final(self).wf(),
            final(self).same_setup(old(self)),
            final(self).exchange_buffer@ == old(self).exchange_buffer@,
            final(self).exchange_turn_idx == old(self).exchange_turn_idx,
            res.1 == (count_alive(
                after_turn(
                    old(self).state@,
                    old(self).evaluator.config,
                    old(self).action_manager.infos@,
                    action as int,
                ).alive_players,
            ) <= 1),
            res.1 ==> final(self).state@ == after_finalize(
                after_turn(
                    old(self).state@,
                    old(self).evaluator.config,
                    old(self).action_manager.infos@,
                    action as int,
                ),
            ),
            res.1 ==> res.0@ == final_observation(final(self).state@),
            !res.1 ==> final(self).state@ == after_turn(
                old(self).state@,
                old(self).evaluator.config,
                old(self).action_manager.infos@,
                action as int,
            ),
            !res.1 ==> res.0@ == final(self).state@,
    {
        self.opponent_turn(action);
        if self.check_done() {
            self.finalize_last_player();
            let mut final_state = self.get_raw_state();
            final_state.legal_actions_mask = [false; 462];
            assert(final_state@ =~= final_observation(self.state@));
            return (final_state, true);
        }
        (self.get_raw_state(), false)
    }

    /// Whether the current player holds enough jokers for `action` (passing
    /// always can be paid).
    pub fn can_pay_action(&self, action: u16) -> (res: bool)
        requires
            self.wf(),
            action < ACTION_SIZE,
        ensures
            res == payable(self.state@, self.action_manager.infos@, action as int),
    {
        if action == PASS_ACTION_ID as u16 {
            return true;
        }
        let info = &self.action_manager.infos[action as usize];
        let hand = self.state.hands[self.state.current_player];
        let (base, need): (u64, u32) = if action == JOKER_SINGLE_ACTION_ID as u16 {
            (hand, 1)
        } else if action == JOKER_PAIR_ACTION_ID as u16 {
            (hand, 2)
        } else {
            let owned = hand & info.required_mask;
            (hand & !owned, count_ones(info.required_mask & !owned))
        };
        assert(((base >> 52u64) & 1) == 1 || ((base >> 52u64) & 1) == 0) by (bit_vector);
        assert(((base >> 53u64) & 1) == 1 || ((base >> 53u64) & 1) == 0) by (bit_vector);
        let jokers: u64 = ((base >> 52u64) & 1) + ((base >> 53u64) & 1);
        (need as u64) <= jokers
    }

    /// The parts of the environment that play never changes.
    pub open spec fn same_setup(&self, other: &DaifugoEnv) -> bool {
        &&& self.agent_id == other.agent_id
        &&& self.action_manager.infos@ == other.action_manager.infos@
        &&& self.evaluator.config == other.evaluator.config
    }
}

} // verus!
