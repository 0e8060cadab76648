use president::common::{ACTION_SIZE, JOKER_PAIR_ACTION_ID, JOKER_SINGLE_ACTION_ID, NUM_PLAYERS};
use president::env::{DaifugoEnv, RawState};
use president::rule::{HandEffects, RuleConfig};

fn all_rules() -> RuleConfig {
    RuleConfig { eight_cut: true, eleven_back: true, spade_3_beat: true, skip_five: true }
}

fn ordered_deck() -> Vec<u8> {
    (0..54).collect()
}

fn scrambled_deck(seed: u64) -> Vec<u8> {
    let mut deck = ordered_deck();
    let mut x = seed.wrapping_mul(6364136223846793005).wrapping_add(1442695040888963407);
    for i in (1..deck.len()).rev() {
        x = x.wrapping_mul(6364136223846793005).wrapping_add(1442695040888963407);
        let j = ((x >> 33) as usize) % (i + 1);
        deck.swap(i, j);
    }
    deck
}

/// Highest legal action that is not a pass, else pass.
fn pick(state: &RawState) -> Option<u16> {
    let mut best = None;
    for i in (1..ACTION_SIZE).rev() {
        if state.legal_actions_mask[i] {
            best = Some(i as u16);
            break;
        }
    }
    if best.is_none() && state.legal_actions_mask[0] {
        best = Some(0);
    }
    best
}

fn union_and_disjoint(hands: &[u64; NUM_PLAYERS]) -> (u64, bool) {
    let mut union = 0u64;
    let mut disjoint = true;
    for h in hands {
        if union & h != 0 {
            disjoint = false;
        }
        union |= h;
    }
    (union, disjoint)
}

/// Plays one round (the agent in seat 0, the others by the same policy);
/// returns false if someone had no legal action.
fn play_round(env: &mut DaifugoEnv) -> bool {
    loop {
        let state = env.get_raw_state();
        if state.exchange_phase {
            let a = match pick(&state) {
                Some(a) => a,
                None => return false,
            };
            let giver = env.exchange_giver();
            let chosen = if giver == env.agent_id {
                a as usize
            } else {
                // the giver chooses from their own single cards
                let hand = env.state.hands[giver];
                let card = (0..54u8).find(|c| (hand >> c) & 1 == 1).unwrap();
                let info = env
                    .action_manager
                    .infos
                    .iter()
                    .find(|i| i.size == 1 && i.required_cards[0] == card)
                    .unwrap();
                info.id
            };
            env.exchange_step(chosen);
            if !env.state.exchange_phase {
                while env.state.current_player != env.agent_id {
                    let a = match pick(&env.state) {
                        Some(a) => a,
                        None => return false,
                    };
                    env.opponent_turn(a);
                }
            }
            continue;
        }
        let a = match pick(&state) {
            Some(a) => a,
            None => return false,
        };
        let (s, done) = env.step(a);
        if done {
            assert!(s.legal_actions_mask.iter().all(|b| !b));
            return true;
        }
        while env.state.current_player != env.agent_id {
            let a = match pick(&env.state) {
                Some(a) => a,
                None => return false,
            };
            let (s, done) = env.opponent_step(a);
            if done {
                assert!(s.legal_actions_mask.iter().all(|b| !b));
                return true;
            }
        }
    }
}

#[test]
fn new_env_is_empty() {
    let env = DaifugoEnv::new(2, all_rules());
    assert_eq!(env.agent_id, 2);
    assert_eq!(env.state.hands, [0u64; NUM_PLAYERS]);
    assert_eq!(env.state.alive_players, 0b1111);
    assert!(env.state.finished_order.is_empty());
    assert!(env.state.previous_rankings.is_empty());
    assert!(!env.state.exchange_phase);
    assert_eq!(env.action_manager.infos.len(), ACTION_SIZE);
}

#[test]
fn dealing_goes_round_the_table() {
    let mut env = DaifugoEnv::new(0, all_rules());
    let s = env.reset_with_deck(&ordered_deck());
    for p in 0..NUM_PLAYERS {
        for c in 0..54u64 {
            assert_eq!((s.hands[p] >> c) & 1 == 1, c as usize % 4 == p);
        }
    }
    assert_eq!(s.hands[0].count_ones(), 14);
    assert_eq!(s.hands[1].count_ones(), 14);
    assert_eq!(s.hands[2].count_ones(), 13);
    assert_eq!(s.hands[3].count_ones(), 13);
    assert_eq!(s.current_player, 0);
    assert!(!s.exchange_phase);
    // the legal actions are the agent's single cards
    for (i, info) in env.action_manager.infos.iter().enumerate() {
        let expected = i != 0
            && info.size == 1
            && info.action_type == president::action::ActionType::Group
            && s.hands[0] & info.required_mask == info.required_mask;
        assert_eq!(s.legal_actions_mask[i], expected);
    }
    assert!(s.legal_actions_mask[JOKER_SINGLE_ACTION_ID]);
}

#[test]
fn shuffled_reset_deals_every_card_once() {
    let mut env = DaifugoEnv::new(0, all_rules());
    for _ in 0..20 {
        let s = env.reset();
        let (union, disjoint) = union_and_disjoint(&s.hands);
        assert!(disjoint);
        assert_eq!(union, (1u64 << 54) - 1);
        env.state.previous_rankings.clear();
    }
}

#[test]
fn rounds_end_with_a_full_ranking_and_exchange_keeps_cards() {
    let mut env = DaifugoEnv::new(0, all_rules());
    let mut finished_rounds = 0;
    for seed in 0..40u64 {
        env.reset_with_deck(&scrambled_deck(seed));
        if env.state.exchange_phase {
            assert_eq!(env.state.current_player, env.state.previous_rankings[0] as usize);
            let ok = play_round(&mut env);
            if !ok {
                env.state.previous_rankings.clear();
                continue;
            }
        } else if !play_round(&mut env) {
            continue;
        }
        finished_rounds += 1;
        let mut order = env.state.finished_order.clone();
        assert_eq!(env.state.previous_rankings, order);
        order.sort();
        assert_eq!(order, vec![0, 1, 2, 3]);
        assert_eq!(env.state.alive_players, 0);
    }
    assert!(finished_rounds > 0);
}

#[test]
fn exchange_moves_cards_between_ranked_players() {
    let mut env = DaifugoEnv::new(0, all_rules());
    env.state.previous_rankings = vec![2, 0, 3, 1];
    let s = env.reset_with_deck(&ordered_deck());
    assert!(s.exchange_phase);
    assert_eq!(s.current_player, 2);
    let before = s.hands;
    assert_eq!(env.exchange_giver(), 2);
    // the winner (seat 2) holds cards 2, 6, 10, ... and gives card 2 (♠5) then card 6 (♠9)
    let single = |card: u8| 1 + (card as usize % 13) * 15 + (1usize << (card as usize / 13)) - 1;
    env.exchange_step(single(2));
    assert_eq!(env.exchange_turn_idx, 1);
    assert_eq!(env.state.current_player, 2);
    assert_eq!(env.exchange_giver(), 2);
    env.exchange_step(single(6));
    assert_eq!(env.exchange_turn_idx, 2);
    assert_eq!(env.state.current_player, 0);
    assert_eq!(env.exchange_giver(), 0);
    // runner-up (seat 0) gives card 4 (♠7) to the second-last (seat 3)
    let s = env.exchange_step(single(4));
    assert!(!s.exchange_phase);
    assert_eq!(env.exchange_turn_idx, 0);
    assert!(env.exchange_buffer.is_empty());
    // seat 3 gives its strongest card to seat 0: joker? seat 3 holds 3,7,...,51: strongest is 51 (♥2)
    // seat 1 (the loser) gives its two strongest to seat 2: joker 53 and card 25 (♣2); seat 1 holds 1,5,...,53
    let bit = |c: u64| 1u64 << c;
    assert_eq!(s.hands[2], before[2] & !bit(2) & !bit(6) | bit(53) | bit(25));
    assert_eq!(s.hands[1], before[1] & !bit(53) & !bit(25) | bit(2) | bit(6));
    assert_eq!(s.hands[0], before[0] & !bit(4) | bit(51));
    assert_eq!(s.hands[3], before[3] & !bit(51) | bit(4));
    assert_eq!(s.current_player, 1);
    let (union, disjoint) = union_and_disjoint(&s.hands);
    assert!(disjoint);
    assert_eq!(union, (1u64 << 54) - 1);
}

#[test]
fn jokers_stand_in_for_missing_cards() {
    let mut env = DaifugoEnv::new(0, all_rules());
    env.reset_with_deck(&ordered_deck());
    // seat 0 holds ♠3 (0) and joker 52 but not ♣3 (13): the pair ♠3♣3 (combo 3) needs one joker
    env.state.hands[0] = (1u64 << 0) | (1u64 << 52) | (1u64 << 53) | (1u64 << 30);
    let pair_of_threes = 1 + 0 * 15 + 2;
    env.apply_action(0, pair_of_threes as u16);
    assert_eq!(env.state.hands[0], (1u64 << 53) | (1u64 << 30));
    assert_eq!(env.state.action_log[0], pair_of_threes as u16);
    // the joker pair takes both jokers
    env.state.hands[1] = (1u64 << 52) | (1u64 << 53) | 1;
    env.apply_action(1, JOKER_PAIR_ACTION_ID as u16);
    assert_eq!(env.state.hands[1], 1);
    // a pass only marks the player
    env.apply_action(2, 0);
    assert_eq!(env.state.passed_players & (1 << 2), 1 << 2);
    assert_eq!(env.state.action_log[2], 0);
}

#[test]
fn eight_cut_keeps_the_turn() {
    let mut env = DaifugoEnv::new(0, all_rules());
    env.reset_with_deck(&ordered_deck());
    // seat 0 holds ♠8 (5) plus another card; field empty
    env.state.hands[0] = (1u64 << 5) | (1u64 << 7);
    let eight = 1 + 5 * 15;
    env.state.legal_actions_mask[eight] = true;
    let (s, done) = env.step(eight as u16);
    assert!(!done);
    assert_eq!(s.current_player, 0);
    assert_eq!(s.current_field_action, None);
    assert_eq!(s.hands[0], 1u64 << 7);
}

#[test]
fn turn_skips_finished_players() {
    let mut env = DaifugoEnv::new(0, RuleConfig::default());
    env.reset_with_deck(&ordered_deck());
    env.state.alive_players = 0b1001;
    let effects = HandEffects { eight_cut: false, eleven_back: false, skip_five_count: 0 };
    env.resolve_next_turn(&effects, 0);
    assert_eq!(env.state.current_player, 3);
    env.resolve_next_turn(&effects, 3);
    assert_eq!(env.state.current_player, 0);
}

#[test]
fn passing_round_clears_the_field() {
    let mut env = DaifugoEnv::new(0, RuleConfig::default());
    env.reset_with_deck(&ordered_deck());
    // seat 0 plays ♣3 (13): single, combo 2
    let a = 1 + 1;
    env.state.legal_actions_mask[a] = true;
    let (s, done) = env.step(a as u16);
    assert!(!done);
    assert_eq!(s.current_field_action, Some(a as u16));
    assert_eq!(s.field_owner, Some(0));
    assert_eq!(s.current_player, 1);
    assert!(s.legal_actions_mask[0]);
    env.opponent_step(0);
    env.opponent_step(0);
    assert_eq!(env.state.current_field_action, Some(a as u16));
    env.opponent_step(0);
    assert_eq!(env.state.current_field_action, None);
    assert_eq!(env.state.field_owner, None);
    assert_eq!(env.state.current_player, 0);
    assert!(!env.state.legal_actions_mask[0]);
}

#[test]
fn revolution_reverses_strength() {
    let mut env = DaifugoEnv::new(0, RuleConfig::default());
    env.reset_with_deck(&ordered_deck());
    // seat 0 plays four fours (rank 1, combo 15): a revolution
    env.state.hands[0] = (1u64 << 1) | (1u64 << 14) | (1u64 << 27) | (1u64 << 40) | (1u64 << 5);
    // seat 1 holds four threes and four twos
    env.state.hands[1] = (1u64 << 0) | (1u64 << 13) | (1u64 << 26) | (1u64 << 39) | (1u64 << 12)
        | (1u64 << 25) | (1u64 << 38) | (1u64 << 51);
    let four_fours = 1 + 15 + 14;
    let four_threes = 15;
    let four_twos = 1 + 12 * 15 + 14;
    env.state.legal_actions_mask[four_fours] = true;
    let (s, done) = env.step(four_fours as u16);
    assert!(!done);
    assert!(s.is_revolution && s.is_parmanent_revolution);
    assert_eq!(s.current_player, 1);
    assert!(s.legal_actions_mask[four_threes]);
    assert!(!s.legal_actions_mask[four_twos]);
    // the threes turn the revolution back
    let (s, _) = env.opponent_step(four_threes as u16);
    assert!(!s.is_revolution && !s.is_parmanent_revolution);
}

#[test]
fn hand_strings() {
    let mut env = DaifugoEnv::new(0, RuleConfig::default());
    env.reset_with_deck(&ordered_deck());
    env.state.hands = [(1u64 << 0) | (1u64 << 17) | (1u64 << 52), 1u64 << 53, 0, 0];
    let s = env.get_raw_state();
    assert_eq!(s.hand_to_strings(0), vec!["♠3", "♣7", "Joker(1)"]);
    assert_eq!(s.hand_to_strings(1), vec!["Joker(2)"]);
    assert!(s.hand_to_strings(2).is_empty());
    let used = s.used_card_to_string();
    assert_eq!(used.len(), 50);
    assert_eq!(used[0], "♠4");
    assert!(!used.contains(&"Joker(1)".to_string()));
}

#[test]
fn reset_shuffles_the_deck() {
    let mut ordered = DaifugoEnv::new(0, all_rules());
    let dealt_in_order = ordered.reset_with_deck(&ordered_deck()).hands;
    let mut env = DaifugoEnv::new(0, all_rules());
    let mut differs = false;
    for _ in 0..10 {
        let s = env.reset();
        env.state.previous_rankings.clear();
        if s.hands != dealt_in_order {
            differs = true;
        }
    }
    assert!(differs);
}

#[test]
fn legal_actions_are_payable_and_plays_only_remove_cards() {
    let mut env = DaifugoEnv::new(0, all_rules());
    for seed in 100..120u64 {
        env.state.previous_rankings.clear();
        env.reset_with_deck(&scrambled_deck(seed));
        loop {
            let state = env.get_raw_state();
            for a in state.legal_action_ids() {
                assert!(env.can_pay_action(a));
            }
            let a = match pick(&state) {
                Some(a) => a,
                None => break,
            };
            let player = state.current_player;
            let before = state.hands[player];
            let (s, done) = if player == env.agent_id { env.step(a) } else { env.opponent_step(a) };
            let after = env.state.hands[player];
            assert_eq!(after & !before, 0);
            if a != 0 {
                assert_ne!(after, before);
            }
            if done {
                assert!(s.legal_action_ids().is_empty());
                break;
            }
            // the player to move still holds cards
            assert_eq!((env.state.alive_players >> env.state.current_player) & 1, 1);
            assert_ne!(env.state.hands[env.state.current_player], 0);
        }
    }
}

#[test]
fn finishing_positions_follow_the_order() {
    let mut env = DaifugoEnv::new(0, all_rules());
    env.state.finished_order = vec![2, 0, 3];
    assert_eq!(env.state.finishing_position(2), Some(0));
    assert_eq!(env.state.finishing_position(0), Some(1));
    assert_eq!(env.state.finishing_position(3), Some(2));
    assert_eq!(env.state.finishing_position(1), None);
}

#[test]
fn legal_action_ids_list_the_mask() {
    let mut env = DaifugoEnv::new(0, all_rules());
    let s = env.reset_with_deck(&ordered_deck());
    let ids = s.legal_action_ids();
    let expected: Vec<u16> =
        (0..ACTION_SIZE).filter(|&i| s.legal_actions_mask[i]).map(|i| i as u16).collect();
    assert_eq!(ids, expected);
    assert!(ids.contains(&(JOKER_SINGLE_ACTION_ID as u16)));
    assert!(!ids.contains(&0));
}
