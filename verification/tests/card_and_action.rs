use president::action::{ActionManager, ActionType, INVALID_CARD};
use president::card::{Card, Rank, Suit};
use president::common::{ACTION_SIZE, JOKER_PAIR_ACTION_ID, JOKER_SINGLE_ACTION_ID};
use president::rule::{RuleConfig, RuleEvaluator};

#[test]
fn card_index_roundtrip() {
    for i in 0..54usize {
        assert_eq!(Card::from_index(i).to_index(), i);
    }
    assert_eq!(Card::from_index(0), Card::Normal { suit: Suit::Spade, rank: Rank::Three });
    assert_eq!(Card::from_index(12), Card::Normal { suit: Suit::Spade, rank: Rank::Two });
    assert_eq!(Card::from_index(13), Card::Normal { suit: Suit::Club, rank: Rank::Three });
    assert_eq!(Card::from_index(51), Card::Normal { suit: Suit::Heart, rank: Rank::Two });
    assert_eq!(Card::from_index(52), Card::Joker1);
    assert_eq!(Card::from_index(53), Card::Joker2);
}

#[test]
fn card_display_strings() {
    assert_eq!(Card::from_index(0).to_display_string(), "♠3");
    assert_eq!(Card::from_index(20).to_display_string(), "♣10");
    assert_eq!(Card::from_index(34).to_display_string(), "♦J");
    assert_eq!(Card::from_index(51).to_display_string(), "♥2");
    assert_eq!(Card::from_index(52).to_display_string(), "Joker(1)");
    assert_eq!(Card::from_index(53).to_display_string(), "Joker(2)");
}

#[test]
fn action_table_shape() {
    let m = ActionManager::new();
    assert_eq!(m.infos.len(), ACTION_SIZE);
    for (i, info) in m.infos.iter().enumerate() {
        assert_eq!(info.id, i);
        let mut mask = 0u64;
        for k in 0..info.size as usize {
            mask |= 1u64 << info.required_cards[k];
        }
        assert_eq!(mask, info.required_mask);
        assert_eq!(info.required_mask.count_ones(), info.size as u32);
        for k in info.size as usize..13 {
            assert_eq!(info.required_cards[k], INVALID_CARD);
        }
    }
    let pass = &m.infos[0];
    assert_eq!(pass.action_type, ActionType::Pass);
    assert_eq!(pass.size, 0);
    assert_eq!(pass.strength, -1);
    // single three of spades
    let a = &m.infos[1];
    assert_eq!(a.action_type, ActionType::Group);
    assert_eq!(a.size, 1);
    assert_eq!(a.required_cards[0], 0);
    assert_eq!(a.strength, 0);
    // all four threes
    let a = &m.infos[15];
    assert_eq!(a.size, 4);
    assert_eq!(&a.required_cards[..4], &[0, 13, 26, 39]);
    assert!(a.is_revolution_trigger);
    // pair of twos in clubs and hearts: rank 12, combo 0b1010
    let a = &m.infos[1 + 12 * 15 + 9];
    assert_eq!(&a.required_cards[..2], &[25, 51]);
    assert_eq!(a.strength, 12);
    assert!(!a.is_revolution_trigger);
    // first stair: spade 3-4-5
    let a = &m.infos[196];
    assert_eq!(a.action_type, ActionType::Stair);
    assert_eq!(&a.required_cards[..3], &[0, 1, 2]);
    assert_eq!(a.strength, 2);
    assert!(!a.is_revolution_trigger);
    // first four-card stair: spade 3-6
    let a = &m.infos[196 + 11];
    assert_eq!(&a.required_cards[..4], &[0, 1, 2, 3]);
    assert!(a.is_revolution_trigger);
    // last heart stair: the whole suit
    let a = &m.infos[459];
    assert_eq!(a.size, 13);
    assert_eq!(a.required_cards[0], 39);
    assert_eq!(a.strength, 12);
    let a = &m.infos[JOKER_SINGLE_ACTION_ID];
    assert_eq!(a.required_mask, 1u64 << 52);
    assert_eq!(a.strength, 13);
    let a = &m.infos[JOKER_PAIR_ACTION_ID];
    assert_eq!(a.required_mask, (1u64 << 52) | (1u64 << 53));
    assert_eq!(a.size, 2);
}

#[test]
fn readable_strings() {
    let m = ActionManager::new();
    assert_eq!(m.infos[0].to_readable_string(), "パス");
    assert_eq!(m.infos[1].to_readable_string(), "[\"♠3\"] 単発 (強さ: 0)");
    assert_eq!(
        m.infos[15].to_readable_string(),
        "[\"♠3\", \"♣3\", \"♦3\", \"♥3\"] 4枚出し (革命) (強さ: 0) ★革命トリガー"
    );
    assert_eq!(m.infos[196].to_readable_string(), "[\"♠3\", \"♠4\", \"♠5\"] 階段 (強さ: 2)");
    assert_eq!(m.infos[460].to_readable_string(), "[\"Joker(1)\"] 単発 (強さ: 13)");
    assert_eq!(m.infos[461].to_readable_string(), "[\"Joker(1)\", \"Joker(2)\"] ペア (強さ: 13)");
    // the same format as Rust's own debug printing
    for info in &m.infos[1..] {
        let cards: Vec<String> = (0..info.size as usize)
            .map(|k| Card::from_index(info.required_cards[k] as usize).to_display_string())
            .collect();
        let kind = match info.action_type {
            ActionType::Stair => "階段",
            _ => match info.size {
                1 => "単発",
                2 => "ペア",
                3 => "3枚出し",
                4 => "4枚出し (革命)",
                _ => "グループ",
            },
        };
        let rev = if info.is_revolution_trigger { " ★革命トリガー" } else { "" };
        let expected = format!("{:?} {} (強さ: {}){}", cards, kind, info.strength, rev);
        assert_eq!(info.to_readable_string(), expected);
    }
}

#[test]
fn effects_follow_the_rules() {
    let m = ActionManager::new();
    let all = RuleEvaluator::new(RuleConfig {
        eight_cut: true,
        eleven_back: true,
        spade_3_beat: true,
        skip_five: true,
    });
    let none = RuleEvaluator::new(RuleConfig::default());
    // single eight of spades: rank index 5
    let eight = 1 + 5 * 15;
    let e = all.evaluate_effects(eight, &m);
    assert!(e.eight_cut && !e.eleven_back && e.skip_five_count == 0);
    assert!(!none.evaluate_effects(eight, &m).eight_cut);
    // pair of jacks: rank index 8, combo 3
    let jacks = 1 + 8 * 15 + 2;
    let e = all.evaluate_effects(jacks, &m);
    assert!(e.eleven_back && !e.eight_cut);
    // three fives: rank index 2, combo 7
    let fives = 1 + 2 * 15 + 6;
    assert_eq!(all.evaluate_effects(fives, &m).skip_five_count, 3);
    // stair 3-4-5 passes through the five
    assert_eq!(all.evaluate_effects(196, &m).skip_five_count, 1);
    // stair 6-7-8 (start 3) does not
    assert_eq!(all.evaluate_effects(196 + 3, &m).skip_five_count, 0);
    // jokers trigger nothing
    let e = all.evaluate_effects(JOKER_SINGLE_ACTION_ID, &m);
    assert!(!e.eight_cut && !e.eleven_back && e.skip_five_count == 0);
    let e = all.evaluate_effects(0, &m);
    assert!(!e.eight_cut && !e.eleven_back && e.skip_five_count == 0);
}

#[test]
fn every_card_has_its_own_label() {
    let mut labels: Vec<String> = (0..54usize).map(|i| Card::from_index(i).to_display_string()).collect();
    labels.sort();
    labels.dedup();
    assert_eq!(labels.len(), 54);
}

#[test]
fn no_two_actions_share_a_mask() {
    let m = ActionManager::new();
    let mut masks: Vec<u64> = m.infos.iter().map(|i| i.required_mask).collect();
    masks.sort();
    masks.dedup();
    assert_eq!(masks.len(), ACTION_SIZE);
}
