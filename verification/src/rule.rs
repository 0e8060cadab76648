use vstd::prelude::*;

use crate::action::{ActionInfo, ActionManager, ActionType, INVALID_CARD};

verus! {

/// Which local rules are in force.
#[derive(Debug, Clone, Copy, Default)]
pub struct RuleConfig {
    /// Playing eights clears the field.
    pub eight_cut: bool,
    /// Playing jacks reverses card strength until the field clears.
    pub eleven_back: bool,
    /// The three of spades beats a lone joker.
    pub spade_3_beat: bool,
    /// Playing fives skips players.
    pub skip_five: bool,
}

/// What a played action triggers under the rules in force.
#[derive(Debug, Clone, Default)]
pub struct HandEffects {
    pub eight_cut: bool,
    pub eleven_back: bool,
    pub skip_five_count: usize,
}

/// Decides the effects of actions under a rule configuration.
pub struct RuleEvaluator {
    pub config: RuleConfig,
}

/// The first card of a group is a suited card of rank index `rank`.
pub open spec fn group_of_rank(info: ActionInfo, rank: int) -> bool {
    &&& info.action_type == ActionType::Group
    &&& info.required_cards@[0] != INVALID_CARD
    &&& info.required_cards@[0] < 52
    &&& info.required_cards@[0] % 13 == rank
}

/// The effects of playing `info` under `config`: a group of eights cuts, a
/// group of jacks reverses strength, and with five-skipping a group of fives
/// skips as many players as it has cards while a stair through the five skips one.
pub open spec fn effects_of(config: RuleConfig, info: ActionInfo) -> HandEffects {
    HandEffects {
        eight_cut: config.eight_cut && group_of_rank(info, 5),
        eleven_back: config.eleven_back && group_of_rank(info, 8),
        skip_five_count: if !config.skip_five {
            0
        } else {
            match info.action_type {
                ActionType::Group => if group_of_rank(info, 2) {
                    info.size as usize
                } else {
                    0
                },
                ActionType::Stair => {
                    let start = info.required_cards@[0] % 13;
                    if start <= 2 && 2 <= start + info.size - 1 {
                        1
                    } else {
                        0
                    }
                },
                ActionType::Pass => 0,
            }
        },
    }
}

impl RuleEvaluator {
    pub fn new(config: RuleConfig) -> (res: RuleEvaluator)
        ensures
            res.config == config,
    {
        RuleEvaluator { config }
    }

    /// The effects of playing action `action_id` under this evaluator's rules.
    pub fn evaluate_effects(&self, action_id: usize, action_manager: &ActionManager) -> (res:
        HandEffects)
        requires
            action_id < action_manager.infos@.len(),
            action_manager.infos@[action_id as int].action_type == ActionType::Stair
                ==> action_manager.infos@[action_id as int].required_cards@[0] % 13
                + action_manager.infos@[action_id as int].size >= 1,
        ensures
            res == effects_of(self.config, action_manager.infos@[action_id as int]),
    {
        let mut effects = HandEffects { eight_cut: false, eleven_back: false, skip_five_count: 0 };
        let info = &action_manager.infos[action_id];
        if self.config.eight_cut && info.action_type == ActionType::Group {
            let card_idx = info.required_cards[0] as usize;
            if card_idx != INVALID_CARD as usize && card_idx < 52 {
                if card_idx % 13 == 5 {
                    effects.eight_cut = true;
                }
            }
        }
        if self.config.eleven_back && info.action_type == ActionType::Group {
            let card_idx = info.required_cards[0] as usize;
            if card_idx != INVALID_CARD as usize && card_idx < 52 {
                if card_idx % 13 == 8 {
                    effects.eleven_back = true;
                }
            }
        }
        if self.config.skip_five {
            match info.action_type {
                ActionType::Group => {
                    let card_idx = info.required_cards[0] as usize;
                    if card_idx != INVALID_CARD as usize && card_idx < 52 {
                        if card_idx % 13 == 2 {
                            effects.skip_five_count = info.size as usize;
                        }
                    }
                },
                ActionType::Stair => {
                    let start_rank = (info.required_cards[0] as usize) % 13;
                    let end_rank = start_rank + (info.size as usize) - 1;
                    if start_rank <= 2 && 2 <= end_rank {
                        effects.skip_five_count = 1;
                    }
                },
                _ => {},
            }
        }
        effects
    }
}

} // verus!
