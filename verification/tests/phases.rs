use quantum_werewolf::Day;
use quantum_werewolf::NightActionResult;
use quantum_werewolf::Faction;
use quantum_werewolf::Multiverse;
use quantum_werewolf::Night;
use quantum_werewolf::NightAction;
use quantum_werewolf::Role;
use quantum_werewolf::Signups;
use quantum_werewolf::StartGameError;
use quantum_werewolf::State;
use quantum_werewolf::Universe;

fn world(roles: Vec<Role>, alive: Vec<bool>) -> Universe {
    let factions = roles.iter().map(|r| r.default_faction()).collect();
    Universe { alive, roles, factions, heals: vec![], kills: vec![] }
}

fn three_player_night() -> Night {
    Night {
        secret_ids: vec![10, 20, 30],
        last_heals: vec![None, None, None],
        multiverse: Multiverse::new(vec![Role::Werewolf(0)], 3),
    }
}

#[test]
fn signups_are_idempotent() {
    let mut signups = Signups::new();
    assert!(signups.sign_up(7));
    assert!(!signups.sign_up(7));
    assert!(signups.sign_up(8));
    assert_eq!(signups.num_players(), 2);
    assert!(signups.is_signed_up(7));
    assert!(!signups.is_signed_up(9));
    assert!(signups.remove_player(7));
    assert!(!signups.remove_player(7));
    assert_eq!(signups.num_players(), 1);
    assert!(!signups.is_signed_up(7));
}

#[test]
fn start_requires_three_players() {
    let mut signups = Signups::new();
    signups.sign_up(1);
    signups.sign_up(2);
    let err = signups.start(vec![Role::Werewolf(0)]).unwrap_err();
    assert_eq!(err, StartGameError::NotEnoughPlayers { required: 3, found: 2 });
}

#[test]
fn start_rejects_too_many_roles() {
    let mut signups = Signups::new();
    signups.sign_up(1);
    signups.sign_up(2);
    signups.sign_up(3);
    let roles = vec![Role::Werewolf(0), Role::Detective, Role::Healer, Role::Villager];
    let err = signups.start(roles).unwrap_err();
    assert_eq!(err, StartGameError::RolesCount { required: 3, found: 4 });
}

#[test]
fn start_yields_night_with_permuted_ids() {
    let mut signups = Signups::new();
    signups.sign_up(5);
    signups.sign_up(6);
    signups.sign_up(7);
    match signups.start(vec![Role::Werewolf(0)]).unwrap() {
        State::Night(night) => {
            let mut ids = night.secret_ids().clone();
            ids.sort();
            assert_eq!(ids, vec![5, 6, 7]);
            assert_eq!(night.multiverse.universes.len(), 3);
            assert_eq!(night.last_heals, vec![None, None, None]);
        }
        other => panic!("expected a night, got {:?}", other),
    }
}

#[test]
fn start_filters_villagers_and_renumbers_werewolves() {
    let mut signups = Signups::new();
    for p in 0..4 {
        signups.sign_up(p);
    }
    // two bare werewolf entries get consecutive ranks; villagers are the
    // implicit default and do not fork the multiverse
    let roles = vec![Role::Werewolf(0), Role::Villager, Role::Werewolf(0)];
    match signups.start(roles).unwrap() {
        State::Night(night) => {
            assert_eq!(night.multiverse.universes.len(), 12);
            for u in &night.multiverse.universes {
                assert!(u.roles.contains(&Role::Werewolf(0)));
                assert!(u.roles.contains(&Role::Werewolf(1)));
            }
        }
        other => panic!("expected a night, got {:?}", other),
    }
}

#[test]
fn start_with_no_threats_completes_immediately() {
    let mut signups = Signups::new();
    signups.sign_up(1);
    signups.sign_up(2);
    signups.sign_up(3);
    // all-villager configuration: the village wins before the first night
    match signups.start(vec![]).unwrap() {
        State::Complete(complete) => {
            let mut winners = complete.winners.clone();
            winners.sort();
            assert_eq!(winners, vec![1, 2, 3]);
        }
        other => panic!("expected a completed game, got {:?}", other),
    }
}

#[test]
fn actions_complete_requires_kills_from_everyone() {
    let night = three_player_night();
    assert!(!night.actions_complete(&vec![]));
    let partial = vec![NightAction::Kill(10, 20), NightAction::Kill(20, 10)];
    assert!(!night.actions_complete(&partial));
    let full = vec![
        NightAction::Kill(10, 20),
        NightAction::Kill(20, 10),
        NightAction::Kill(30, 10),
    ];
    assert!(night.actions_complete(&full));
}

#[test]
fn actions_complete_requires_heals_while_a_healer_may_live() {
    let night = Night {
        secret_ids: vec![10, 20, 30],
        last_heals: vec![None, None, None],
        multiverse: Multiverse::new(vec![Role::Werewolf(0), Role::Healer], 3),
    };
    let kills_only = vec![
        NightAction::Kill(10, 20),
        NightAction::Kill(20, 10),
        NightAction::Kill(30, 10),
    ];
    assert!(!night.actions_complete(&kills_only));
    let mut with_heals = kills_only.clone();
    with_heals.push(NightAction::Heal(10, 20));
    with_heals.push(NightAction::Heal(20, 30));
    with_heals.push(NightAction::Heal(30, 10));
    assert!(night.actions_complete(&with_heals));
}

#[test]
fn resolve_nar_reaches_day_or_complete() {
    let night = three_player_night();
    let actions = vec![
        NightAction::Kill(10, 20),
        NightAction::Kill(20, 10),
        NightAction::Kill(30, 10),
    ];
    match night.resolve_nar(&actions) {
        State::Day(day) => {
            assert_eq!(day.secret_ids(), &vec![10, 20, 30]);
            // in every surviving world at most the werewolf's victim died
            for u in &day.multiverse.universes {
                assert_eq!(u.alive.iter().filter(|a| **a).count(), 2);
            }
        }
        State::Complete(_) => {
            // also a legal outcome if only a werewolf survives everywhere
        }
        other => panic!("expected day or complete, got {:?}", other),
    }
}

#[test]
fn dead_players_stay_dead() {
    // one concrete world: player 0 is the werewolf
    let night = Night {
        secret_ids: vec![10, 20, 30],
        last_heals: vec![None, None, None],
        multiverse: Multiverse {
            universes: vec![world(
                vec![Role::Werewolf(0), Role::Villager, Role::Villager],
                vec![true, true, true],
            )],
        },
    };
    let actions = vec![
        NightAction::Kill(10, 20),
        NightAction::Kill(20, 30),
        NightAction::Kill(30, 10),
    ];
    match night.resolve_nar(&actions) {
        State::Day(day) => {
            // only the true werewolf's order took effect
            assert_eq!(day.multiverse.universes[0].alive, vec![true, false, true]);
            let alive = day.alive();
            assert!(!alive.contains(&20));
            // the dead player never comes back: lynch someone else and look
            // again
            match day.lynch(30) {
                State::Night(night2) => {
                    assert_eq!(night2.multiverse.universes[0].alive, vec![true, false, false]);
                }
                State::Complete(_) => {}
                other => panic!("expected night or complete, got {:?}", other),
            }
        }
        other => panic!("expected a day, got {:?}", other),
    }
}

fn two_world_day() -> Day {
    // player 2 is dead in both worlds; players 0 and 1 are alive
    Day {
        secret_ids: vec![10, 20, 30],
        multiverse: Multiverse {
            universes: vec![world(
                vec![Role::Werewolf(0), Role::Villager, Role::Villager],
                vec![true, true, false],
            )],
        },
        night_action_results: vec![None, None, None],
        last_heals: vec![None, None, None],
    }
}

#[test]
fn can_lynch_rejects_the_dead_and_the_unknown() {
    let day = two_world_day();
    assert!(day.can_lynch(10));
    assert!(day.can_lynch(20));
    // dead in every remaining world
    assert!(!day.can_lynch(30));
    // not in the game at all
    assert!(!day.can_lynch(99));
}

#[test]
fn lynch_kills_the_target_everywhere() {
    let day = Day {
        secret_ids: vec![10, 20, 30, 40],
        multiverse: Multiverse {
            universes: vec![world(
                vec![Role::Werewolf(0), Role::Villager, Role::Villager, Role::Villager],
                vec![true, true, true, false],
            )],
        },
        night_action_results: vec![None, None, None, None],
        last_heals: vec![None, None, None, None],
    };
    match day.lynch(20) {
        State::Night(night) => {
            assert_eq!(night.multiverse.universes[0].alive, vec![true, false, true, false]);
        }
        other => panic!("expected a night, got {:?}", other),
    }
}

#[test]
fn lynch_down_to_one_survivor_favors_the_werewolf() {
    // lynching the villager leaves a single player alive: the game ends and
    // the lone werewolf wins
    let day = two_world_day();
    match day.lynch(20) {
        State::Complete(complete) => {
            assert_eq!(complete.winners, vec![10]);
        }
        other => panic!("expected a completed game, got {:?}", other),
    }
}

#[test]
fn lynching_the_werewolf_ends_the_game() {
    let day = two_world_day();
    match day.lynch(10) {
        State::Complete(complete) => {
            // every village-faction player wins, the already-dead one
            // included
            assert_eq!(complete.winners, vec![20, 30]);
        }
        other => panic!("expected a completed game, got {:?}", other),
    }
}

#[test]
fn no_lynch_only_rechecks_the_end_condition() {
    let day = two_world_day();
    match day.no_lynch() {
        State::Night(night) => {
            assert_eq!(night.secret_ids, vec![10, 20, 30]);
            assert_eq!(night.multiverse.universes.len(), 1);
            assert_eq!(night.multiverse.universes[0].alive, vec![true, true, false]);
        }
        other => panic!("expected a night, got {:?}", other),
    }
    // a decided game completes instead
    let decided = Day {
        secret_ids: vec![10, 20],
        multiverse: Multiverse {
            universes: vec![world(vec![Role::Villager, Role::Werewolf(0)], vec![true, false])],
        },
        night_action_results: vec![None, None],
        last_heals: vec![None, None],
    };
    match decided.no_lynch() {
        State::Complete(complete) => {
            assert_eq!(complete.winners, vec![10]);
        }
        other => panic!("expected a completed game, got {:?}", other),
    }
}

#[test]
fn night_action_results_pair_players_with_outcomes() {
    let day = Day {
        secret_ids: vec![10, 20, 30],
        multiverse: Multiverse::new(vec![Role::Werewolf(0)], 3),
        night_action_results: vec![
            None,
            Some(NightActionResult::Investigation(Faction::Village)),
            None,
        ],
        last_heals: vec![None, None, None],
    };
    let results = day.night_action_results();
    assert_eq!(results, vec![(20, NightActionResult::Investigation(Faction::Village))]);
}

#[test]
fn state_accessors_follow_the_phase() {
    let mut signups = Signups::new();
    signups.sign_up(1);
    let state = State::Signups(signups);
    assert!(state.alive().is_none());
    assert!(state.secret_ids().is_none());
    assert_eq!(state.num_players(), 1);

    let night_state = State::Night(three_player_night());
    assert_eq!(night_state.num_players(), 3);
    assert_eq!(night_state.secret_ids(), Some(&vec![10, 20, 30]));
    let mut alive = night_state.alive().unwrap();
    alive.sort();
    assert_eq!(alive, vec![10, 20, 30]);
    // every role is still ambiguous in a fresh game
    assert_eq!(night_state.role(10), None);
}

#[test]
fn state_role_reports_fixed_roles() {
    let night = Night {
        secret_ids: vec![10, 20],
        last_heals: vec![None, None],
        multiverse: Multiverse {
            universes: vec![world(vec![Role::Werewolf(0), Role::Villager], vec![true, true])],
        },
    };
    let state = State::Night(night);
    assert_eq!(state.role(10), Some(Role::Werewolf(0)));
    assert_eq!(state.role(20), Some(Role::Villager));
}

#[test]
fn resolve_nar_heal_protects_the_target() {
    let night = Night {
        secret_ids: vec![10, 20, 30],
        last_heals: vec![None, None, None],
        multiverse: Multiverse {
            universes: vec![world(
                vec![Role::Healer, Role::Werewolf(0), Role::Villager],
                vec![true, true, true],
            )],
        },
    };
    let actions = vec![
        NightAction::Heal(10, 30),
        NightAction::Kill(10, 20),
        NightAction::Kill(20, 30),
        NightAction::Kill(30, 20),
    ];
    match night.resolve_nar(&actions) {
        State::Day(day) => {
            // the werewolf struck the healed villager: nobody died
            assert_eq!(day.multiverse.universes[0].alive, vec![true, true, true]);
        }
        other => panic!("expected a day, got {:?}", other),
    }
}

#[test]
fn resolve_nar_forbids_repeat_heals() {
    let night = Night {
        secret_ids: vec![10, 20, 30],
        // the healer already protected player 30 last night
        last_heals: vec![Some(2), None, None],
        multiverse: Multiverse {
            universes: vec![world(
                vec![Role::Healer, Role::Werewolf(0), Role::Villager],
                vec![true, true, true],
            )],
        },
    };
    let actions = vec![
        NightAction::Heal(10, 30),
        NightAction::Kill(10, 20),
        NightAction::Kill(20, 30),
        NightAction::Kill(30, 20),
    ];
    match night.resolve_nar(&actions) {
        State::Day(day) => {
            // the repeat heal was dropped, so the werewolf's victim died
            assert_eq!(day.multiverse.universes[0].alive, vec![true, true, false]);
        }
        other => panic!("expected a day, got {:?}", other),
    }
}

#[test]
fn resolve_nar_keeps_first_action_per_kind() {
    let night = Night {
        secret_ids: vec![10, 20, 30],
        last_heals: vec![None, None, None],
        multiverse: Multiverse {
            universes: vec![world(
                vec![Role::Healer, Role::Werewolf(0), Role::Villager],
                vec![true, true, true],
            )],
        },
    };
    // the healer's second heal (on the werewolf's actual victim) is a
    // duplicate and must be ignored
    let actions = vec![
        NightAction::Heal(10, 10),
        NightAction::Heal(10, 30),
        NightAction::Kill(10, 20),
        NightAction::Kill(20, 30),
        NightAction::Kill(30, 20),
    ];
    match night.resolve_nar(&actions) {
        State::Day(day) => {
            assert_eq!(day.multiverse.universes[0].alive, vec![true, true, false]);
        }
        other => panic!("expected a day, got {:?}", other),
    }
}

#[test]
fn resolve_nar_delivers_investigation_results() {
    let night = Night {
        secret_ids: vec![10, 20, 30],
        last_heals: vec![None, None, None],
        multiverse: Multiverse {
            universes: vec![world(
                vec![Role::Detective, Role::Werewolf(0), Role::Villager],
                vec![true, true, true],
            )],
        },
    };
    let actions = vec![
        NightAction::Investigate(10, 20),
        NightAction::Kill(10, 30),
        NightAction::Kill(20, 30),
        NightAction::Kill(30, 10),
    ];
    match night.resolve_nar(&actions) {
        State::Day(day) => {
            let results = day.night_action_results();
            assert_eq!(
                results,
                vec![(10, NightActionResult::Investigation(Faction::Werewolves))],
            );
        }
        other => panic!("expected a day, got {:?}", other),
    }
}

#[test]
fn resolve_nar_discards_dead_target_investigations() {
    let night = Night {
        secret_ids: vec![10, 20, 30],
        last_heals: vec![None, None, None],
        multiverse: Multiverse {
            universes: vec![world(
                vec![Role::Detective, Role::Werewolf(0), Role::Villager],
                vec![true, true, false],
            )],
        },
    };
    // player 30 is dead in every world: investigating them is illegal and
    // the action is dropped without a result
    let actions = vec![
        NightAction::Investigate(10, 30),
        NightAction::Kill(10, 20),
        NightAction::Kill(20, 20),
    ];
    match night.resolve_nar(&actions) {
        State::Day(day) => {
            assert!(day.night_action_results().is_empty());
        }
        State::Complete(_) => {}
        other => panic!("expected day or complete, got {:?}", other),
    }
}

#[test]
fn resolve_tar_drives_a_full_night() {
    let night = Night {
        secret_ids: vec![10, 20, 30],
        last_heals: vec![None, None, None],
        multiverse: Multiverse {
            universes: vec![world(
                vec![Role::Werewolf(0), Role::Villager, Role::Villager],
                vec![true, true, true],
            )],
        },
    };
    // nobody heals or investigates; everyone names player 20 for the kill
    let result = night.resolve_tar(
        |_p, _candidates| None,
        |_p, _candidates| None,
        |_p, _candidates| 20u64,
    );
    match result {
        State::Day(day) => {
            assert_eq!(day.multiverse.universes[0].alive, vec![true, false, true]);
        }
        other => panic!("expected a day, got {:?}", other),
    }
}

#[test]
fn resolve_tar_heal_protects_and_results_are_delivered() {
    let night = Night {
        secret_ids: vec![10, 20, 30],
        last_heals: vec![None, None, None],
        multiverse: Multiverse {
            universes: vec![world(
                vec![Role::Healer, Role::Werewolf(0), Role::Detective],
                vec![true, true, true],
            )],
        },
    };
    // the healer protects player 30, the detective investigates player 20,
    // and everyone names player 30 for the kill
    let result = night.resolve_tar(
        |_p, _candidates| Some(30u64),
        |_p, _candidates| Some(20u64),
        |_p, _candidates| 30u64,
    );
    match result {
        State::Day(day) => {
            assert_eq!(day.multiverse.universes[0].alive, vec![true, true, true]);
            assert_eq!(
                day.night_action_results(),
                vec![(30, NightActionResult::Investigation(Faction::Werewolves))],
            );
        }
        other => panic!("expected a day, got {:?}", other),
    }
}

#[test]
fn a_new_game_starts_in_signups() {
    let state = State::default();
    assert!(matches!(state, State::Signups(_)));
    assert_eq!(state.num_players(), 0);
}

#[test]
fn resolve_tar_treats_unknown_choices_as_abstentions() {
    let night = Night {
        secret_ids: vec![10, 20, 30],
        last_heals: vec![None, None, None],
        multiverse: Multiverse {
            universes: vec![world(
                vec![Role::Werewolf(0), Role::Villager, Role::Villager],
                vec![true, true, true],
            )],
        },
    };
    let result = night.resolve_tar(
        |_p, _candidates| Some(99u64),
        |_p, _candidates| Some(99u64),
        |_p, _candidates| 99u64,
    );
    match result {
        State::Day(day) => {
            assert_eq!(day.multiverse.universes[0].alive, vec![true, true, true]);
        }
        other => panic!("expected a day, got {:?}", other),
    }
}
