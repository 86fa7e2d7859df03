use quantum_werewolf::Faction;
use quantum_werewolf::Multiverse;
use quantum_werewolf::Role;
use quantum_werewolf::Universe;

fn world(roles: Vec<Role>, alive: Vec<bool>) -> Universe {
    let factions = roles.iter().map(|r| r.default_faction()).collect();
    Universe { alive, roles, factions, heals: vec![], kills: vec![] }
}

#[test]
fn one_werewolf_three_players_gives_three_worlds() {
    let mv = Multiverse::new(vec![Role::Werewolf(0)], 3);
    assert_eq!(mv.universes.len(), 3);
}

#[test]
fn werewolf_and_detective_three_players_gives_six_worlds() {
    let mv = Multiverse::new(vec![Role::Werewolf(0), Role::Detective], 3);
    assert_eq!(mv.universes.len(), 6);
}

#[test]
fn no_requested_roles_gives_one_world() {
    let mv = Multiverse::new(vec![], 4);
    assert_eq!(mv.universes.len(), 1);
    assert_eq!(mv.universes[0].roles, vec![Role::Villager; 4]);
}

#[test]
fn construction_places_each_role_once() {
    let mv = Multiverse::new(vec![Role::Werewolf(0), Role::Detective], 4);
    assert_eq!(mv.universes.len(), 12);
    for u in &mv.universes {
        assert_eq!(u.alive, vec![true; 4]);
        assert!(u.heals.is_empty());
        assert!(u.kills.is_empty());
        let ww = u.roles.iter().filter(|r| **r == Role::Werewolf(0)).count();
        let det = u.roles.iter().filter(|r| **r == Role::Detective).count();
        let vil = u.roles.iter().filter(|r| **r == Role::Villager).count();
        assert_eq!((ww, det, vil), (1, 1, 2));
    }
}

#[test]
fn mutual_destruction_favors_werewolves() {
    // alive = [false, false, false] yields a werewolves win and no village
    // win, for any faction assignment
    let assignments = [
        vec![Role::Villager, Role::Villager, Role::Villager],
        vec![Role::Werewolf(0), Role::Villager, Role::Villager],
        vec![Role::Werewolf(0), Role::Werewolf(1), Role::Detective],
        vec![Role::Werewolf(0), Role::Werewolf(1), Role::Werewolf(2)],
    ];
    for roles in assignments {
        let u = world(roles, vec![false, false, false]);
        assert!(Faction::Werewolves.wincon(&u));
        assert!(!Faction::Village.wincon(&u));
    }
}

#[test]
fn village_wins_when_last_werewolf_dies() {
    // alive = [true, false], factions = [Village, Werewolves]
    let u = world(vec![Role::Villager, Role::Werewolf(0)], vec![true, false]);
    assert!(Faction::Village.wincon(&u));
    assert!(!Faction::Werewolves.wincon(&u));
}

#[test]
fn werewolves_win_when_last_villager_dies() {
    let u = world(vec![Role::Villager, Role::Werewolf(0)], vec![false, true]);
    assert!(!Faction::Village.wincon(&u));
    assert!(Faction::Werewolves.wincon(&u));
}

#[test]
fn game_over_rules() {
    // two players alive on opposite factions: game goes on, day or night
    let open = Multiverse {
        universes: vec![world(
            vec![Role::Villager, Role::Werewolf(0), Role::Villager],
            vec![true, true, false],
        )],
    };
    assert!(!open.game_over(false));
    assert!(!open.game_over(true));
    // a single player left alive ends the game by day, but not at night
    let last = Multiverse {
        universes: vec![world(
            vec![Role::Villager, Role::Werewolf(0), Role::Villager],
            vec![false, true, false],
        )],
    };
    assert!(last.game_over(false));
    assert!(!last.game_over(true));
    // everyone dead ends the game even at night
    let dead = Multiverse {
        universes: vec![world(
            vec![Role::Villager, Role::Werewolf(0), Role::Villager],
            vec![false, false, false],
        )],
    };
    assert!(dead.game_over(false));
    assert!(dead.game_over(true));
    // the game is only over once every world independently says so
    let mixed = Multiverse {
        universes: vec![
            world(
                vec![Role::Villager, Role::Werewolf(0), Role::Villager],
                vec![false, true, false],
            ),
            world(
                vec![Role::Villager, Role::Werewolf(0), Role::Villager],
                vec![true, true, false],
            ),
        ],
    };
    assert!(!mixed.game_over(false));
}

#[test]
fn kill_at_night_is_deferred_and_heals_protect() {
    let mut u = world(vec![Role::Villager, Role::Werewolf(0)], vec![true, true]);
    u.heal(0);
    u.kill(0, true);
    // protected: not even marked
    assert_eq!(u.kills, Vec::<usize>::new());
    u.kill(1, true);
    assert_eq!(u.kills, vec![1]);
    // still alive until dawn
    assert_eq!(u.alive, vec![true, true]);
}

#[test]
fn kill_by_day_is_immediate() {
    let mut u = world(vec![Role::Villager, Role::Werewolf(0)], vec![true, true]);
    u.kill(1, false);
    assert_eq!(u.alive, vec![true, false]);
}

#[test]
fn alive_reports_players_alive_somewhere() {
    let mv = Multiverse {
        universes: vec![
            world(vec![Role::Werewolf(0), Role::Villager], vec![true, false]),
            world(vec![Role::Villager, Role::Werewolf(0)], vec![false, false]),
        ],
    };
    assert_eq!(mv.alive(), vec![0]);
    assert!(mv.alive_in_some_universe(0));
    assert!(!mv.alive_in_some_universe(1));
    // indices come back in increasing order, each at most once
    let three = Multiverse {
        universes: vec![
            world(
                vec![Role::Werewolf(0), Role::Villager, Role::Villager],
                vec![true, false, true],
            ),
            world(
                vec![Role::Villager, Role::Werewolf(0), Role::Villager],
                vec![true, false, true],
            ),
        ],
    };
    assert_eq!(three.alive(), vec![0, 2]);
}

#[test]
fn role_and_faction_report_ambiguity() {
    let mv = Multiverse::new(vec![Role::Werewolf(0)], 3);
    for i in 0..3 {
        assert_eq!(mv.role(i), None);
        assert_eq!(mv.faction(i), None);
    }
    let fixed = Multiverse {
        universes: vec![
            world(vec![Role::Werewolf(0), Role::Villager, Role::Detective], vec![true; 3]),
            world(vec![Role::Werewolf(0), Role::Detective, Role::Villager], vec![true; 3]),
        ],
    };
    assert_eq!(fixed.role(0), Some(Role::Werewolf(0)));
    assert_eq!(fixed.faction(0), Some(Faction::Werewolves));
    assert_eq!(fixed.role(1), None);
    assert_eq!(fixed.faction(1), Some(Faction::Village));
}

#[test]
fn role_alive_sees_ambiguous_dead_roles() {
    // the detective is dead in both worlds, but a different player holds it
    // in each, so the role cannot be assumed extinct
    let mv = Multiverse {
        universes: vec![
            world(vec![Role::Detective, Role::Villager, Role::Villager], vec![false, true, true]),
            world(vec![Role::Villager, Role::Detective, Role::Villager], vec![true, false, true]),
        ],
    };
    assert!(mv.role_alive(Role::Detective));
    // once collapsed to a single world, a dead role is extinct
    let single = Multiverse {
        universes: vec![world(
            vec![Role::Detective, Role::Villager, Role::Villager],
            vec![false, true, true],
        )],
    };
    assert!(!single.role_alive(Role::Detective));
    assert!(!single.role_alive(Role::Werewolf(0)));
    assert!(single.role_alive(Role::Villager));
}

#[test]
fn investigation_filter_removes_exactly_disagreeing_worlds() {
    // player 0 is a live Detective in world A and a Villager in world B;
    // player 1's faction differs between the two
    let world_a = || world(vec![Role::Detective, Role::Werewolf(0)], vec![true, true]);
    let world_b = || world(vec![Role::Villager, Role::Villager], vec![true, true]);
    // a revealed Village faction contradicts world A's own testimony
    let mut mv = Multiverse { universes: vec![world_a(), world_b()] };
    mv.filter_investigation(0, 1, Faction::Village);
    assert_eq!(mv.universes, vec![world_b()]);
    // a revealed Werewolves faction is consistent with A, and B does not
    // testify at all (player 0 is no detective there)
    let mut mv = Multiverse { universes: vec![world_a(), world_b()] };
    mv.filter_investigation(0, 1, Faction::Werewolves);
    assert_eq!(mv.universes, vec![world_a(), world_b()]);
}

#[test]
fn investigation_samples_only_detective_worlds() {
    // the only world where player 0 is a live detective says Werewolves, so
    // the revealed faction is determined and no world is discarded
    let mut mv = Multiverse {
        universes: vec![
            world(vec![Role::Detective, Role::Werewolf(0)], vec![true, true]),
            world(vec![Role::Villager, Role::Villager], vec![true, true]),
        ],
    };
    assert_eq!(mv.investigate(0, 1), Some(Faction::Werewolves));
    assert_eq!(mv.universes.len(), 2);
    // without any detective world for this player, nothing happens
    let mut none = Multiverse {
        universes: vec![world(vec![Role::Villager, Role::Villager], vec![true, true])],
    };
    assert_eq!(none.investigate(0, 1), None);
    assert_eq!(none.universes.len(), 1);
}

#[test]
fn collapse_fixes_roles_of_dead_players() {
    // player 0 is dead in all three worlds with a different role in each;
    // collapse must pick one and discard the disagreeing worlds
    let mv_worlds = vec![
        world(vec![Role::Detective, Role::Werewolf(0), Role::Villager], vec![false, true, true]),
        world(vec![Role::Werewolf(0), Role::Detective, Role::Villager], vec![false, true, true]),
        world(vec![Role::Villager, Role::Werewolf(0), Role::Detective], vec![false, true, true]),
    ];
    let mut mv = Multiverse { universes: mv_worlds };
    mv.collapse_roles();
    assert_eq!(mv.universes.len(), 1);
    assert!(mv.role(0).is_some());
}

#[test]
fn collapse_is_idempotent() {
    let mv_worlds = vec![
        world(vec![Role::Detective, Role::Werewolf(0), Role::Villager], vec![false, true, true]),
        world(vec![Role::Werewolf(0), Role::Detective, Role::Villager], vec![false, true, true]),
        world(vec![Role::Detective, Role::Villager, Role::Werewolf(0)], vec![false, true, true]),
    ];
    let mut mv = Multiverse { universes: mv_worlds };
    mv.collapse_roles();
    let after_first: Vec<Universe> = mv
        .universes
        .iter()
        .map(|u| u.duplicate())
        .collect();
    mv.collapse_roles();
    assert_eq!(mv.universes, after_first);
}

#[test]
fn collapse_keeps_living_ambiguity() {
    // nobody is dead anywhere: collapse must not discard anything
    let mut mv = Multiverse::new(vec![Role::Werewolf(0), Role::Detective], 3);
    mv.collapse_roles();
    assert_eq!(mv.universes.len(), 6);
}

#[test]
fn probability_table_counts() {
    // three worlds, one werewolf among three players: each player is the
    // werewolf in exactly one world and nobody is dead anywhere
    let mv = Multiverse::new(vec![Role::Werewolf(0)], 3);
    let table = mv.probability_table();
    assert_eq!(table.len(), 3);
    for row in &table {
        assert_eq!(*row, Ok((2, 1, 0)));
    }
}

#[test]
fn probability_table_fractions_sum_to_one() {
    let mv = Multiverse::new(vec![Role::Werewolf(0), Role::Detective], 4);
    let total = mv.universes.len();
    for row in mv.probability_table() {
        let (village, werewolves, dead) = row.expect("all players can still be alive");
        // the two faction fractions always sum to 1; the dead fraction is an
        // independent axis
        assert_eq!(village + werewolves, total);
        assert!(dead <= total);
    }
}

#[test]
fn probability_table_reports_faction_of_the_dead() {
    let mv = Multiverse {
        universes: vec![
            world(vec![Role::Werewolf(0), Role::Villager], vec![false, true]),
            world(vec![Role::Werewolf(0), Role::Detective], vec![false, true]),
        ],
    };
    let table = mv.probability_table();
    assert_eq!(table[0], Err(Faction::Werewolves));
    assert_eq!(table[1], Ok((2, 0, 0)));
}

#[test]
fn dawn_applies_pending_kills() {
    let mut u = world(vec![Role::Villager, Role::Werewolf(0)], vec![true, true]);
    u.heal(0);
    u.kill(0, true);
    u.kill(1, true);
    let mut mv = Multiverse { universes: vec![u] };
    mv.apply_dawn();
    assert_eq!(mv.universes[0].alive, vec![true, false]);
}

#[test]
fn heal_protects_through_the_whole_night() {
    let mut mv = Multiverse {
        universes: vec![world(vec![Role::Healer, Role::Werewolf(0)], vec![true, true])],
    };
    mv.reset_night();
    // the healer protects themselves, then the werewolf strikes them
    mv.apply_heal(0, 0);
    mv.apply_werewolf_kill(1, 0);
    mv.apply_dawn();
    assert_eq!(mv.universes[0].alive, vec![true, true]);
}

#[test]
fn only_the_dominant_werewolf_kills() {
    // rank 1 orders a kill while rank 0 is still alive: no effect
    let mut mv = Multiverse {
        universes: vec![world(
            vec![Role::Werewolf(0), Role::Werewolf(1), Role::Villager],
            vec![true, true, true],
        )],
    };
    mv.reset_night();
    mv.apply_werewolf_kill(1, 2);
    mv.apply_dawn();
    assert_eq!(mv.universes[0].alive, vec![true, true, true]);
    // once rank 0 is dead, rank 1 leads the pack
    let mut mv = Multiverse {
        universes: vec![world(
            vec![Role::Werewolf(0), Role::Werewolf(1), Role::Villager],
            vec![false, true, true],
        )],
    };
    mv.reset_night();
    mv.apply_werewolf_kill(1, 2);
    mv.apply_dawn();
    assert_eq!(mv.universes[0].alive, vec![false, true, false]);
}

#[test]
fn lynch_discards_worlds_where_target_was_dead() {
    let mut mv = Multiverse {
        universes: vec![
            world(vec![Role::Werewolf(0), Role::Villager], vec![true, true]),
            world(vec![Role::Villager, Role::Werewolf(0)], vec![false, true]),
        ],
    };
    mv.apply_lynch(0);
    // the world where player 0 was already dead is impossible now
    assert_eq!(mv.universes.len(), 1);
    assert_eq!(mv.universes[0].alive, vec![false, true]);
    assert_eq!(mv.universes[0].roles, vec![Role::Werewolf(0), Role::Villager]);
}
