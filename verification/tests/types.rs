use quantum_werewolf::Faction;
use quantum_werewolf::Role;
use quantum_werewolf::UnknownRoleError;

#[test]
fn parse_known_tokens() {
    assert_eq!(Role::parse("detective"), Ok(Role::Detective));
    assert_eq!(Role::parse("healer"), Ok(Role::Healer));
    assert_eq!(Role::parse("villager"), Ok(Role::Villager));
    assert_eq!(Role::parse("werewolf"), Ok(Role::Werewolf(0)));
}

#[test]
fn parse_unknown_token_fails() {
    assert_eq!(Role::parse("seer"), Err(UnknownRoleError));
    assert_eq!(Role::parse(""), Err(UnknownRoleError));
    assert_eq!(Role::parse("werewolf 0"), Err(UnknownRoleError));
    assert_eq!(Role::parse("detectives"), Err(UnknownRoleError));
}

#[test]
fn parse_ignores_ascii_case() {
    assert_eq!(Role::parse("Detective"), Ok(Role::Detective));
    assert_eq!(Role::parse("HEALER"), Ok(Role::Healer));
    assert_eq!(Role::parse("VilLaGer"), Ok(Role::Villager));
    assert_eq!(Role::parse("Werewolf"), Ok(Role::Werewolf(0)));
}

#[test]
fn tokens_round_trip() {
    for role in [Role::Detective, Role::Healer, Role::Villager, Role::Werewolf(0)] {
        assert_eq!(Role::parse(role.token()), Ok(role));
    }
    // werewolf rank is not part of the text encoding
    assert_eq!(Role::Werewolf(5).token(), "werewolf");
    assert_eq!(Role::parse(Role::Werewolf(5).token()), Ok(Role::Werewolf(0)));
}

#[test]
fn faction_tokens() {
    assert_eq!(Faction::Village.token(), "village");
    assert_eq!(Faction::Werewolves.token(), "werewolves");
}

#[test]
fn default_faction_mapping() {
    assert_eq!(Role::Detective.default_faction(), Faction::Village);
    assert_eq!(Role::Healer.default_faction(), Faction::Village);
    assert_eq!(Role::Villager.default_faction(), Faction::Village);
    assert_eq!(Role::Werewolf(0).default_faction(), Faction::Werewolves);
    assert_eq!(Role::Werewolf(7).default_faction(), Faction::Werewolves);
}
