//! A moderator core for Quantum Werewolf: a social-deduction game in which
//! player roles are not fixed at game start but exist as a superposition of
//! every role assignment still consistent with the information revealed so
//! far. The engine keeps this superposition as an explicit set of possible
//! worlds ([`Universe`] values inside a [`Multiverse`]) and narrows it in
//! response to game actions, resolving ambiguity only when forced to.

mod multiverse;
mod rng;
mod state;
mod types;
mod world;

pub use multiverse::Multiverse;
pub use multiverse::collapse_outcome;
pub use multiverse::excluded_by_collapse;
pub use multiverse::lynch_outcome;
pub use multiverse::lemma_dead_players_have_fixed_roles;
pub use multiverse::lemma_descends_from_trans;
pub use multiverse::lemma_the_dead_stay_dead;
pub use multiverse::lemma_faction_counts_split;
pub use multiverse::faction_count;
pub use multiverse::dead_count;
pub use state::Complete;
pub use state::complete_outcome;
pub use state::ended_from;
pub use state::lynch_advanced_to;
pub use state::lynch_ended;
pub use state::result_testifies;
pub use state::has_heal_pair;
pub use state::has_investigation_pair;
pub use state::Day;
pub use state::Night;
pub use state::State;
pub use state::NightAction;
pub use state::Signups;
pub use state::StartGameError;
pub use state::MIN_PLAYERS;
pub use state::default_roles;
pub use state::requested_roles;
pub use state::spec_winners;
pub use multiverse::falling_factorial;
pub use multiverse::role_count;
pub use types::Faction;
pub use types::ascii_lower;
pub use types::ascii_lower_seq;
pub use world::Universe;
pub use world::World;
pub use world::count_true;
pub use world::lemma_mutual_destruction_favors_werewolves;
pub use types::NightActionResult;
pub use types::Role;
pub use types::UnknownRoleError;
