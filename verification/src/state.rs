//! The phase state machine: Signups, Night, Day, Complete. Each phase owns
//! the transition logic that consumes a multiverse and produces the next
//! phase; consuming transitions make phase-inapplicable operations (such as
//! lynching during night) unrepresentable.
//!
//! Players are addressed by opaque numeric identities. A game assigns each
//! signed-up player a secret index — their position in the `secret_ids`
//! permutation, fixed once at game start — and the multiverse speaks only of
//! indices.

use vstd::prelude::*;

use crate::multiverse::collapse_outcome;
use crate::multiverse::falling_factorial;
use crate::multiverse::lynch_outcome;
use crate::multiverse::role_count;
use crate::multiverse::Multiverse;
use crate::rng::random_index;
use crate::rng::shuffle;
use crate::types::Faction;
use crate::types::NightActionResult;
use crate::types::Role;
use crate::world::copy_vec;
use crate::world::World;

verus! {

/// The minimum number of players required to start a game.
pub const MIN_PLAYERS: usize = 3;

/// A night action submitted by a player, naming the acting player and the
/// target player.
#[derive(Debug, Clone, Copy, PartialEq, Eq, Structural)]
pub enum NightAction {
    /// The acting player heals the target for the night.
    Heal(u64, u64),
    /// The acting player investigates the target's faction.
    Investigate(u64, u64),
    /// The acting player orders the pack kill on the target.
    Kill(u64, u64),
}

/// The possible errors returned by `Signups::start`.
#[derive(Debug, Clone, Copy, PartialEq, Eq, Structural)]
pub enum StartGameError {
    /// There are less than the required number of players.
    NotEnoughPlayers {
        /// This many players are required to start a game.
        required: usize,
        /// But only this many have signed up.
        found: usize,
    },
    /// More roles than there are players have been specified.
    RolesCount {
        /// This many players have signed up.
        required: usize,
        /// But this many roles have been given.
        found: usize,
    },
}

/// Counts the werewolves (of any rank) in a role list.
pub open spec fn werewolf_count(s: Seq<Role>) -> nat
    decreases s.len(),
{
    if s.len() == 0 {
        0
    } else {
        (match s[0] {
            Role::Werewolf(_) => 1nat,
            _ => 0nat,
        }) + werewolf_count(s.drop_first())
    }
}

/// The requested role list as the engine uses it: villagers are dropped (they
/// are the implicit default) and werewolves are renumbered to consecutive
/// ranks in submission order, starting from `ww`.
pub open spec fn renumber_from(s: Seq<Role>, ww: nat) -> Seq<Role>
    decreases s.len(),
{
    if s.len() == 0 {
        Seq::empty()
    } else {
        match s[0] {
            Role::Villager => renumber_from(s.drop_first(), ww),
            Role::Werewolf(_) => seq![Role::Werewolf(ww as usize)] + renumber_from(
                s.drop_first(),
                ww + 1,
            ),
            r => seq![r] + renumber_from(s.drop_first(), ww),
        }
    }
}

/// The requested role list with villagers dropped and werewolf ranks
/// assigned in submission order.
pub open spec fn requested_roles(s: Seq<Role>) -> Seq<Role> {
    renumber_from(s, 0)
}

/// How the prepared role list grows when one more request is appended.
proof fn lemma_renumber_push(s: Seq<Role>, x: Role, ww: nat)
    ensures
        renumber_from(s.push(x), ww) == match x {
            Role::Villager => renumber_from(s, ww),
            Role::Werewolf(_) => renumber_from(s, ww).push(
                Role::Werewolf((ww + werewolf_count(s)) as usize),
            ),
            r => renumber_from(s, ww).push(r),
        },
        werewolf_count(s.push(x)) == werewolf_count(s) + (match x {
            Role::Werewolf(_) => 1nat,
            _ => 0nat,
        }),
    decreases s.len(),
{
    if s.len() == 0 {
        assert(s.push(x).drop_first() =~= Seq::<Role>::empty());
        assert(s =~= Seq::<Role>::empty());
        assert(renumber_from(Seq::<Role>::empty(), ww) =~= Seq::<Role>::empty());
        assert(renumber_from(Seq::<Role>::empty(), ww + 1) =~= Seq::<Role>::empty());
        assert(werewolf_count(Seq::<Role>::empty()) == 0);
        assert(s.push(x)[0] == x);
        match x {
            Role::Villager => {},
            Role::Werewolf(_) => {
                assert(renumber_from(s.push(x), ww) =~= renumber_from(s, ww).push(
                    Role::Werewolf((ww + werewolf_count(s)) as usize),
                ));
            },
            r => {
                assert(renumber_from(s.push(x), ww) =~= renumber_from(s, ww).push(r));
            },
        }
    } else {
        assert(s.push(x).drop_first() =~= s.drop_first().push(x));
        lemma_renumber_push(s.drop_first(), x, ww + (match s[0] {
            Role::Werewolf(_) => 1nat,
            _ => 0nat,
        }));
        lemma_renumber_push(s.drop_first(), x, ww);
        match s[0] {
            Role::Villager => {},
            Role::Werewolf(_) => {
                assert(renumber_from(s.push(x), ww) =~= (match x {
                    Role::Villager => renumber_from(s, ww),
                    Role::Werewolf(_) => renumber_from(s, ww).push(
                        Role::Werewolf((ww + werewolf_count(s)) as usize),
                    ),
                    r => renumber_from(s, ww).push(r),
                }));
            },
            _ => {
                assert(renumber_from(s.push(x), ww) =~= (match x {
                    Role::Villager => renumber_from(s, ww),
                    Role::Werewolf(_) => renumber_from(s, ww).push(
                        Role::Werewolf((ww + werewolf_count(s)) as usize),
                    ),
                    r => renumber_from(s, ww).push(r),
                }));
            },
        }
    }
}

/// The prepared role list never grows and holds no villagers.
proof fn lemma_renumber_props(s: Seq<Role>, ww: nat)
    ensures
        renumber_from(s, ww).len() <= s.len(),
        forall|t: int|
            0 <= t < renumber_from(s, ww).len() ==> renumber_from(s, ww)[t] != Role::Villager,
    decreases s.len(),
{
    if s.len() > 0 {
        lemma_renumber_props(s.drop_first(), ww);
        lemma_renumber_props(s.drop_first(), ww + 1);
    }
}

/// Prepares a requested role list for multiverse construction: drops
/// villagers and renumbers werewolves to consecutive ranks in submission
/// order.
fn prepare_roles(roles: &Vec<Role>) -> (r: Vec<Role>)
    ensures
        r@ == requested_roles(roles@),
{
    let len = roles.len();
    let mut filtered: Vec<Role> = Vec::new();
    let mut num_ww: usize = 0;
    for i in 0..len
        invariant
            len == roles@.len(),
            num_ww == werewolf_count(roles@.take(i as int)),
            num_ww <= i,
            filtered@ == renumber_from(roles@.take(i as int), 0),
    {
        proof {
            assert(roles@.take(i + 1) =~= roles@.take(i as int).push(roles@[i as int]));
            lemma_renumber_push(roles@.take(i as int), roles@[i as int], 0);
        }
        let role = roles[i];
        match role {
            Role::Villager => {},
            Role::Werewolf(_) => {
                filtered.push(Role::Werewolf(num_ww));
                num_ww = num_ww + 1;
            },
            other => {
                filtered.push(other);
            },
        }
    }
    proof {
        assert(roles@.take(len as int) =~= roles@);
    }
    filtered
}

/// Generates the basic role distribution for a game: the number of
/// werewolves is two fifths of the player count, rounded down, plus one
/// detective.
pub fn default_roles(num_players: usize) -> (r: Vec<Role>)
    requires
        num_players <= usize::MAX / 2,
    ensures
        r@.len() == num_players * 2 / 5 + 1,
        forall|t: int| 0 <= t < r@.len() - 1 ==> r@[t] == Role::Werewolf(t as usize),
        r@.last() == Role::Detective,
{
    let num_ww = num_players * 2 / 5;
    let mut roles: Vec<Role> = Vec::new();
    for i in 0..num_ww
        invariant
            roles@.len() == i,
            forall|t: int| 0 <= t < i ==> roles@[t] == Role::Werewolf(t as usize),
    {
        roles.push(Role::Werewolf(i));
    }
    roles.push(Role::Detective);
    roles
}

/// The players who have won the game in the given world: everyone whose
/// faction's win condition holds there, in secret-id order.
pub open spec fn spec_winners(w: World, ids: Seq<u64>) -> Seq<u64>
    decreases ids.len(),
{
    if ids.len() == 0 {
        Seq::empty()
    } else {
        spec_winners(w, ids.drop_last()) + if w.factions[ids.len() - 1].spec_wincon(w) {
            seq![ids.last()]
        } else {
            Seq::empty()
        }
    }
}

/// What a completed game's winner set owes to the multiverse the game ended
/// with: the game is over in every world, and the winners are every player
/// whose faction's win condition holds in one world sampled uniformly from
/// it.
#[verifier::opaque]
pub open spec fn complete_outcome(c: Complete, mv: Multiverse, ids: Seq<u64>) -> bool {
    &&& mv.wf()
    &&& mv.spec_game_over(false)
    &&& exists|k: int|
        0 <= k < mv.universes@.len() && c.winners@ == spec_winners(
            (#[trigger] mv.universes@[k])@,
            ids,
        )
}

/// A phase ended the game: some multiverse descending from the phase's own,
/// with the same player count and the game over in every world, produced the
/// winner set from one sampled world.
#[verifier::opaque]
pub open spec fn ended_from(c: Complete, pre_mv: Multiverse, ids: Seq<u64>) -> bool {
    exists|mv: Multiverse|
        #![trigger mv.spec_game_over(false)]
        complete_outcome(c, mv, ids) && mv.spec_num_players() == pre_mv.spec_num_players()
            && mv.descends_from(pre_mv)
}

/// A completed game.
#[derive(Debug, PartialEq, Eq)]
pub struct Complete {
    /// The players who have won this game, in secret-id order.
    pub winners: Vec<u64>,
}

impl Complete {
    /// Evaluates the win conditions against exactly one world, sampled
    /// uniformly at random from the multiverse at the moment the game ended,
    /// and collects every player whose faction wins there.
    fn new(secret_ids: Vec<u64>, multiverse: Multiverse) -> (c: Complete)
        requires
            multiverse.wf(),
            secret_ids@.len() == multiverse.spec_num_players(),
        ensures
            exists|k: int|
                0 <= k < multiverse.universes@.len() && c.winners@ == spec_winners(
                    (#[trigger] multiverse.universes@[k])@,
                    secret_ids@,
                ),
    {
        let pick = random_index(multiverse.universes.len());
        let n = secret_ids.len();
        let mut winners: Vec<u64> = Vec::new();
        for i in 0..n
            invariant
                multiverse.wf(),
                pick < multiverse.universes@.len(),
                n == secret_ids@.len() == multiverse.spec_num_players(),
                winners@ == spec_winners(
                    multiverse.universes@[pick as int]@,
                    secret_ids@.take(i as int),
                ),
        {
            proof {
                assert(secret_ids@.take(i + 1).drop_last() =~= secret_ids@.take(i as int));
                assert(secret_ids@.take(i + 1).last() == secret_ids@[i as int]);
            }
            let u = &multiverse.universes[pick];
            let faction = u.factions[i];
            if faction.wincon(u) {
                winners.push(secret_ids[i]);
            }
        }
        proof {
            assert(secret_ids@.take(n as int) =~= secret_ids@);
        }
        Complete { winners }
    }
}

/// A game which has not been started. The moderator may sign up players, or
/// start the game.
#[derive(Debug, PartialEq, Eq)]
pub struct Signups {
    /// The signed-up player identities, in signup order, without duplicates.
    pub players: Vec<u64>,
}

impl Signups {
    /// Well-formedness: no player identity is signed up twice.
    pub open spec fn wf(self) -> bool {
        self.players@.no_duplicates()
    }

    /// An empty signup sheet.
    pub fn new() -> (s: Signups)
        ensures
            s.wf(),
            s.players@.len() == 0,
    {
        Signups { players: Vec::new() }
    }

    /// Sign up a player. The identity must be unique.
    ///
    /// Returns `true` if the player has been signed up, or `false` if a
    /// player with that identity already exists.
    pub fn sign_up(&mut self, player_id: u64) -> (r: bool)
        requires
            old(self).wf(),
        ensures
            final(self).wf(),
            r == !old(self).players@.contains(player_id),
            r ==> final(self).players@ == old(self).players@.push(player_id),
            !r ==> final(self).players@ == old(self).players@,
    {
        if contains_u64(&self.players, player_id) {
            false
        } else {
            self.players.push(player_id);
            true
        }
    }

    /// Returns `true` if the given player is already signed up.
    pub fn is_signed_up(&self, player_id: u64) -> (r: bool)
        ensures
            r == self.players@.contains(player_id),
    {
        contains_u64(&self.players, player_id)
    }

    /// Returns the number of players that have been signed up so far.
    pub fn num_players(&self) -> (n: usize)
        ensures
            n == self.players@.len(),
    {
        self.players.len()
    }

    /// Removes a player from the signups.
    ///
    /// Returns `true` if the player was previously signed up.
    pub fn remove_player(&mut self, player_id: u64) -> (r: bool)
        requires
            old(self).wf(),
        ensures
            final(self).wf(),
            r == old(self).players@.contains(player_id),
            !r ==> final(self).players@ == old(self).players@,
            r ==> exists|k: int|
                0 <= k < old(self).players@.len() && old(self).players@[k] == player_id
                    && final(self).players@ == old(self).players@.remove(k),
    {
        match find_u64(&self.players, player_id) {
            Some(k) => {
                self.players.remove(k);
                proof {
                    assert(old(self).players@.remove(k as int).no_duplicates());
                }
                true
            },
            None => false,
        }
    }
}

impl Default for Signups {
    /// An empty signup sheet.
    fn default() -> (s: Signups)
        ensures
            s.wf(),
            s.players@.len() == 0,
    {
        Signups::new()
    }
}

/// Whether a vector of player identities contains the given one.
fn contains_u64(v: &Vec<u64>, x: u64) -> (r: bool)
    ensures
        r == v@.contains(x),
{
    let n = v.len();
    for i in 0..n
        invariant
            n == v@.len(),
            forall|j: int| 0 <= j < i ==> v@[j] != x,
    {
        if v[i] == x {
            return true;
        }
    }
    false
}

/// A vector of `n` empty per-player memos.
fn none_vec<T>(n: usize) -> (r: Vec<Option<T>>)
    ensures
        r@.len() == n,
        forall|t: int| 0 <= t < n ==> r@[t] is None,
{
    let mut r: Vec<Option<T>> = Vec::new();
    for i in 0..n
        invariant
            r@.len() == i,
            forall|t: int| 0 <= t < i ==> r@[t] is None,
    {
        r.push(None);
    }
    r
}

/// A running game which is currently in night time, waiting for the
/// players' night actions.
#[derive(Debug, PartialEq, Eq)]
pub struct Night {
    /// The player at position `i` of this list has secret index `i`; fixed
    /// once at game start.
    pub secret_ids: Vec<u64>,
    /// Per player, whom they healed the previous night: healing the same
    /// player two nights in a row is forbidden.
    pub last_heals: Vec<Option<usize>>,
    /// The set of worlds still considered possible.
    pub multiverse: Multiverse,
}

/// A running game which is currently in day time, waiting for the result of
/// the lynch vote.
#[derive(Debug, PartialEq, Eq)]
pub struct Day {
    /// The player at position `i` of this list has secret index `i`; fixed
    /// once at game start.
    pub secret_ids: Vec<u64>,
    /// The set of worlds still considered possible.
    pub multiverse: Multiverse,
    /// Per player, the outcome of their night action, to deliver this day.
    pub night_action_results: Vec<Option<NightActionResult>>,
    /// Per player, whom they healed last night.
    pub last_heals: Vec<Option<usize>>,
}

/// This enum represents the state of the game. Each variant contains
/// relevant methods to observe or progress the game state.
#[derive(Debug, PartialEq, Eq)]
pub enum State {
    /// A game which has not been started.
    Signups(Signups),
    /// A running game currently in night time.
    Night(Night),
    /// A running game currently in day time.
    Day(Day),
    /// A completed game.
    Complete(Complete),
}

impl Night {
    /// Well-formedness: the multiverse is well-formed and collapsed, the
    /// secret-id permutation matches its player count without duplicates,
    /// and the heal memos are per-player indices in range.
    pub open spec fn wf(self) -> bool {
        &&& self.multiverse.wf()
        &&& self.multiverse.collapsed()
        &&& self.secret_ids@.len() == self.multiverse.spec_num_players()
        &&& self.secret_ids@.no_duplicates()
        &&& self.last_heals@.len() == self.secret_ids@.len()
        &&& forall|t: int|
            0 <= t < self.last_heals@.len() && (#[trigger] self.last_heals@[t]) is Some
                ==> self.last_heals@[t]->0 < self.secret_ids@.len()
    }
}

impl Day {
    /// Well-formedness: as for a night, and the night-action results are
    /// per-player.
    pub open spec fn wf(self) -> bool {
        &&& self.multiverse.wf()
        &&& self.multiverse.collapsed()
        &&& self.secret_ids@.len() == self.multiverse.spec_num_players()
        &&& self.secret_ids@.no_duplicates()
        &&& self.last_heals@.len() == self.secret_ids@.len()
        &&& forall|t: int|
            0 <= t < self.last_heals@.len() && (#[trigger] self.last_heals@[t]) is Some
                ==> self.last_heals@[t]->0 < self.secret_ids@.len()
        &&& self.night_action_results@.len() == self.secret_ids@.len()
    }
}

impl Signups {
    /// Start the game: validates the configuration, assigns secret indices
    /// by one uniform random permutation of the signed-up players, builds
    /// the initial multiverse from the requested roles (villagers are the
    /// implicit default; werewolves are renumbered in submission order), and
    /// yields the first night — or a completed game, if the configuration is
    /// already decided.
    pub fn start(self, roles: Vec<Role>) -> (r: Result<State, StartGameError>)
        requires
            self.wf(),
        ensures
            r is Err <==> (self.players@.len() < MIN_PLAYERS || roles@.len()
                > self.players@.len()),
            self.players@.len() < MIN_PLAYERS ==> r == Err::<State, StartGameError>(
                StartGameError::NotEnoughPlayers {
                    required: MIN_PLAYERS,
                    found: self.players@.len() as usize,
                },
            ),
            (self.players@.len() >= MIN_PLAYERS && roles@.len() > self.players@.len()) ==> r
                == Err::<State, StartGameError>(
                StartGameError::RolesCount {
                    required: self.players@.len() as usize,
                    found: roles@.len() as usize,
                },
            ),
            r matches Ok(s) ==> (s is Night || s is Complete),
            r matches Ok(s) ==> (s matches State::Night(ng) ==> ng.wf()
                && ng.secret_ids@.to_multiset() == self.players@.to_multiset()
                && ng.multiverse.spec_num_players() == self.players@.len()
                && ng.multiverse.universes@.len() == falling_factorial(
                self.players@.len(),
                requested_roles(roles@).len(),
            ) && !ng.multiverse.spec_game_over(false) && (forall|t: int|
                0 <= t < ng.last_heals@.len() ==> (#[trigger] ng.last_heals@[t]) is None) && (
            forall|j: int|
                0 <= j < ng.multiverse.universes@.len()
                    ==> (#[trigger] ng.multiverse.universes@[j])@.heals.len() == 0
                    && ng.multiverse.universes@[j]@.kills.len() == 0) && (
            forall|j: int, i: int|
                0 <= j < ng.multiverse.universes@.len() && 0 <= i < self.players@.len()
                    ==> (#[trigger] ng.multiverse.universes@[j]@.alive[i])) && (forall|
                j: int,
                c: Role,
            |
                0 <= j < ng.multiverse.universes@.len() && c != Role::Villager
                    ==> #[trigger] role_count(ng.multiverse.universes@[j]@.roles, c) == role_count(
                    requested_roles(roles@),
                    c,
                )) && ((forall|a: int, b: int|
                0 <= a < b < requested_roles(roles@).len() ==> requested_roles(roles@)[a]
                    != requested_roles(roles@)[b]) ==> (forall|a: int, b: int|
                0 <= a < b < ng.multiverse.universes@.len()
                    ==> (#[trigger] ng.multiverse.universes@[a])@.roles != (
                #[trigger] ng.multiverse.universes@[b])@.roles))),
            r matches Ok(s) ==> (s matches State::Complete(c) ==> exists|mv: Multiverse|
                (#[trigger] mv.wf()) && mv.spec_num_players() == self.players@.len()
                    && mv.universes@.len() == falling_factorial(
                    self.players@.len(),
                    requested_roles(roles@).len(),
                ) && mv.spec_game_over(false) && (forall|j: int, i: int|
                    0 <= j < mv.universes@.len() && 0 <= i < self.players@.len()
                        ==> (#[trigger] mv.universes@[j]@.alive[i])) && (forall|j: int|
                    0 <= j < mv.universes@.len() ==> (#[trigger] mv.universes@[j])@.heals.len()
                        == 0 && mv.universes@[j]@.kills.len() == 0) && (forall|j: int, cr: Role|
                    0 <= j < mv.universes@.len() && cr != Role::Villager ==> #[trigger] role_count(
                        mv.universes@[j]@.roles,
                        cr,
                    ) == role_count(requested_roles(roles@), cr)) && (forall|j: int|
                    0 <= j < mv.universes@.len() ==> role_count(
                        (#[trigger] mv.universes@[j])@.roles,
                        Role::Villager,
                    ) == self.players@.len() - requested_roles(roles@).len()) && (exists|
                    k: int,
                    ids: Seq<u64>,
                |
                    #![trigger spec_winners(mv.universes@[k]@, ids)]
                    0 <= k < mv.universes@.len() && ids.to_multiset()
                        == self.players@.to_multiset() && c.winners@ == spec_winners(
                        mv.universes@[k]@,
                        ids,
                    ))),
    {
        let num_players = self.players.len();
        if num_players < MIN_PLAYERS {
            return Err(
                StartGameError::NotEnoughPlayers { required: MIN_PLAYERS, found: num_players },
            );
        }
        if roles.len() > num_players {
            return Err(
                StartGameError::RolesCount { required: num_players, found: roles.len() },
            );
        }
        let Signups { mut players } = self;
        proof {
            players@.lemma_multiset_has_no_duplicates();
        }
        shuffle(&mut players);
        proof {
            players@.lemma_multiset_has_no_duplicates_conv();
        }
        let prepared = prepare_roles(&roles);
        proof {
            lemma_renumber_props(roles@, 0);
        }
        let multiverse = Multiverse::new(prepared, num_players);
        proof {
            assert forall|i: int|
                0 <= i < multiverse.spec_num_players() && #[trigger] multiverse.dead_in_all(i)
                implies multiverse.role_fixed(i) by {
                assert(multiverse.universes@[0]@.alive[i]);
                assert(multiverse.alive_in_some(i));
            }
        }
        if multiverse.game_over(false) {
            let ghost mv = multiverse;
            let ghost ids = players@;
            let complete = Complete::new(players, multiverse);
            proof {
                let k = choose|k: int|
                    0 <= k < mv.universes@.len() && complete.winners@ == spec_winners(
                        (#[trigger] mv.universes@[k])@,
                        ids,
                    );
                assert(0 <= k < mv.universes@.len() && ids.to_multiset()
                    == self.players@.to_multiset() && complete.winners@ == spec_winners(
                    mv.universes@[k]@,
                    ids,
                ));
            }
            return Ok(State::Complete(complete));
        }
        let last_heals = none_vec(num_players);
        Ok(State::Night(Night { secret_ids: players, last_heals, multiverse }))
    }
}

/// Whether the action list holds a heal by the given player.
pub open spec fn has_heal_by(actions: Seq<NightAction>, src: u64) -> bool {
    exists|a: int|
        #![trigger actions[a]]
        0 <= a < actions.len() && (actions[a] matches NightAction::Heal(s, _) && s == src)
}

/// Whether the action list holds an investigation by the given player.
pub open spec fn has_investigation_by(actions: Seq<NightAction>, src: u64) -> bool {
    exists|a: int|
        #![trigger actions[a]]
        0 <= a < actions.len() && (actions[a] matches NightAction::Investigate(s, _) && s == src)
}

/// Whether the action list holds a kill order by the given player.
pub open spec fn has_kill_by(actions: Seq<NightAction>, src: u64) -> bool {
    exists|a: int|
        #![trigger actions[a]]
        0 <= a < actions.len() && (actions[a] matches NightAction::Kill(s, _) && s == src)
}

/// Whether the action list holds a heal of the given target by the given
/// player.
pub open spec fn has_heal_pair(actions: Seq<NightAction>, src: u64, tgt: u64) -> bool {
    exists|a: int|
        #![trigger actions[a]]
        0 <= a < actions.len() && actions[a] == NightAction::Heal(src, tgt)
}

/// Whether the action list holds an investigation of the given target by the
/// given player.
pub open spec fn has_investigation_pair(actions: Seq<NightAction>, src: u64, tgt: u64) -> bool {
    exists|a: int|
        #![trigger actions[a]]
        0 <= a < actions.len() && actions[a] == NightAction::Investigate(src, tgt)
}

/// Whether the indexed action list holds a heal whose actor has the given
/// identity.
spec fn kept_heal_by(r: Seq<IdxAction>, ids: Seq<u64>, src: u64) -> bool {
    exists|q: int|
        #![trigger r[q]]
        0 <= q < r.len() && (r[q] matches IdxAction::Heal(s, _) && ids[s as int] == src)
}

/// Whether the indexed action list holds an investigation whose actor has
/// the given identity.
spec fn kept_investigation_by(r: Seq<IdxAction>, ids: Seq<u64>, src: u64) -> bool {
    exists|q: int|
        #![trigger r[q]]
        0 <= q < r.len() && (r[q] matches IdxAction::Investigate(s, _) && ids[s as int] == src)
}

/// Appending actions never loses a kept heal or investigation.
proof fn lemma_kept_preserved(before: Seq<IdxAction>, after: Seq<IdxAction>, ids: Seq<u64>)
    requires
        before.len() <= after.len(),
        forall|q: int| 0 <= q < before.len() ==> after[q] == before[q],
    ensures
        forall|src: u64|
            #[trigger] kept_heal_by(before, ids, src) ==> kept_heal_by(after, ids, src),
        forall|src: u64|
            #[trigger] kept_investigation_by(before, ids, src) ==> kept_investigation_by(
                after,
                ids,
                src,
            ),
{
    assert forall|src: u64| #[trigger] kept_heal_by(before, ids, src) implies kept_heal_by(
        after,
        ids,
        src,
    ) by {
        let q = choose|q: int|
            #![trigger before[q]]
            0 <= q < before.len() && (before[q] matches IdxAction::Heal(s2, _) && ids[s2 as int]
                == src);
        assert(after[q] == before[q]);
    }
    assert forall|src: u64| #[trigger] kept_investigation_by(
        before,
        ids,
        src,
    ) implies kept_investigation_by(after, ids, src) by {
        let q = choose|q: int|
            #![trigger before[q]]
            0 <= q < before.len() && (before[q] matches IdxAction::Investigate(s2, _) && ids[
                s2 as int] == src);
        assert(after[q] == before[q]);
    }
}

/// A heal or investigation naming a player outside the game is illegal.
proof fn lemma_not_legal_unknown(night: Night, src: u64, tgt: u64)
    requires
        !night.secret_ids@.contains(src) || !night.secret_ids@.contains(tgt),
    ensures
        !night.heal_legal(src, tgt),
        !night.investigation_legal(src, tgt),
{
    if night.heal_legal(src, tgt) {
        let (s, t) = choose|s: int, t: int|
            #![trigger night.secret_ids@[s], night.secret_ids@[t]]
            0 <= s < night.secret_ids@.len() && 0 <= t < night.secret_ids@.len()
                && night.secret_ids@[s] == src && night.secret_ids@[t] == tgt
                && night.multiverse.alive_in_some(s) && night.multiverse.alive_in_some(t)
                && night.last_heals@[s] != Some(t as usize);
        assert(night.secret_ids@.contains(src));
        assert(night.secret_ids@.contains(tgt));
    }
    if night.investigation_legal(src, tgt) {
        let (s, t) = choose|s: int, t: int|
            #![trigger night.secret_ids@[s], night.secret_ids@[t]]
            0 <= s < night.secret_ids@.len() && 0 <= t < night.secret_ids@.len()
                && night.secret_ids@[s] == src && night.secret_ids@[t] == tgt
                && night.multiverse.alive_in_some(s) && night.multiverse.alive_in_some(t);
        assert(night.secret_ids@.contains(src));
        assert(night.secret_ids@.contains(tgt));
    }
}

/// A heal or investigation whose actor or target is dead in every world is
/// illegal.
proof fn lemma_not_legal_dead(night: Night, src: u64, tgt: u64, src_idx: usize, tgt_idx: usize)
    requires
        night.wf(),
        (src_idx as int) < night.secret_ids@.len(),
        night.secret_ids@[src_idx as int] == src,
        (tgt_idx as int) < night.secret_ids@.len(),
        night.secret_ids@[tgt_idx as int] == tgt,
        !(night.multiverse.alive_in_some(src_idx as int) && night.multiverse.alive_in_some(
            tgt_idx as int,
        )),
    ensures
        !night.heal_legal(src, tgt),
        !night.investigation_legal(src, tgt),
{
    if night.heal_legal(src, tgt) {
        let (s, t) = choose|s: int, t: int|
            #![trigger night.secret_ids@[s], night.secret_ids@[t]]
            0 <= s < night.secret_ids@.len() && 0 <= t < night.secret_ids@.len()
                && night.secret_ids@[s] == src && night.secret_ids@[t] == tgt
                && night.multiverse.alive_in_some(s) && night.multiverse.alive_in_some(t)
                && night.last_heals@[s] != Some(t as usize);
        assert(s == src_idx as int && t == tgt_idx as int);
        assert(false);
    }
    if night.investigation_legal(src, tgt) {
        let (s, t) = choose|s: int, t: int|
            #![trigger night.secret_ids@[s], night.secret_ids@[t]]
            0 <= s < night.secret_ids@.len() && 0 <= t < night.secret_ids@.len()
                && night.secret_ids@[s] == src && night.secret_ids@[t] == tgt
                && night.multiverse.alive_in_some(s) && night.multiverse.alive_in_some(t);
        assert(s == src_idx as int && t == tgt_idx as int);
        assert(false);
    }
}

/// A heal that repeats the actor's previous-night target is illegal.
proof fn lemma_not_heal_legal_repeat(
    night: Night,
    src: u64,
    tgt: u64,
    src_idx: usize,
    tgt_idx: usize,
)
    requires
        night.wf(),
        night.secret_ids@.len() <= usize::MAX,
        (src_idx as int) < night.secret_ids@.len(),
        night.secret_ids@[src_idx as int] == src,
        (tgt_idx as int) < night.secret_ids@.len(),
        night.secret_ids@[tgt_idx as int] == tgt,
        night.last_heals@[src_idx as int] == Some(tgt_idx),
    ensures
        !night.heal_legal(src, tgt),
{
    if night.heal_legal(src, tgt) {
        let (s, t) = choose|s: int, t: int|
            #![trigger night.secret_ids@[s], night.secret_ids@[t]]
            0 <= s < night.secret_ids@.len() && 0 <= t < night.secret_ids@.len()
                && night.secret_ids@[s] == src && night.secret_ids@[t] == tgt
                && night.multiverse.alive_in_some(s) && night.multiverse.alive_in_some(t)
                && night.last_heals@[s] != Some(t as usize);
        assert(s == src_idx as int && t == tgt_idx as int);
        assert(t as usize == tgt_idx);
        assert(false);
    }
}

/// A delivered night-action result answers one of the player's own submitted
/// investigations, with the testimony of a world in which that player was a
/// live detective when the night began.
pub open spec fn result_testifies(
    res: NightActionResult,
    i: int,
    ids: Seq<u64>,
    actions: Seq<NightAction>,
    mv: Multiverse,
) -> bool {
    res matches NightActionResult::Investigation(f) && (exists|t: int, j: int|
        0 <= t < ids.len() && has_investigation_pair(actions, ids[i], ids[t]) && 0 <= j
            < mv.universes@.len() && mv.universes@[j]@.roles[i] == Role::Detective
            && mv.universes@[j]@.alive[i] && (#[trigger] mv.universes@[j]@.factions[t]) == f)
}

/// Whether the action list holds a heal by the given player.
fn heal_action_by(actions: &Vec<NightAction>, src: u64) -> (r: bool)
    ensures
        r == has_heal_by(actions@, src),
{
    let n = actions.len();
    for a in 0..n
        invariant
            n == actions@.len(),
            forall|t: int|
                0 <= t < a ==> !((#[trigger] actions@[t]) matches NightAction::Heal(s, _) && s
                    == src),
    {
        match actions[a] {
            NightAction::Heal(s, _) => {
                if s == src {
                    return true;
                }
            },
            _ => {},
        }
    }
    false
}

/// Whether the action list holds an investigation by the given player.
fn investigation_action_by(actions: &Vec<NightAction>, src: u64) -> (r: bool)
    ensures
        r == has_investigation_by(actions@, src),
{
    let n = actions.len();
    for a in 0..n
        invariant
            n == actions@.len(),
            forall|t: int|
                0 <= t < a ==> !((#[trigger] actions@[t]) matches NightAction::Investigate(s, _)
                    && s == src),
    {
        match actions[a] {
            NightAction::Investigate(s, _) => {
                if s == src {
                    return true;
                }
            },
            _ => {},
        }
    }
    false
}

/// Whether the action list holds a kill order by the given player.
fn kill_action_by(actions: &Vec<NightAction>, src: u64) -> (r: bool)
    ensures
        r == has_kill_by(actions@, src),
{
    let n = actions.len();
    for a in 0..n
        invariant
            n == actions@.len(),
            forall|t: int|
                0 <= t < a ==> !((#[trigger] actions@[t]) matches NightAction::Kill(s, _) && s
                    == src),
    {
        match actions[a] {
            NightAction::Kill(s, _) => {
                if s == src {
                    return true;
                }
            },
            _ => {},
        }
    }
    false
}

/// A night action translated to secret indices.
#[derive(Debug, Clone, Copy, PartialEq, Eq, Structural)]
enum IdxAction {
    Heal(usize, usize),
    Investigate(usize, usize),
    Kill(usize, usize),
}

/// An indexed action is legal with respect to the multiverse and the heal
/// memos: actors must be possibly alive, heal and kill targets must be
/// possibly alive, and a healer may not repeat last night's target.
spec fn idx_action_ok(a: IdxAction, mv: Multiverse, last_heals: Seq<Option<usize>>) -> bool {
    match a {
        IdxAction::Heal(s, t) => {
            &&& s < mv.spec_num_players()
            &&& t < mv.spec_num_players()
            &&& mv.alive_in_some(s as int)
            &&& mv.alive_in_some(t as int)
            &&& last_heals[s as int] != Some(t)
        },
        IdxAction::Investigate(s, t) => {
            &&& s < mv.spec_num_players()
            &&& t < mv.spec_num_players()
            &&& mv.alive_in_some(s as int)
            &&& mv.alive_in_some(t as int)
        },
        IdxAction::Kill(s, t) => {
            &&& s < mv.spec_num_players()
            &&& t < mv.spec_num_players()
            &&& mv.alive_in_some(s as int)
            &&& mv.alive_in_some(t as int)
        },
    }
}

/// Whether two indexed actions are of the same kind with the same actor.
spec fn same_kind_src(a: IdxAction, b: IdxAction) -> bool {
    match (a, b) {
        (IdxAction::Heal(s1, _), IdxAction::Heal(s2, _)) => s1 == s2,
        (IdxAction::Investigate(s1, _), IdxAction::Investigate(s2, _)) => s1 == s2,
        (IdxAction::Kill(s1, _), IdxAction::Kill(s2, _)) => s1 == s2,
        _ => false,
    }
}

/// Whether the indexed action list holds a kill order by the given actor.
spec fn has_kill_idx(actions: Seq<IdxAction>, src: int) -> bool {
    exists|a: int|
        #![trigger actions[a]]
        0 <= a < actions.len() && (actions[a] matches IdxAction::Kill(s, _) && s == src)
}

/// Whether the indexed action list holds a heal by the given actor.
fn heal_idx_by(actions: &Vec<IdxAction>, src: usize) -> (r: bool)
    ensures
        r == exists|a: int|
            #![trigger actions@[a]]
            0 <= a < actions@.len() && (actions@[a] matches IdxAction::Heal(s, _) && s == src),
{
    let n = actions.len();
    for a in 0..n
        invariant
            n == actions@.len(),
            forall|t: int|
                0 <= t < a ==> !((#[trigger] actions@[t]) matches IdxAction::Heal(s, _) && s
                    == src),
    {
        match actions[a] {
            IdxAction::Heal(s, _) => {
                if s == src {
                    return true;
                }
            },
            _ => {},
        }
    }
    false
}

/// Whether the indexed action list holds an investigation by the given actor.
fn investigation_idx_by(actions: &Vec<IdxAction>, src: usize) -> (r: bool)
    ensures
        r == exists|a: int|
            #![trigger actions@[a]]
            0 <= a < actions@.len() && (actions@[a] matches IdxAction::Investigate(s, _) && s
                == src),
{
    let n = actions.len();
    for a in 0..n
        invariant
            n == actions@.len(),
            forall|t: int|
                0 <= t < a ==> !((#[trigger] actions@[t]) matches IdxAction::Investigate(s, _)
                    && s == src),
    {
        match actions[a] {
            IdxAction::Investigate(s, _) => {
                if s == src {
                    return true;
                }
            },
            _ => {},
        }
    }
    false
}

/// Whether the indexed action list holds a kill order by the given actor.
fn kill_idx_by(actions: &Vec<IdxAction>, src: usize) -> (r: bool)
    ensures
        r == has_kill_idx(actions@, src as int),
{
    let n = actions.len();
    for a in 0..n
        invariant
            n == actions@.len(),
            forall|t: int|
                0 <= t < a ==> !((#[trigger] actions@[t]) matches IdxAction::Kill(s, _) && s
                    == src),
    {
        match actions[a] {
            IdxAction::Kill(s, _) => {
                if s == src {
                    return true;
                }
            },
            _ => {},
        }
    }
    false
}

/// The first position of a player identity in a vector, if any.
fn find_u64(v: &Vec<u64>, x: u64) -> (r: Option<usize>)
    ensures
        r is Some ==> r->0 < v@.len() && v@[r->0 as int] == x,
        r is None <==> !v@.contains(x),
{
    let n = v.len();
    for i in 0..n
        invariant
            n == v@.len(),
            forall|j: int| 0 <= j < i ==> v@[j] != x,
    {
        if v[i] == x {
            return Some(i);
        }
    }
    None
}

/// Whether `x` is the identity of a player who is alive in at least one
/// world.
pub open spec fn is_alive_id(secret_ids: Seq<u64>, mv: Multiverse, x: u64) -> bool {
    exists|i: int|
        #![trigger secret_ids[i]]
        0 <= i < secret_ids.len() && mv.alive_in_some(i) && x == secret_ids[i]
}

/// The identities of the players alive in at least one world.
fn alive_ids(secret_ids: &Vec<u64>, multiverse: &Multiverse) -> (r: Vec<u64>)
    requires
        multiverse.wf(),
        secret_ids@.len() == multiverse.spec_num_players(),
        secret_ids@.no_duplicates(),
    ensures
        forall|t: int|
            0 <= t < r@.len() ==> is_alive_id(secret_ids@, *multiverse, #[trigger] r@[t]),
        forall|i: int|
            0 <= i < secret_ids@.len() && multiverse.alive_in_some(i) ==> r@.contains(
                #[trigger] secret_ids@[i],
            ),
        r@.no_duplicates(),
{
    let nn = secret_ids.len();
    let idxs = multiverse.alive();
    let len = idxs.len();
    let mut r: Vec<u64> = Vec::new();
    for t in 0..len
        invariant
            multiverse.wf(),
            nn == secret_ids@.len() == multiverse.spec_num_players(),
            len == idxs@.len(),
            forall|q: int|
                0 <= q < idxs@.len() ==> #[trigger] idxs@[q] < multiverse.spec_num_players()
                    && multiverse.alive_in_some(idxs@[q] as int),
            forall|i: int|
                0 <= i < secret_ids@.len() && multiverse.alive_in_some(i) ==> idxs@.contains(
                    i as usize,
                ),
            r@.len() == t,
            forall|q: int| 0 <= q < t ==> r@[q] == secret_ids@[idxs@[q] as int],
    {
        r.push(secret_ids[idxs[t]]);
    }
    proof {
        assert forall|t: int| 0 <= t < r@.len() implies is_alive_id(
            secret_ids@,
            *multiverse,
            #[trigger] r@[t],
        ) by {
            let i = idxs@[t] as int;
            assert(0 <= i < secret_ids@.len() && multiverse.alive_in_some(i) && r@[t]
                == secret_ids@[i]);
        }
        assert forall|i: int|
            0 <= i < secret_ids@.len() && multiverse.alive_in_some(i) implies r@.contains(
            #[trigger] secret_ids@[i],
        ) by {
            let q = choose|q: int| 0 <= q < idxs@.len() && idxs@[q] == i as usize;
            assert(idxs@[q] as int == i);
            assert(r@[q] == secret_ids@[idxs@[q] as int]);
            assert(r@[q] == secret_ids@[i]);
        }
        assert forall|a: int, b: int| 0 <= a < b < r@.len() implies r@[a] != r@[b] by {
            assert(idxs@[a] < idxs@[b]);
            assert(r@[a] == secret_ids@[idxs@[a] as int] && r@[b] == secret_ids@[idxs@[b] as int]);
        }
    }
    r
}

/// The indices `0 .. n` in a uniformly random order.
fn shuffled_indices(n: usize) -> (r: Vec<usize>)
    ensures
        r@.len() == n,
        forall|t: int| 0 <= t < n ==> #[trigger] r@[t] < n,
{
    let mut v: Vec<usize> = Vec::new();
    for i in 0..n
        invariant
            v@.len() == i,
            forall|t: int| 0 <= t < i ==> #[trigger] v@[t] < n,
    {
        v.push(i);
    }
    let ghost before = v@;
    shuffle(&mut v);
    proof {
        broadcast use vstd::seq_lib::group_to_multiset_ensures;

        assert forall|t: int| 0 <= t < v@.len() implies #[trigger] v@[t] < n by {
            assert(v@.contains(v@[t]));
            assert(v@.to_multiset().contains(v@[t]));
            assert(before.to_multiset().contains(v@[t]));
            assert(before.contains(v@[t]));
            let q = choose|q: int| 0 <= q < before.len() && before[q] == v@[t];
        }
    }
    v
}

impl Night {
    /// Returns the player list, sorted by secret player index.
    pub fn secret_ids(&self) -> (r: &Vec<u64>)
        ensures
            *r == self.secret_ids,
    {
        &self.secret_ids
    }

    /// Returns the set of players which are still alive in at least one
    /// possible universe.
    pub fn alive(&self) -> (r: Vec<u64>)
        requires
            self.wf(),
        ensures
            forall|t: int|
                0 <= t < r@.len() ==> is_alive_id(
                    self.secret_ids@,
                    self.multiverse,
                    #[trigger] r@[t],
                ),
            forall|i: int|
                0 <= i < self.secret_ids@.len() && self.multiverse.alive_in_some(i)
                    ==> r@.contains(#[trigger] self.secret_ids@[i]),
            r@.no_duplicates(),
    {
        alive_ids(&self.secret_ids, &self.multiverse)
    }

    /// A submitted heal is legal: actor and target are both in the game and
    /// possibly alive, and the target is not the actor's previous-night heal
    /// target.
    pub open spec fn heal_legal(self, src: u64, tgt: u64) -> bool {
        exists|s: int, t: int|
            #![trigger self.secret_ids@[s], self.secret_ids@[t]]
            0 <= s < self.secret_ids@.len() && 0 <= t < self.secret_ids@.len()
                && self.secret_ids@[s] == src && self.secret_ids@[t] == tgt
                && self.multiverse.alive_in_some(s) && self.multiverse.alive_in_some(t)
                && self.last_heals@[s] != Some(t as usize)
    }

    /// A submitted investigation is legal: actor and target are both in the
    /// game and possibly alive.
    pub open spec fn investigation_legal(self, src: u64, tgt: u64) -> bool {
        exists|s: int, t: int|
            #![trigger self.secret_ids@[s], self.secret_ids@[t]]
            0 <= s < self.secret_ids@.len() && 0 <= t < self.secret_ids@.len()
                && self.secret_ids@[s] == src && self.secret_ids@[t] == tgt
                && self.multiverse.alive_in_some(s) && self.multiverse.alive_in_some(t)
    }

    /// Whether no more night actions can be submitted: every player who may
    /// still be alive has submitted a kill order, and, while a healer or
    /// detective may still be alive, a heal or investigation as well.
    pub open spec fn spec_actions_complete(self, actions: Seq<NightAction>) -> bool {
        &&& (self.multiverse.spec_role_alive(Role::Healer) ==> forall|i: int|
            0 <= i < self.secret_ids@.len() && self.multiverse.alive_in_some(i) ==> has_heal_by(
                actions,
                #[trigger] self.secret_ids@[i],
            ))
        &&& (self.multiverse.spec_role_alive(Role::Detective) ==> forall|i: int|
            0 <= i < self.secret_ids@.len() && self.multiverse.alive_in_some(i)
                ==> has_investigation_by(actions, #[trigger] self.secret_ids@[i]))
        &&& (forall|i: int|
            0 <= i < self.secret_ids@.len() && self.multiverse.alive_in_some(i) ==> has_kill_by(
                actions,
                #[trigger] self.secret_ids@[i],
            ))
    }

    /// Returns `true` if no more night actions can be submitted.
    pub fn actions_complete(&self, night_actions: &Vec<NightAction>) -> (r: bool)
        requires
            self.wf(),
        ensures
            r == self.spec_actions_complete(night_actions@),
    {
        let n = self.secret_ids.len();
        if self.multiverse.role_alive(Role::Healer) {
            for i in 0..n
                invariant
                    self.wf(),
                    self.multiverse.spec_role_alive(Role::Healer),
                    n == self.secret_ids@.len(),
                    forall|t: int|
                        0 <= t < i && self.multiverse.alive_in_some(t) ==> has_heal_by(
                            night_actions@,
                            #[trigger] self.secret_ids@[t],
                        ),
            {
                if self.multiverse.alive_in_some_universe(i) {
                    if !heal_action_by(night_actions, self.secret_ids[i]) {
                        return false;
                    }
                }
            }
        }
        if self.multiverse.role_alive(Role::Detective) {
            for i in 0..n
                invariant
                    self.wf(),
                    self.multiverse.spec_role_alive(Role::Detective),
                    n == self.secret_ids@.len(),
                    forall|t: int|
                        0 <= t < i && self.multiverse.alive_in_some(t) ==> has_investigation_by(
                            night_actions@,
                            #[trigger] self.secret_ids@[t],
                        ),
            {
                if self.multiverse.alive_in_some_universe(i) {
                    if !investigation_action_by(night_actions, self.secret_ids[i]) {
                        return false;
                    }
                }
            }
        }
        for i in 0..n
            invariant
                self.wf(),
                n == self.secret_ids@.len(),
                self.multiverse.spec_role_alive(Role::Healer)
                    ==> (forall|t: int|
                    0 <= t < n && self.multiverse.alive_in_some(t) ==> has_heal_by(
                        night_actions@,
                        #[trigger] self.secret_ids@[t],
                    )),
                self.multiverse.spec_role_alive(Role::Detective)
                    ==> (forall|t: int|
                    0 <= t < n && self.multiverse.alive_in_some(t) ==> has_investigation_by(
                        night_actions@,
                        #[trigger] self.secret_ids@[t],
                    )),
                forall|t: int|
                    0 <= t < i && self.multiverse.alive_in_some(t) ==> has_kill_by(
                        night_actions@,
                        #[trigger] self.secret_ids@[t],
                    ),
        {
            if self.multiverse.alive_in_some_universe(i) {
                if !kill_action_by(night_actions, self.secret_ids[i]) {
                    return false;
                }
            }
        }
        true
    }

    /// Remove illegal actions, add missing compulsory actions: drops actions
    /// with unknown or dead actors or targets, forbidden repeat-heal targets
    /// and duplicate actors, and synthesizes a uniformly random mandatory
    /// werewolf-kill for any possibly-living player without one.
    fn sanitized_night_actions(&self, night_actions: &Vec<NightAction>) -> (r: Vec<IdxAction>)
        requires
            self.wf(),
        ensures
            forall|q: int|
                0 <= q < r@.len() ==> idx_action_ok(
                    #[trigger] r@[q],
                    self.multiverse,
                    self.last_heals@,
                ),
            forall|a: int, b: int| 0 <= a < b < r@.len() ==> !same_kind_src(r@[a], r@[b]),
            forall|i: int|
                0 <= i < self.secret_ids@.len() && self.multiverse.alive_in_some(i)
                    ==> has_kill_idx(r@, i),
            forall|q: int|
                0 <= q < r@.len() ==> ((#[trigger] r@[q]) matches IdxAction::Investigate(s, t)
                    ==> has_investigation_pair(
                    night_actions@,
                    self.secret_ids@[s as int],
                    self.secret_ids@[t as int],
                )),
            forall|q: int|
                0 <= q < r@.len() ==> ((#[trigger] r@[q]) matches IdxAction::Heal(s, t)
                    ==> has_heal_pair(
                    night_actions@,
                    self.secret_ids@[s as int],
                    self.secret_ids@[t as int],
                )),
            forall|a: int|
                0 <= a < night_actions@.len() ==> ((#[trigger] night_actions@[a]) matches
                    NightAction::Heal(src, tgt) ==> (self.heal_legal(src, tgt)
                    ==> kept_heal_by(r@, self.secret_ids@, src))),
            forall|a: int|
                0 <= a < night_actions@.len() ==> ((#[trigger] night_actions@[a]) matches
                    NightAction::Investigate(src, tgt) ==> (self.investigation_legal(src, tgt)
                    ==> kept_investigation_by(r@, self.secret_ids@, src))),
    {
        let n = self.secret_ids.len();
        let mut result: Vec<IdxAction> = Vec::new();
        let total = night_actions.len();
        // remove illegal actions
        for a in 0..total
            invariant
                self.wf(),
                n == self.secret_ids@.len(),
                total == night_actions@.len(),
                forall|q: int|
                    0 <= q < result@.len() ==> idx_action_ok(
                        #[trigger] result@[q],
                        self.multiverse,
                        self.last_heals@,
                    ),
                forall|x: int, y: int|
                    0 <= x < y < result@.len() ==> !same_kind_src(result@[x], result@[y]),
                forall|q: int|
                    0 <= q < result@.len() ==> ((#[trigger] result@[q]) matches
                        IdxAction::Investigate(s, t) ==> has_investigation_pair(
                        night_actions@,
                        self.secret_ids@[s as int],
                        self.secret_ids@[t as int],
                    )),
                forall|q: int|
                    0 <= q < result@.len() ==> ((#[trigger] result@[q]) matches IdxAction::Heal(
                        s,
                        t,
                    ) ==> has_heal_pair(
                        night_actions@,
                        self.secret_ids@[s as int],
                        self.secret_ids@[t as int],
                    )),
                forall|a2: int|
                    0 <= a2 < a ==> ((#[trigger] night_actions@[a2]) matches NightAction::Heal(
                        src,
                        tgt,
                    ) ==> (self.heal_legal(src, tgt) ==> kept_heal_by(
                        result@,
                        self.secret_ids@,
                        src,
                    ))),
                forall|a2: int|
                    0 <= a2 < a ==> ((#[trigger] night_actions@[a2]) matches
                        NightAction::Investigate(src, tgt) ==> (self.investigation_legal(
                        src,
                        tgt,
                    ) ==> kept_investigation_by(result@, self.secret_ids@, src))),
        {
            let ghost before = result@;
            match night_actions[a] {
                NightAction::Heal(src, tgt) => {
                    if let Some(src_idx) = find_u64(&self.secret_ids, src) {
                        if let Some(tgt_idx) = find_u64(&self.secret_ids, tgt) {
                            if self.multiverse.alive_in_some_universe(src_idx)
                                && self.multiverse.alive_in_some_universe(tgt_idx) {
                                if heal_idx_by(&result, src_idx) {
                                    proof {
                                        assert(kept_heal_by(result@, self.secret_ids@, src));
                                    }
                                } else {
                                    let repeat = match self.last_heals[src_idx] {
                                        Some(h) => h == tgt_idx,
                                        None => false,
                                    };
                                    if !repeat {
                                        result.push(IdxAction::Heal(src_idx, tgt_idx));
                                        proof {
                                            assert(result@.last() matches IdxAction::Heal(s2, _)
                                                && self.secret_ids@[s2 as int] == src);
                                            assert(kept_heal_by(
                                                result@,
                                                self.secret_ids@,
                                                src,
                                            ));
                                        }
                                    } else {
                                        proof {
                                            lemma_not_heal_legal_repeat(
                                                *self,
                                                src,
                                                tgt,
                                                src_idx,
                                                tgt_idx,
                                            );
                                        }
                                    }
                                }
                            } else {
                                proof {
                                    lemma_not_legal_dead(*self, src, tgt, src_idx, tgt_idx);
                                }
                            }
                        } else {
                            proof {
                                lemma_not_legal_unknown(*self, src, tgt);
                            }
                        }
                    } else {
                        proof {
                            lemma_not_legal_unknown(*self, src, tgt);
                        }
                    }
                },
                NightAction::Investigate(src, tgt) => {
                    if let Some(src_idx) = find_u64(&self.secret_ids, src) {
                        if let Some(tgt_idx) = find_u64(&self.secret_ids, tgt) {
                            if self.multiverse.alive_in_some_universe(src_idx)
                                && self.multiverse.alive_in_some_universe(tgt_idx) {
                                if investigation_idx_by(&result, src_idx) {
                                    proof {
                                        assert(kept_investigation_by(
                                            result@,
                                            self.secret_ids@,
                                            src,
                                        ));
                                    }
                                } else {
                                    result.push(IdxAction::Investigate(src_idx, tgt_idx));
                                    proof {
                                        assert(result@.last() matches IdxAction::Investigate(
                                            s2,
                                            _,
                                        ) && self.secret_ids@[s2 as int] == src);
                                        assert(kept_investigation_by(
                                            result@,
                                            self.secret_ids@,
                                            src,
                                        ));
                                    }
                                }
                            } else {
                                proof {
                                    lemma_not_legal_dead(*self, src, tgt, src_idx, tgt_idx);
                                }
                            }
                        } else {
                            proof {
                                lemma_not_legal_unknown(*self, src, tgt);
                            }
                        }
                    } else {
                        proof {
                            lemma_not_legal_unknown(*self, src, tgt);
                        }
                    }
                },
                NightAction::Kill(src, tgt) => {
                    if let Some(src_idx) = find_u64(&self.secret_ids, src) {
                        if let Some(tgt_idx) = find_u64(&self.secret_ids, tgt) {
                            if self.multiverse.alive_in_some_universe(src_idx)
                                && self.multiverse.alive_in_some_universe(tgt_idx) && !kill_idx_by(
                                &result,
                                src_idx,
                            ) {
                                result.push(IdxAction::Kill(src_idx, tgt_idx));
                            }
                        }
                    }
                },
            }
            proof {
                lemma_kept_preserved(before, result@, self.secret_ids@);
            }
        }
        // add missing compulsory werewolf kills
        let alive_idx = self.multiverse.alive();
        for i in 0..n
            invariant
                self.wf(),
                n == self.secret_ids@.len(),
                forall|q: int|
                    0 <= q < alive_idx@.len() ==> #[trigger] alive_idx@[q]
                        < self.multiverse.spec_num_players() && self.multiverse.alive_in_some(
                        alive_idx@[q] as int,
                    ),
                forall|t: int|
                    0 <= t < n && self.multiverse.alive_in_some(t) ==> alive_idx@.contains(
                        t as usize,
                    ),
                forall|q: int|
                    0 <= q < result@.len() ==> idx_action_ok(
                        #[trigger] result@[q],
                        self.multiverse,
                        self.last_heals@,
                    ),
                forall|x: int, y: int|
                    0 <= x < y < result@.len() ==> !same_kind_src(result@[x], result@[y]),
                forall|q: int|
                    0 <= q < result@.len() ==> ((#[trigger] result@[q]) matches
                        IdxAction::Investigate(s, t) ==> has_investigation_pair(
                        night_actions@,
                        self.secret_ids@[s as int],
                        self.secret_ids@[t as int],
                    )),
                forall|q: int|
                    0 <= q < result@.len() ==> ((#[trigger] result@[q]) matches IdxAction::Heal(
                        s,
                        t,
                    ) ==> has_heal_pair(
                        night_actions@,
                        self.secret_ids@[s as int],
                        self.secret_ids@[t as int],
                    )),
                forall|a2: int|
                    0 <= a2 < night_actions@.len() ==> ((#[trigger] night_actions@[a2]) matches
                        NightAction::Heal(src, tgt) ==> (self.heal_legal(src, tgt)
                        ==> kept_heal_by(result@, self.secret_ids@, src))),
                forall|a2: int|
                    0 <= a2 < night_actions@.len() ==> ((#[trigger] night_actions@[a2]) matches
                        NightAction::Investigate(src, tgt) ==> (self.investigation_legal(
                        src,
                        tgt,
                    ) ==> kept_investigation_by(result@, self.secret_ids@, src))),
                forall|t: int|
                    0 <= t < i && self.multiverse.alive_in_some(t) ==> has_kill_idx(result@, t),
        {
            let ghost before = result@;
            if self.multiverse.alive_in_some_universe(i) && !kill_idx_by(&result, i) {
                proof {
                    assert(alive_idx@.contains(i as usize));
                    assert(alive_idx@.len() > 0);
                }
                let tgt = alive_idx[random_index(alive_idx.len())];
                result.push(IdxAction::Kill(i, tgt));
            }
            proof {
                lemma_kept_preserved(before, result@, self.secret_ids@);
                assert forall|t: int|
                    0 <= t < i + 1 && self.multiverse.alive_in_some(t) implies has_kill_idx(
                    result@,
                    t,
                ) by {
                    if has_kill_idx(before, t) {
                        let a = choose|a: int|
                            #![trigger before[a]]
                            0 <= a < before.len() && (before[a] matches IdxAction::Kill(s, _) && s
                                == t);
                        assert(result@[a] == before[a]);
                    } else {
                        assert(t == i);
                        assert(result@.last() matches IdxAction::Kill(s, _) && s == t as usize);
                    }
                }
            }
        }
        result
    }
}

impl Night {
    /// Advance the game state to the next day using batch action
    /// resolution: sanitizes the submitted actions (dropping illegal ones
    /// and synthesizing missing mandatory kills), applies them in
    /// submission order with per-world conditioning, resolves the dawn,
    /// collapses roles, and re-checks the end condition.
    #[verifier::rlimit(50)]
    pub fn resolve_nar(self, night_actions: &Vec<NightAction>) -> (r: State)
        requires
            self.wf(),
        ensures
            !(r is Signups),
            !(r is Night),
            r matches State::Day(d) ==> d.wf() && d.secret_ids@ == self.secret_ids@
                && !d.multiverse.spec_game_over(false) && d.multiverse.descends_from(
                self.multiverse,
            ) && d.multiverse.universes@.len() <= self.multiverse.universes@.len() && (forall|
                i: int,
            |
                0 <= i < d.night_action_results@.len() ==> ((
                #[trigger] d.night_action_results@[i]) matches Some(res) ==> result_testifies(
                    res,
                    i,
                    d.secret_ids@,
                    night_actions@,
                    self.multiverse,
                ))) && (
            forall|i: int|
                0 <= i < d.last_heals@.len() ==> ((#[trigger] d.last_heals@[i]) matches Some(t)
                    ==> t < d.secret_ids@.len() && has_heal_pair(
                    night_actions@,
                    d.secret_ids@[i],
                    d.secret_ids@[t as int],
                ))),
            r matches State::Complete(c) ==> ended_from(c, self.multiverse, self.secret_ids@),
    {
        let sanitized = self.sanitized_night_actions(night_actions);
        let ghost orig = self;
        let Night { secret_ids, last_heals, mut multiverse } = self;
        let n = secret_ids.len();
        multiverse.reset_night();
        proof {
            assert(multiverse.descends_from(orig.multiverse));
        }
        let mut current_heals: Vec<Option<usize>> = none_vec(n);
        let mut results: Vec<Option<NightActionResult>> = none_vec(n);
        let total = sanitized.len();
        // healer/detective/werewolf setup does not have any dependencies,
        // so resolve in submitted order
        for a in 0..total
            invariant
                orig.wf(),
                total == sanitized@.len(),
                n == secret_ids@.len() == orig.multiverse.spec_num_players(),
                forall|q: int|
                    0 <= q < sanitized@.len() ==> idx_action_ok(
                        #[trigger] sanitized@[q],
                        orig.multiverse,
                        orig.last_heals@,
                    ),
                forall|q: int|
                    0 <= q < sanitized@.len() ==> ((#[trigger] sanitized@[q]) matches
                        IdxAction::Investigate(s, t) ==> has_investigation_pair(
                        night_actions@,
                        secret_ids@[s as int],
                        secret_ids@[t as int],
                    )),
                forall|q: int|
                    0 <= q < sanitized@.len() ==> ((#[trigger] sanitized@[q]) matches
                        IdxAction::Heal(s, t) ==> has_heal_pair(
                        night_actions@,
                        secret_ids@[s as int],
                        secret_ids@[t as int],
                    )),
                multiverse.wf(),
                multiverse.spec_num_players() == n,
                multiverse.descends_from(orig.multiverse),
                multiverse.universes@.len() <= orig.multiverse.universes@.len(),
                current_heals@.len() == n,
                forall|i: int|
                    0 <= i < n ==> ((#[trigger] current_heals@[i]) matches Some(t) ==> t < n
                        && has_heal_pair(night_actions@, secret_ids@[i], secret_ids@[t as int])),
                results@.len() == n,
                forall|i: int|
                    0 <= i < n ==> ((#[trigger] results@[i]) matches Some(res)
                        ==> result_testifies(
                        res,
                        i,
                        secret_ids@,
                        night_actions@,
                        orig.multiverse,
                    )),
        {
            let ghost mid = multiverse;
            match sanitized[a] {
                IdxAction::Heal(src_idx, tgt_idx) => {
                    current_heals.set(src_idx, Some(tgt_idx));
                    multiverse.apply_heal(src_idx, tgt_idx);
                },
                IdxAction::Investigate(src_idx, tgt_idx) => {
                    match multiverse.investigate(src_idx, tgt_idx) {
                        Some(investigated_faction) => {
                            proof {
                                // the revealed faction is the testimony of a
                                // world in which the investigator was a live
                                // detective, traced back to a world the
                                // night started from
                                let jm = choose|jm: int|
                                    0 <= jm < mid.universes@.len() && (
                                    #[trigger] mid.universes@[jm])@.roles[src_idx as int]
                                        == Role::Detective && mid.universes@[jm]@.alive[
                                        src_idx as int] && mid.universes@[jm]@.factions[
                                        tgt_idx as int] == investigated_faction;
                                assert(orig.multiverse.has_ancestor_of(mid.universes@[jm]@));
                                let k = choose|k: int|
                                    0 <= k < orig.multiverse.universes@.len()
                                        && mid.universes@[jm]@.descends(
                                        (#[trigger] orig.multiverse.universes@[k])@,
                                    );
                                assert((tgt_idx as int) < n && 0 <= k
                                    < orig.multiverse.universes@.len()
                                    && orig.multiverse.universes@[k]@.roles[src_idx as int]
                                        == Role::Detective
                                    && orig.multiverse.universes@[k]@.alive[src_idx as int]
                                    && orig.multiverse.universes@[k]@.factions[tgt_idx as int]
                                        == investigated_faction);
                                assert(result_testifies(
                                    NightActionResult::Investigation(investigated_faction),
                                    src_idx as int,
                                    secret_ids@,
                                    night_actions@,
                                    orig.multiverse,
                                ));
                            }
                            results.set(
                                src_idx,
                                Some(NightActionResult::Investigation(investigated_faction)),
                            );
                        },
                        None => {},
                    }
                },
                IdxAction::Kill(src_idx, tgt_idx) => {
                    multiverse.apply_werewolf_kill(src_idx, tgt_idx);
                },
            }
            proof {
                crate::multiverse::lemma_descends_from_trans(multiverse, mid, orig.multiverse);
            }
        }
        // kill all players on the death list, then collapse
        let ghost before_dawn = multiverse;
        multiverse.apply_dawn();
        proof {
            crate::multiverse::lemma_descends_from_trans(
                multiverse,
                before_dawn,
                orig.multiverse,
            );
        }
        let ghost before_collapse = multiverse;
        multiverse.collapse_roles();
        proof {
            crate::multiverse::lemma_descends_from_trans(
                multiverse,
                before_collapse,
                orig.multiverse,
            );
        }
        // check for game-ending conditions
        if multiverse.game_over(false) {
            let ghost fin = multiverse;
            let complete = Complete::new(secret_ids, multiverse);
            proof {
                reveal(ended_from);
                reveal(complete_outcome);
                assert(complete_outcome(complete, fin, orig.secret_ids@)
                    && fin.spec_num_players() == orig.multiverse.spec_num_players()
                    && fin.descends_from(orig.multiverse));
                assert(ended_from(complete, orig.multiverse, orig.secret_ids@));
            }
            return State::Complete(complete);
        }
        State::Day(
            Day {
                secret_ids,
                multiverse,
                night_action_results: results,
                last_heals: current_heals,
            },
        )
    }

    /// Advance the game state to the next day using temporal action
    /// resolution: solicits every possibly-living player for each applicable
    /// action in a freshly randomized order, applying each choice with
    /// per-world conditioning as it arrives, then resolves the dawn,
    /// collapses roles and re-checks the end condition.
    ///
    /// A choice naming a player who is not in the game is treated as an
    /// abstention.
    #[verifier::rlimit(50)]
    pub fn resolve_tar<H, I, W>(
        self,
        choose_heal_target: H,
        choose_investigation_target: I,
        choose_werewolf_kill_target: W,
    ) -> (r: State) where
        H: Fn(u64, Vec<u64>) -> Option<u64>,
        I: Fn(u64, Vec<u64>) -> Option<u64>,
        W: Fn(u64, Vec<u64>) -> u64,

        requires
            self.wf(),
            forall|p: u64, c: Vec<u64>| #[trigger] call_requires(choose_heal_target, (p, c)),
            forall|p: u64, c: Vec<u64>|
                #[trigger] call_requires(choose_investigation_target, (p, c)),
            forall|p: u64, c: Vec<u64>|
                #[trigger] call_requires(choose_werewolf_kill_target, (p, c)),
        ensures
            !(r is Signups),
            !(r is Night),
            r matches State::Day(d) ==> d.wf() && d.secret_ids@ == self.secret_ids@
                && !d.multiverse.spec_game_over(false) && d.multiverse.descends_from(
                self.multiverse,
            ) && d.multiverse.universes@.len() <= self.multiverse.universes@.len(),
            r matches State::Complete(c) ==> ended_from(c, self.multiverse, self.secret_ids@),
    {
        let ghost orig = self;
        let Night { secret_ids, last_heals, mut multiverse } = self;
        let n = secret_ids.len();
        multiverse.reset_night();
        proof {
            assert(multiverse.descends_from(orig.multiverse));
        }
        let mut current_heals: Vec<Option<usize>> = none_vec(n);
        // healer actions
        if multiverse.role_alive(Role::Healer) {
            let order = shuffled_indices(n);
            let olen = order.len();
            for t in 0..olen
                invariant
                    olen == order@.len(),
                    forall|q: int| 0 <= q < order@.len() ==> #[trigger] order@[q] < n,
                    n == secret_ids@.len(),
                    forall|p: u64, c: Vec<u64>|
                        #[trigger] call_requires(choose_heal_target, (p, c)),
                    multiverse.wf(),
                    multiverse.spec_num_players() == n,
                    multiverse.descends_from(orig.multiverse),
                    multiverse.universes@.len() <= orig.multiverse.universes@.len(),
                    current_heals@.len() == n,
                    forall|q: int|
                        0 <= q < n && (#[trigger] current_heals@[q]) is Some
                            ==> current_heals@[q]->0 < n,
                    last_heals@.len() == n,
            {
                let i = order[t];
                if multiverse.alive_in_some_universe(i) {
                    let idxs = multiverse.alive();
                    let mut healable: Vec<u64> = Vec::new();
                    let ilen = idxs.len();
                    for q in 0..ilen
                        invariant
                            ilen == idxs@.len(),
                            n == secret_ids@.len(),
                            forall|z: int| 0 <= z < idxs@.len() ==> #[trigger] idxs@[z] < n,
                            last_heals@.len() == n,
                            i < n,
                    {
                        let idx = idxs[q];
                        let excluded = match last_heals[i] {
                            Some(h) => h == idx,
                            None => false,
                        };
                        if !excluded {
                            healable.push(secret_ids[idx]);
                        }
                    }
                    shuffle(&mut healable);
                    match choose_heal_target(secret_ids[i], healable) {
                        Some(target) => {
                            match find_u64(&secret_ids, target) {
                                Some(target_idx) => {
                                    current_heals.set(i, Some(target_idx));
                                    let ghost mid = multiverse;
                                    multiverse.apply_heal(i, target_idx);
                                    proof {
                                        crate::multiverse::lemma_descends_from_trans(
                                            multiverse,
                                            mid,
                                            orig.multiverse,
                                        );
                                    }
                                },
                                None => {},
                            }
                        },
                        None => {},
                    }
                }
            }
        }
        // detective actions
        let mut results: Vec<Option<NightActionResult>> = none_vec(n);
        if multiverse.role_alive(Role::Detective) {
            let order = shuffled_indices(n);
            let olen = order.len();
            for t in 0..olen
                invariant
                    olen == order@.len(),
                    forall|q: int| 0 <= q < order@.len() ==> #[trigger] order@[q] < n,
                    n == secret_ids@.len(),
                    forall|p: u64, c: Vec<u64>|
                        #[trigger] call_requires(choose_investigation_target, (p, c)),
                    multiverse.wf(),
                    multiverse.spec_num_players() == n,
                    multiverse.descends_from(orig.multiverse),
                    multiverse.universes@.len() <= orig.multiverse.universes@.len(),
                    results@.len() == n,
            {
                let i = order[t];
                if multiverse.alive_in_some_universe(i) {
                    let mut all_players = copy_vec(&secret_ids);
                    shuffle(&mut all_players);
                    match choose_investigation_target(secret_ids[i], all_players) {
                        Some(target) => {
                            match find_u64(&secret_ids, target) {
                                Some(target_idx) => {
                                    let ghost mid = multiverse;
                                    match multiverse.investigate(i, target_idx) {
                                        Some(investigated_faction) => {
                                            results.set(
                                                i,
                                                Some(
                                                    NightActionResult::Investigation(
                                                        investigated_faction,
                                                    ),
                                                ),
                                            );
                                        },
                                        None => {},
                                    }
                                    proof {
                                        crate::multiverse::lemma_descends_from_trans(
                                            multiverse,
                                            mid,
                                            orig.multiverse,
                                        );
                                    }
                                },
                                None => {},
                            }
                        },
                        None => {},
                    }
                }
            }
        }
        // werewolf kills
        {
            let order = shuffled_indices(n);
            let olen = order.len();
            for t in 0..olen
                invariant
                    olen == order@.len(),
                    forall|q: int| 0 <= q < order@.len() ==> #[trigger] order@[q] < n,
                    n == secret_ids@.len(),
                    forall|p: u64, c: Vec<u64>|
                        #[trigger] call_requires(choose_werewolf_kill_target, (p, c)),
                    secret_ids@.no_duplicates(),
                    multiverse.wf(),
                    multiverse.spec_num_players() == n,
                    multiverse.descends_from(orig.multiverse),
                    multiverse.universes@.len() <= orig.multiverse.universes@.len(),
            {
                let i = order[t];
                if multiverse.alive_in_some_universe(i) {
                    let mut cands = alive_ids(&secret_ids, &multiverse);
                    shuffle(&mut cands);
                    let target = choose_werewolf_kill_target(secret_ids[i], cands);
                    match find_u64(&secret_ids, target) {
                        Some(target_idx) => {
                            let ghost mid = multiverse;
                            multiverse.apply_werewolf_kill(i, target_idx);
                            proof {
                                crate::multiverse::lemma_descends_from_trans(
                                    multiverse,
                                    mid,
                                    orig.multiverse,
                                );
                            }
                        },
                        None => {},
                    }
                }
            }
        }
        // kill all players on the death list, then collapse
        let ghost before_dawn = multiverse;
        multiverse.apply_dawn();
        proof {
            crate::multiverse::lemma_descends_from_trans(
                multiverse,
                before_dawn,
                orig.multiverse,
            );
        }
        let ghost before_collapse = multiverse;
        multiverse.collapse_roles();
        proof {
            crate::multiverse::lemma_descends_from_trans(
                multiverse,
                before_collapse,
                orig.multiverse,
            );
        }
        // check for game-ending conditions
        if multiverse.game_over(false) {
            let ghost fin = multiverse;
            let complete = Complete::new(secret_ids, multiverse);
            proof {
                reveal(ended_from);
                reveal(complete_outcome);
                assert(complete_outcome(complete, fin, orig.secret_ids@)
                    && fin.spec_num_players() == orig.multiverse.spec_num_players()
                    && fin.descends_from(orig.multiverse));
                assert(ended_from(complete, orig.multiverse, orig.secret_ids@));
            }
            return State::Complete(complete);
        }
        State::Day(
            Day {
                secret_ids,
                multiverse,
                night_action_results: results,
                last_heals: current_heals,
            },
        )
    }
}

/// The players with a night-action result to deliver, in secret-id order,
/// paired with their results.
pub open spec fn collect_results(ids: Seq<u64>, results: Seq<Option<NightActionResult>>) -> Seq<
    (u64, NightActionResult),
>
    decreases results.len(),
{
    if results.len() == 0 {
        Seq::empty()
    } else {
        collect_results(ids, results.drop_last()) + (match results.last() {
            Some(res) => seq![(ids[results.len() - 1], res)],
            None => Seq::empty(),
        })
    }
}

/// A lynch vote advanced the game to night: the target's index was found in
/// the permutation, every world where the target was already dead was
/// discarded, the target was killed in the surviving worlds, and role
/// collapse ran on the result.
#[verifier::opaque]
pub open spec fn lynch_advanced_to(post: Multiverse, pre: Day, target: u64) -> bool {
    exists|i: int, mid: Multiverse|
        #![trigger lynch_outcome(mid, pre.multiverse, i)]
        0 <= i < pre.secret_ids@.len() && pre.secret_ids@[i] == target && lynch_outcome(
            mid,
            pre.multiverse,
            i,
        ) && collapse_outcome(post, mid)
}

/// A lynch vote ended the game: the lynch was applied and collapsed as in
/// `lynch_advanced_to`, the game is over in every resulting world, and the
/// winners come from one world sampled from the result.
#[verifier::opaque]
pub open spec fn lynch_ended(c: Complete, pre: Day, target: u64) -> bool {
    exists|i: int, mid: Multiverse, fin: Multiverse|
        #![trigger lynch_outcome(mid, pre.multiverse, i), collapse_outcome(fin, mid)]
        0 <= i < pre.secret_ids@.len() && pre.secret_ids@[i] == target && lynch_outcome(
            mid,
            pre.multiverse,
            i,
        ) && collapse_outcome(fin, mid) && complete_outcome(c, fin, pre.secret_ids@)
}

impl Day {
    /// Returns the player list, sorted by secret player index.
    pub fn secret_ids(&self) -> (r: &Vec<u64>)
        ensures
            *r == self.secret_ids,
    {
        &self.secret_ids
    }

    /// Returns the set of players which are still alive in at least one
    /// possible universe.
    pub fn alive(&self) -> (r: Vec<u64>)
        requires
            self.wf(),
        ensures
            forall|t: int|
                0 <= t < r@.len() ==> is_alive_id(
                    self.secret_ids@,
                    self.multiverse,
                    #[trigger] r@[t],
                ),
            forall|i: int|
                0 <= i < self.secret_ids@.len() && self.multiverse.alive_in_some(i)
                    ==> r@.contains(#[trigger] self.secret_ids@[i]),
            r@.no_duplicates(),
    {
        alive_ids(&self.secret_ids, &self.multiverse)
    }

    /// Contains results of the last night's night actions.
    pub fn night_action_results(&self) -> (list: Vec<(u64, NightActionResult)>)
        requires
            self.wf(),
        ensures
            list@ == collect_results(self.secret_ids@, self.night_action_results@),
    {
        let n = self.night_action_results.len();
        let mut list: Vec<(u64, NightActionResult)> = Vec::new();
        for i in 0..n
            invariant
                self.wf(),
                n == self.night_action_results@.len() == self.secret_ids@.len(),
                list@ == collect_results(self.secret_ids@, self.night_action_results@.take(
                    i as int,
                )),
        {
            proof {
                assert(self.night_action_results@.take(i + 1).drop_last()
                    =~= self.night_action_results@.take(i as int));
                assert(self.night_action_results@.take(i + 1).last()
                    == self.night_action_results@[i as int]);
            }
            match self.night_action_results[i] {
                Some(res) => {
                    list.push((self.secret_ids[i], res));
                },
                None => {},
            }
        }
        proof {
            assert(self.night_action_results@.take(n as int) =~= self.night_action_results@);
        }
        list
    }

    /// Whether the target can be lynched: they are in the game and alive in
    /// at least one remaining world. `lynch` demands exactly this, so
    /// callers can check it first.
    pub open spec fn spec_can_lynch(self, target: u64) -> bool {
        exists|i: int|
            #![trigger self.secret_ids@[i]]
            0 <= i < self.secret_ids@.len() && self.secret_ids@[i] == target
                && self.multiverse.alive_in_some(i)
    }

    /// Tests whether the target can be lynched: `false` for any player not
    /// in the game or not alive in any remaining world.
    pub fn can_lynch(&self, lynch_target: u64) -> (r: bool)
        requires
            self.wf(),
        ensures
            r == self.spec_can_lynch(lynch_target),
    {
        match find_u64(&self.secret_ids, lynch_target) {
            Some(idx) => {
                let r = self.multiverse.alive_in_some_universe(idx);
                proof {
                    if r {
                        assert(self.secret_ids@[idx as int] == lynch_target);
                    } else {
                        assert forall|i: int|
                            0 <= i < self.secret_ids@.len() && self.secret_ids@[i] == lynch_target
                            implies !self.multiverse.alive_in_some(i) by {
                            assert(i == idx as int);
                        }
                    }
                }
                r
            },
            None => {
                false
            },
        }
    }

    /// Advance the game state to the next night by lynching a player:
    /// discards every world where the target is already dead, kills the
    /// target in all surviving worlds (no heal protection applies during the
    /// day), collapses roles, and re-checks the end condition.
    pub fn lynch(self, lynch_target: u64) -> (r: State)
        requires
            self.wf(),
            self.spec_can_lynch(lynch_target),
        ensures
            !(r is Signups),
            !(r is Day),
            r matches State::Night(ng) ==> ng.wf() && ng.secret_ids@ == self.secret_ids@
                && ng.last_heals@ == self.last_heals@ && !ng.multiverse.spec_game_over(false)
                && ng.multiverse.descends_from(self.multiverse) && lynch_advanced_to(
                ng.multiverse,
                self,
                lynch_target,
            ) && (exists|i: int|
                #![trigger self.secret_ids@[i]]
                0 <= i < self.secret_ids@.len() && self.secret_ids@[i] == lynch_target
                    && ng.multiverse.dead_in_all(i)),
            r matches State::Complete(c) ==> lynch_ended(c, self, lynch_target),
    {
        proof {
            let i = choose|i: int|
                #![trigger self.secret_ids@[i]]
                0 <= i < self.secret_ids@.len() && self.secret_ids@[i] == lynch_target
                    && self.multiverse.alive_in_some(i);
            assert(self.secret_ids@.contains(lynch_target));
        }
        let found = find_u64(&self.secret_ids, lynch_target);
        let lynch_id = found.unwrap();
        proof {
            let i = choose|i: int|
                #![trigger self.secret_ids@[i]]
                0 <= i < self.secret_ids@.len() && self.secret_ids@[i] == lynch_target
                    && self.multiverse.alive_in_some(i);
            assert(i == lynch_id as int);
        }
        let ghost orig = self;
        let Day { secret_ids, mut multiverse, last_heals, .. } = self;
        multiverse.apply_lynch(lynch_id);
        proof {
            // the target is now dead in every remaining world
            assert forall|j: int| 0 <= j < multiverse.universes@.len() implies !(
            #[trigger] multiverse.universes@[j])@.alive[lynch_id as int] by {
                let kept = orig.multiverse.universes@.filter(
                    crate::multiverse::lynch_pred(lynch_id as int),
                );
                assert(multiverse.universes@[j]@ == kept[j]@.with_day_kill(lynch_id));
                crate::multiverse::lemma_filter_element_of(
                    orig.multiverse.universes@,
                    crate::multiverse::lynch_pred(lynch_id as int),
                    j,
                );
                let k = choose|k: int|
                    0 <= k < orig.multiverse.universes@.len() && orig.multiverse.universes@[k]
                        == kept[j];
                assert(kept[j]@.wf());
                assert(lynch_id < kept[j]@.alive.len());
                assert(multiverse.universes@[j]@.alive == kept[j]@.alive.update(
                    lynch_id as int,
                    false,
                ));
            }
        }
        let ghost mid = multiverse;
        multiverse.collapse_roles();
        proof {
            crate::multiverse::lemma_descends_from_trans(multiverse, mid, orig.multiverse);
            // filtering worlds out cannot resurrect the target
            assert forall|j: int| 0 <= j < multiverse.universes@.len() implies !(
            #[trigger] multiverse.universes@[j])@.alive[lynch_id as int] by {
                let k = choose|k: int|
                    0 <= k < mid.universes@.len() && mid.universes@[k] == multiverse.universes@[j];
                assert(!mid.universes@[k]@.alive[lynch_id as int]);
            }
            assert(multiverse.dead_in_all(lynch_id as int));
        }
        if multiverse.game_over(false) {
            let ghost fin = multiverse;
            let complete = Complete::new(secret_ids, multiverse);
            proof {
                reveal(lynch_ended);
                reveal(complete_outcome);
                assert((lynch_id as int) < orig.secret_ids@.len()
                    && orig.secret_ids@[lynch_id as int] == lynch_target
                    && crate::multiverse::lynch_outcome(mid, orig.multiverse, lynch_id as int)
                    && crate::multiverse::collapse_outcome(fin, mid)
                    && complete_outcome(complete, fin, orig.secret_ids@));
                assert(lynch_ended(complete, orig, lynch_target));
            }
            return State::Complete(complete);
        }
        proof {
            reveal(lynch_advanced_to);
            assert((lynch_id as int) < orig.secret_ids@.len()
                && orig.secret_ids@[lynch_id as int] == lynch_target
                && crate::multiverse::lynch_outcome(mid, orig.multiverse, lynch_id as int)
                && crate::multiverse::collapse_outcome(multiverse, mid));
            assert(lynch_advanced_to(multiverse, orig, lynch_target));
        }
        State::Night(Night { secret_ids, last_heals, multiverse })
    }

    /// Advance the game state to the next night without lynching any
    /// players: only the end condition is re-checked.
    pub fn no_lynch(self) -> (r: State)
        requires
            self.wf(),
        ensures
            !(r is Signups),
            !(r is Day),
            r is Complete <==> self.multiverse.spec_game_over(false),
            r matches State::Night(ng) ==> ng.wf() && ng.secret_ids@ == self.secret_ids@
                && ng.last_heals@ == self.last_heals@ && ng.multiverse == self.multiverse,
            r matches State::Complete(c) ==> exists|k: int|
                0 <= k < self.multiverse.universes@.len() && c.winners@ == spec_winners(
                    (#[trigger] self.multiverse.universes@[k])@,
                    self.secret_ids@,
                ),
    {
        let Day { secret_ids, multiverse, last_heals, .. } = self;
        if multiverse.game_over(false) {
            return State::Complete(Complete::new(secret_ids, multiverse));
        }
        State::Night(Night { secret_ids, last_heals, multiverse })
    }

    /// Produces the anonymized probability table shown to players at the
    /// start of the day: for each player in secret-id order, how many worlds
    /// put them in the village, among the werewolves, and dead, out of all
    /// remaining worlds — or their unambiguous faction if they are dead in
    /// every world.
    pub fn probability_table(&self) -> (table: Vec<Result<(usize, usize, usize), Faction>>)
        requires
            self.wf(),
        ensures
            table@.len() == self.multiverse.spec_num_players(),
            forall|i: int|
                0 <= i < table@.len() && self.multiverse.alive_in_some(i) ==> ((
                #[trigger] table@[i]) matches Ok(t) && t.0 == crate::multiverse::faction_count(
                    self.multiverse.universes@,
                    i,
                    Faction::Village,
                ) && t.1 == crate::multiverse::faction_count(
                    self.multiverse.universes@,
                    i,
                    Faction::Werewolves,
                ) && t.2 == crate::multiverse::dead_count(self.multiverse.universes@, i) && t.0
                    + t.1 == self.multiverse.universes@.len()),
            forall|i: int|
                0 <= i < table@.len() && !self.multiverse.alive_in_some(i) ==> ((
                #[trigger] table@[i]) matches Err(f) && f
                    == self.multiverse.universes@[0]@.factions[i]),
    {
        proof {
            // a collapsed multiverse fixes the roles, and with them the
            // factions, of every player dead in all worlds
            assert forall|i: int|
                0 <= i < self.multiverse.spec_num_players() && #[trigger] self.multiverse.dead_in_all(
                    i,
                ) implies self.multiverse.faction_fixed(i) by {
                assert(self.multiverse.role_fixed(i));
                assert forall|j: int|
                    0 <= j < self.multiverse.universes@.len() implies (
                #[trigger] self.multiverse.universes@[j])@.factions[i]
                    == self.multiverse.universes@[0]@.factions[i] by {
                    assert(self.multiverse.universes@[j]@.roles[i]
                        == self.multiverse.universes@[0]@.roles[i]);
                }
            }
        }
        self.multiverse.probability_table()
    }
}

impl Default for State {
    /// A game which has not been started and has nobody signed up yet.
    fn default() -> (s: State)
        ensures
            s matches State::Signups(su) && su.wf() && su.players@.len() == 0,
    {
        State::Signups(Signups::new())
    }
}

impl State {
    /// Well-formedness of whichever phase the game is in.
    pub open spec fn wf(self) -> bool {
        match self {
            State::Signups(s) => s.wf(),
            State::Night(ng) => ng.wf(),
            State::Day(d) => d.wf(),
            State::Complete(_) => true,
        }
    }

    /// If the game is ongoing, returns the set of players which are still
    /// alive in at least one possible universe.
    pub fn alive(&self) -> (r: Option<Vec<u64>>)
        requires
            self.wf(),
        ensures
            r is Some <==> (self is Night || self is Day),
            r matches Some(v) ==> v@.no_duplicates(),
            self matches State::Night(ng) ==> (r matches Some(v) ==> (forall|t: int|
                0 <= t < v@.len() ==> is_alive_id(ng.secret_ids@, ng.multiverse, #[trigger] v@[t]))
                && (forall|i: int|
                0 <= i < ng.secret_ids@.len() && ng.multiverse.alive_in_some(i) ==> v@.contains(
                    #[trigger] ng.secret_ids@[i],
                ))),
            self matches State::Day(d) ==> (r matches Some(v) ==> (forall|t: int|
                0 <= t < v@.len() ==> is_alive_id(d.secret_ids@, d.multiverse, #[trigger] v@[t]))
                && (forall|i: int|
                0 <= i < d.secret_ids@.len() && d.multiverse.alive_in_some(i) ==> v@.contains(
                    #[trigger] d.secret_ids@[i],
                ))),
    {
        match self {
            State::Signups(_) => None,
            State::Night(ng) => Some(ng.alive()),
            State::Day(d) => Some(d.alive()),
            State::Complete(_) => None,
        }
    }

    /// Returns the number of players that are in this game.
    ///
    /// During signups, this is the number of players signed up so far; for a
    /// completed game, the number of winners.
    pub fn num_players(&self) -> (n: usize)
        ensures
            n == (match *self {
                State::Signups(s) => s.players@.len(),
                State::Night(ng) => ng.secret_ids@.len(),
                State::Day(d) => d.secret_ids@.len(),
                State::Complete(c) => c.winners@.len(),
            }),
    {
        match self {
            State::Signups(s) => s.num_players(),
            State::Night(ng) => ng.secret_ids.len(),
            State::Day(d) => d.secret_ids.len(),
            State::Complete(c) => c.winners.len(),
        }
    }

    /// Returns the role of the given player, if the game is ongoing and that
    /// role is identical across every remaining universe.
    pub fn role(&self, player: u64) -> (r: Option<Role>)
        requires
            self.wf(),
            self matches State::Night(ng) ==> ng.secret_ids@.contains(player),
            self matches State::Day(d) ==> d.secret_ids@.contains(player),
        ensures
            self is Signups || self is Complete ==> r is None,
            self matches State::Night(ng) ==> exists|i: int|
                #![trigger ng.secret_ids@[i]]
                0 <= i < ng.secret_ids@.len() && ng.secret_ids@[i] == player && (r is Some
                    <==> ng.multiverse.role_fixed(i)) && (r is Some ==> r->0
                    == ng.multiverse.universes@[0]@.roles[i]),
            self matches State::Day(d) ==> exists|i: int|
                #![trigger d.secret_ids@[i]]
                0 <= i < d.secret_ids@.len() && d.secret_ids@[i] == player && (r is Some
                    <==> d.multiverse.role_fixed(i)) && (r is Some ==> r->0
                    == d.multiverse.universes@[0]@.roles[i]),
    {
        match self {
            State::Signups(_) => None,
            State::Night(ng) => {
                let idx = find_u64(&ng.secret_ids, player).unwrap();
                ng.multiverse.role(idx)
            },
            State::Day(d) => {
                let idx = find_u64(&d.secret_ids, player).unwrap();
                d.multiverse.role(idx)
            },
            State::Complete(_) => None,
        }
    }

    /// If the game is ongoing, returns the player list, sorted by secret
    /// player index.
    pub fn secret_ids(&self) -> (r: Option<&Vec<u64>>)
        ensures
            r is Some <==> (self is Night || self is Day),
            self matches State::Night(ng) ==> (r matches Some(v) && *v == ng.secret_ids),
            self matches State::Day(d) ==> (r matches Some(v) && *v == d.secret_ids),
    {
        match self {
            State::Signups(_) => None,
            State::Night(ng) => Some(&ng.secret_ids),
            State::Day(d) => Some(&d.secret_ids),
            State::Complete(_) => None,
        }
    }
}

} // verus!
