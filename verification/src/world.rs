//! A single possible world: one fully concrete hypothesis of every player's
//! role, alive status and faction, plus the pending effects of the current
//! night. The ghost type [`World`] is the mathematical model; [`Universe`] is
//! its executable counterpart.

use vstd::prelude::*;

use crate::types::Faction;
use crate::types::Role;

verus! {

/// Counts the `true` entries of a sequence of booleans.
pub open spec fn count_true(s: Seq<bool>) -> nat
    decreases s.len(),
{
    if s.len() == 0 {
        0
    } else {
        count_true(s.drop_last()) + if s.last() {
            1nat
        } else {
            0nat
        }
    }
}

/// The mathematical model of a universe: one consistent assignment of roles,
/// alive flags and factions for every player, with this night's pending
/// effects.
#[verifier::ext_equal]
pub struct World {
    /// Which players are alive in this world.
    pub alive: Seq<bool>,
    /// The role of each player in this world; fixed at creation.
    pub roles: Seq<Role>,
    /// The faction of each player: always the default mapping of the role.
    pub factions: Seq<Faction>,
    /// Players protected by a heal this night.
    pub heals: Seq<usize>,
    /// Players marked for death at dawn.
    pub kills: Seq<usize>,
}

impl World {
    /// The number of players this world describes.
    pub open spec fn num_players(self) -> nat {
        self.alive.len()
    }

    /// Well-formedness: all per-player sequences agree on the player count,
    /// the cached faction of every player is the default mapping of their
    /// role, and pending heals and kills refer to players in range.
    pub open spec fn wf(self) -> bool {
        &&& self.roles.len() == self.num_players()
        &&& self.factions.len() == self.num_players()
        &&& forall|i: int|
            0 <= i < self.num_players() ==> self.factions[i]
                == self.roles[i].spec_default_faction()
        &&& forall|i: int| 0 <= i < self.heals.len() ==> self.heals[i] < self.num_players()
        &&& forall|i: int| 0 <= i < self.kills.len() ==> self.kills[i] < self.num_players()
    }

    /// Whether some player of the given faction is alive in this world.
    pub open spec fn faction_alive(self, faction: Faction) -> bool {
        exists|i: int|
            0 <= i < self.num_players() && self.factions[i] == faction && self.alive[i]
    }

    /// Whether every player is dead in this world.
    pub open spec fn all_dead(self) -> bool {
        forall|i: int| 0 <= i < self.num_players() ==> !self.alive[i]
    }

    /// Whether the game has ended in this world: everyone is dead, or (by
    /// day) fewer than two players are alive or some faction's win condition
    /// holds.
    pub open spec fn game_over(self, night: bool) -> bool {
        ||| self.all_dead()
        ||| (!night && count_true(self.alive) < 2)
        ||| (!night && exists|i: int|
            0 <= i < self.factions.len() && (#[trigger] self.factions[i]).spec_wincon(self))
    }

    /// This world descends from `from`: same roles and factions, and no
    /// player has come back to life.
    pub open spec fn descends(self, from: World) -> bool {
        &&& self.roles == from.roles
        &&& self.factions == from.factions
        &&& self.alive.len() == from.alive.len()
        &&& forall|i: int| 0 <= i < self.alive.len() && self.alive[i] ==> from.alive[i]
    }

    /// This world with one more pending heal recorded.
    pub open spec fn with_heal(self, tgt: usize) -> World {
        World { heals: self.heals.push(tgt), ..self }
    }

    /// This world with the player marked for death at dawn, unless protected
    /// by a heal.
    pub open spec fn with_night_kill(self, tgt: usize) -> World {
        if self.heals.contains(tgt) {
            self
        } else {
            World { kills: self.kills.push(tgt), ..self }
        }
    }

    /// This world with the player dead immediately.
    pub open spec fn with_day_kill(self, tgt: usize) -> World {
        World { alive: self.alive.update(tgt as int, false), ..self }
    }
}

/// A universe represents one of the possible quantum states in a game of
/// Quantum Werewolf. Its view is the [`World`] it hypothesizes.
#[derive(Debug, PartialEq, Eq)]
pub struct Universe {
    /// Which players are alive in this universe. Entries only ever move from
    /// `true` to `false` over the course of a game.
    pub alive: Vec<bool>,
    /// The role of each player in this universe; fixed at creation.
    pub roles: Vec<Role>,
    /// The faction of each player: always the default mapping of the role.
    pub factions: Vec<Faction>,
    /// Players protected by a heal this night.
    pub heals: Vec<usize>,
    /// Players marked for death at dawn.
    pub kills: Vec<usize>,
}

impl View for Universe {
    type V = World;

    open spec fn view(&self) -> World {
        World {
            alive: self.alive@,
            roles: self.roles@,
            factions: self.factions@,
            heals: self.heals@,
            kills: self.kills@,
        }
    }
}

/// Copies a vector of plain values.
pub(crate) fn copy_vec<T: Copy>(v: &Vec<T>) -> (r: Vec<T>)
    ensures
        r@ == v@,
{
    let mut r: Vec<T> = Vec::new();
    let n = v.len();
    for i in 0..n
        invariant
            n == v@.len(),
            r@ == v@.take(i as int),
    {
        proof {
            assert(v@.take(i + 1) =~= v@.take(i as int).push(v@[i as int]));
        }
        r.push(v[i]);
    }
    proof {
        assert(v@.take(n as int) =~= v@);
    }
    r
}

/// Whether a vector of player indices contains the given index.
fn contains_usize(v: &Vec<usize>, x: usize) -> (r: bool)
    ensures
        r == v@.contains(x),
{
    let n = v.len();
    for i in 0..n
        invariant
            n == v@.len(),
            forall|j: int| 0 <= j < i ==> v@[j] != x,
    {
        if v[i] == x {
            return true;
        }
    }
    false
}

impl Universe {
    /// Builds the universe in which the given role assignment holds and every
    /// player starts out alive.
    pub fn from_roles(roles: Vec<Role>) -> (u: Universe)
        ensures
            u@.wf(),
            u@.roles == roles@,
            u@.num_players() == roles@.len(),
            forall|i: int| 0 <= i < u@.num_players() ==> u@.alive[i],
            u@.heals.len() == 0,
            u@.kills.len() == 0,
    {
        let n = roles.len();
        let mut factions: Vec<Faction> = Vec::new();
        for i in 0..n
            invariant
                n == roles@.len(),
                factions@.len() == i,
                forall|j: int| 0 <= j < i ==> factions@[j] == roles@[j].spec_default_faction(),
        {
            factions.push(roles[i].default_faction());
        }
        Universe { alive: vec![true; n], roles, factions, heals: Vec::new(), kills: Vec::new() }
    }

    /// Returns a copy of this universe.
    pub fn duplicate(&self) -> (u: Universe)
        ensures
            u@ == self@,
    {
        let u = Universe {
            alive: copy_vec(&self.alive),
            roles: copy_vec(&self.roles),
            factions: copy_vec(&self.factions),
            heals: copy_vec(&self.heals),
            kills: copy_vec(&self.kills),
        };
        proof {
            assert(u@ =~= self@);
        }
        u
    }

    /// Checks if the game has ended in this universe.
    pub fn game_over(&self, night: bool) -> (r: bool)
        requires
            self@.factions.len() == self@.num_players(),
        ensures
            r == self@.game_over(night),
    {
        if self.all_dead() {
            return true;
        }
        if night {
            return false;
        }
        if self.count_alive() < 2 {
            return true;
        }
        let n = self.factions.len();
        for i in 0..n
            invariant
                !night,
                n == self@.factions.len() == self@.num_players(),
                forall|j: int| 0 <= j < i ==> !(#[trigger] self@.factions[j]).spec_wincon(self@),
        {
            let faction = self.factions[i];
            if faction.wincon(self) {
                proof {
                    assert((self@.factions[i as int]).spec_wincon(self@));
                }
                return true;
            }
        }
        false
    }

    /// Whether every player is dead in this universe.
    pub fn all_dead(&self) -> (r: bool)
        ensures
            r == self@.all_dead(),
    {
        let n = self.alive.len();
        for i in 0..n
            invariant
                n == self@.alive.len(),
                forall|j: int| 0 <= j < i ==> !self@.alive[j],
        {
            if self.alive[i] {
                return false;
            }
        }
        true
    }

    /// Counts the players alive in this universe.
    pub fn count_alive(&self) -> (c: usize)
        ensures
            c == count_true(self@.alive),
    {
        let n = self.alive.len();
        let mut count: usize = 0;
        for i in 0..n
            invariant
                n == self@.alive.len(),
                count == count_true(self@.alive.take(i as int)),
                count <= i,
        {
            proof {
                assert(self@.alive.take(i + 1).drop_last() =~= self@.alive.take(i as int));
            }
            if self.alive[i] {
                count = count + 1;
            }
        }
        proof {
            assert(self@.alive.take(n as int) =~= self@.alive);
        }
        count
    }

    /// Utility method to properly handle killing a player depending on
    /// day/night and healed status. At night the player is only marked for
    /// death at dawn, and not even that if they are protected by a heal; by
    /// day they die immediately.
    pub fn kill(&mut self, player_idx: usize, night: bool)
        requires
            player_idx < old(self)@.num_players(),
        ensures
            night ==> final(self)@ == old(self)@.with_night_kill(player_idx),
            !night ==> final(self)@ == old(self)@.with_day_kill(player_idx),
            old(self)@.wf() ==> final(self)@.wf(),
            final(self)@.descends(old(self)@),
    {
        if night {
            if !contains_usize(&self.heals, player_idx) {
                self.kills.push(player_idx);
                proof {
                    assert(self@ =~= old(self)@.with_night_kill(player_idx));
                }
            } else {
                proof {
                    assert(self@ =~= old(self)@.with_night_kill(player_idx));
                }
            }
        } else {
            self.alive.set(player_idx, false);
            proof {
                assert(self@ =~= old(self)@.with_day_kill(player_idx));
            }
        }
    }

    /// Records the given player as protected by a heal this night.
    pub fn heal(&mut self, player_idx: usize)
        requires
            player_idx < old(self)@.num_players(),
        ensures
            final(self)@ == old(self)@.with_heal(player_idx),
            old(self)@.wf() ==> final(self)@.wf(),
    {
        self.heals.push(player_idx);
        proof {
            assert(self@ =~= old(self)@.with_heal(player_idx));
        }
    }
}

impl Faction {
    /// A faction's win condition in one world. The village wins if some
    /// village-faction player is alive and no werewolves-faction player is;
    /// the werewolves win if no village-faction player is alive, which holds
    /// vacuously when nobody is alive at all: total mutual destruction is a
    /// werewolves win by this rule.
    pub open spec fn spec_wincon(self, w: World) -> bool {
        match self {
            Faction::Werewolves => !w.faction_alive(Faction::Village),
            Faction::Village => w.faction_alive(Faction::Village) && !w.faction_alive(
                Faction::Werewolves,
            ),
        }
    }

    /// Checks whether this faction's win condition has been met in the given
    /// universe.
    pub fn wincon(&self, universe: &Universe) -> (r: bool)
        requires
            universe@.factions.len() == universe@.num_players(),
        ensures
            r == self.spec_wincon(universe@),
    {
        match *self {
            Faction::Werewolves => !faction_alive_exec(universe, Faction::Village),
            Faction::Village => {
                let villager_alive = faction_alive_exec(universe, Faction::Village);
                // if introducing additional factions considered threats to
                // the village, update this
                let threat_alive = faction_alive_exec(universe, Faction::Werewolves);
                villager_alive && !threat_alive
            },
        }
    }
}

/// Whether some player of the given faction is alive in the universe.
fn faction_alive_exec(u: &Universe, faction: Faction) -> (r: bool)
    requires
        u@.factions.len() == u@.num_players(),
    ensures
        r == u@.faction_alive(faction),
{
    let n = u.alive.len();
    for i in 0..n
        invariant
            n == u@.alive.len(),
            u@.factions.len() == n,
            forall|j: int| 0 <= j < i ==> !(u@.factions[j] == faction && u@.alive[j]),
    {
        if u.factions[i] == faction && u.alive[i] {
            return true;
        }
    }
    false
}

/// Total mutual destruction favors the werewolves: in any world where every
/// player is dead, the werewolves' win condition holds and the village's
/// does not, whatever the faction assignment.
pub proof fn lemma_mutual_destruction_favors_werewolves(w: World)
    requires
        w.all_dead(),
    ensures
        Faction::Werewolves.spec_wincon(w),
        !Faction::Village.spec_wincon(w),
{
}

} // verus!
