//! The multiverse: the set of worlds still considered possible, and all
//! cross-world algorithms (construction, survivor queries, constraint
//! filtering, role collapse, probability aggregation, end-condition
//! detection).

use vstd::prelude::*;
use vstd::seq_lib::lemma_seq_contains_after_push;

use crate::rng::random_index;
use crate::types::Faction;
use crate::types::Role;
use crate::world::copy_vec;
use crate::world::Universe;
use crate::world::World;

verus! {

broadcast use lemma_seq_contains_after_push;

/// The number of ways to place `k` distinguishable tokens into `n` distinct
/// slots: `n * (n - 1) * ... * (n - k + 1)`.
pub open spec fn falling_factorial(n: nat, k: nat) -> nat
    decreases k,
{
    if k == 0 {
        1
    } else if n == 0 {
        0
    } else {
        n * falling_factorial((n - 1) as nat, (k - 1) as nat)
    }
}

/// Counts the occurrences of a role in a role assignment.
pub open spec fn role_count(s: Seq<Role>, r: Role) -> nat
    decreases s.len(),
{
    if s.len() == 0 {
        0
    } else {
        role_count(s.drop_last(), r) + if s.last() == r {
            1nat
        } else {
            0nat
        }
    }
}

/// A role assignment reachable after placing the first `t` requested roles:
/// it has one slot per player, `n - t` of them still Villager, and each
/// non-Villager role occurs exactly as often as among the first `t` requests.
pub open spec fn perm_ok(s: Seq<Role>, requested: Seq<Role>, n: nat, t: int) -> bool {
    &&& s.len() == n
    &&& role_count(s, Role::Villager) == n - t
    &&& forall|c: Role|
        c != Role::Villager ==> role_count(s, c) == role_count(requested.take(t), c)
}

/// Counting a role in a constant sequence.
proof fn lemma_role_count_constant(n: nat, x: Role, c: Role)
    ensures
        role_count(Seq::new(n, |i: int| x), c) == if c == x {
            n
        } else {
            0nat
        },
    decreases n,
{
    if n > 0 {
        assert(Seq::new(n, |i: int| x).drop_last() =~= Seq::new((n - 1) as nat, |i: int| x));
        lemma_role_count_constant((n - 1) as nat, x, c);
    }
}

/// How updating one slot changes a role count.
proof fn lemma_role_count_update(s: Seq<Role>, i: int, r: Role, c: Role)
    requires
        0 <= i < s.len(),
    ensures
        role_count(s.update(i, r), c) == role_count(s, c) + (if r == c {
            1int
        } else {
            0int
        }) - (if s[i] == c {
            1int
        } else {
            0int
        }),
    decreases s.len(),
{
    if i == s.len() - 1 {
        assert(s.update(i, r).drop_last() =~= s.drop_last());
        assert(s.update(i, r).last() == r);
    } else {
        assert(s.update(i, r).drop_last() =~= s.drop_last().update(i, r));
        assert(s.update(i, r).last() == s.last());
        lemma_role_count_update(s.drop_last(), i, r, c);
    }
}

/// Extending the falling factorial by one factor.
proof fn lemma_falling_step(n: nat, k: nat)
    requires
        k < n,
    ensures
        falling_factorial(n, k + 1) == falling_factorial(n, k) * (n - k),
    decreases k,
{
    if k == 0 {
        reveal_with_fuel(falling_factorial, 2);
        assert(falling_factorial(n, k + 1) == n * falling_factorial((n - 1) as nat, 0));
        assert(n * 1nat == n) by (nonlinear_arith);
        assert(1nat * n == n) by (nonlinear_arith);
    } else {
        lemma_falling_step((n - 1) as nat, (k - 1) as nat);
        let f = falling_factorial((n - 1) as nat, (k - 1) as nat);
        assert(falling_factorial(n, k + 1) == n * falling_factorial((n - 1) as nat, k));
        assert(falling_factorial(n, k) == n * f);
        assert(falling_factorial((n - 1) as nat, k) == f * (n - k));
        assert(n * (f * (n - k)) == (n * f) * (n - k)) by (nonlinear_arith);
    }
}

/// The falling factorial is positive while `k <= n`.
proof fn lemma_falling_pos(n: nat, k: nat)
    requires
        k <= n,
    ensures
        falling_factorial(n, k) >= 1,
    decreases k,
{
    if k > 0 {
        lemma_falling_pos((n - 1) as nat, (k - 1) as nat);
        let f = falling_factorial((n - 1) as nat, (k - 1) as nat);
        assert(n >= 1 && f >= 1 ==> n * f >= 1) by (nonlinear_arith);
    }
}

/// A role that is counted zero times does not occur.
proof fn lemma_role_count_zero(s: Seq<Role>, c: Role)
    requires
        role_count(s, c) == 0,
    ensures
        forall|i: int| 0 <= i < s.len() ==> s[i] != c,
    decreases s.len(),
{
    if s.len() > 0 {
        lemma_role_count_zero(s.drop_last(), c);
        assert forall|i: int| 0 <= i < s.len() implies s[i] != c by {
            if i < s.len() - 1 {
                assert(s.drop_last()[i] != c);
            }
        }
    }
}

/// No prefix of a duplicate-free role list holds its next role.
proof fn lemma_distinct_prefix(s: Seq<Role>, c: Role, m: int)
    requires
        0 <= m <= s.len(),
        forall|i: int| 0 <= i < m ==> s[i] != c,
    ensures
        role_count(s.take(m), c) == 0,
    decreases m,
{
    if m > 0 {
        lemma_distinct_prefix(s, c, m - 1);
        assert(s.take(m).drop_last() =~= s.take(m - 1));
        assert(s.take(m).last() == s[m - 1]);
    }
}

/// A role assignment produced while processing the current request: one of
/// the assignments already present, with the current role placed into one of
/// its Villager slots, where the producing (assignment, slot) pair precedes
/// the current position.
spec fn is_child_of_processed(
    c: Seq<Role>,
    prev: Seq<Vec<Role>>,
    role: Role,
    p_cur: int,
    i_cur: int,
) -> bool {
    exists|pp: int, slot: int|
        #![trigger prev[pp]@[slot]]
        0 <= pp < prev.len() && 0 <= slot < prev[pp]@.len() && prev[pp]@[slot] == Role::Villager
            && c == prev[pp]@.update(slot, role) && (pp < p_cur || (pp == p_cur && slot < i_cur))
}

/// A filter that keeps every element of a sequence returns it unchanged.
proof fn lemma_filter_all_kept<A>(s: Seq<A>, pred: spec_fn(A) -> bool)
    requires
        forall|i: int| 0 <= i < s.len() ==> pred(#[trigger] s[i]),
    ensures
        s.filter(pred) == s,
    decreases s.len(),
{
    reveal(Seq::filter);
    if s.len() > 0 {
        lemma_filter_all_kept(s.drop_last(), pred);
        assert(s.filter(pred) =~= s);
    } else {
        assert(s.filter(pred) =~= s);
    }
}

/// A filter that loses no length keeps every element.
proof fn lemma_filter_same_len<A>(s: Seq<A>, pred: spec_fn(A) -> bool)
    requires
        s.filter(pred).len() == s.len(),
    ensures
        s.filter(pred) == s,
    decreases s.len(),
{
    reveal(Seq::filter);
    if s.len() > 0 {
        let dl = s.drop_last();
        dl.lemma_filter_len(pred);
        if pred(s.last()) {
            lemma_filter_same_len(dl, pred);
            assert(s.filter(pred) =~= s);
        } else {
            assert(false);
        }
    } else {
        assert(s.filter(pred) =~= s);
    }
}

/// One step of filtering a prefix of a sequence.
proof fn lemma_filter_take_step<A>(s: Seq<A>, pred: spec_fn(A) -> bool, j: int)
    requires
        0 <= j < s.len(),
    ensures
        s.take(j + 1).filter(pred) == if pred(s[j]) {
            s.take(j).filter(pred).push(s[j])
        } else {
            s.take(j).filter(pred)
        },
{
    reveal(Seq::filter);
    assert(s.take(j + 1).drop_last() =~= s.take(j));
    assert(s.take(j + 1).last() == s[j]);
}

/// The player can heal the target in this world: they are its Healer and
/// both are alive there.
pub open spec fn spec_can_heal(w: World, src: int, tgt: int) -> bool {
    &&& w.roles[src] == Role::Healer
    &&& w.alive[src]
    &&& w.alive[tgt]
}

/// One world after a heal action: the target is protected this night
/// wherever the actor can heal them; any other world is unchanged.
pub open spec fn heal_world(w: World, src: int, tgt: usize) -> World {
    if spec_can_heal(w, src, tgt as int) {
        w.with_heal(tgt)
    } else {
        w
    }
}

/// Whether a role is a werewolf of rank no lower than the given one.
pub open spec fn rank_at_least(r: Role, rank: nat) -> bool {
    match r {
        Role::Werewolf(r2) => r2 >= rank,
        _ => true,
    }
}

/// The player leads the pack's kill in this world: they are a werewolf and
/// no werewolf of strictly lower rank is alive there.
pub open spec fn spec_is_dominant_werewolf(w: World, src: int) -> bool {
    match w.roles[src] {
        Role::Werewolf(rank) => forall|i: int|
            0 <= i < w.num_players() && w.alive[i] ==> rank_at_least(
                #[trigger] w.roles[i],
                rank as nat,
            ),
        _ => false,
    }
}

/// The player's kill order takes effect in this world: they are its dominant
/// werewolf and both they and the target are alive there.
pub open spec fn spec_can_kill(w: World, src: int, tgt: int) -> bool {
    &&& spec_is_dominant_werewolf(w, src)
    &&& w.alive[src]
    &&& w.alive[tgt]
}

/// One world after a werewolf kill order: the target is marked for death
/// (unless protected by a heal) wherever the order takes effect.
pub open spec fn werewolf_kill_world(w: World, src: int, tgt: usize) -> World {
    if spec_can_kill(w, src, tgt as int) {
        w.with_night_kill(tgt)
    } else {
        w
    }
}

/// One world at dawn: everyone on the kill list dies.
pub open spec fn dawn_world(w: World) -> World {
    World {
        alive: Seq::new(w.alive.len(), |i: int| w.alive[i] && !w.kills.contains(i as usize)),
        ..w
    }
}

/// One world with pending heals and kills cleared for a fresh night.
pub open spec fn fresh_night_world(w: World) -> World {
    World { heals: Seq::empty(), kills: Seq::empty(), ..w }
}

/// A world survives an investigation that revealed `f` as the target's
/// faction unless the investigator is its live Detective and the world
/// disagrees about the target.
pub open spec fn consistent_with_investigation(w: World, src: int, tgt: int, f: Faction) -> bool {
    !(w.roles[src] == Role::Detective && w.alive[src] && w.factions[tgt] != f)
}

/// A role assignment agrees with the sampled one on every player marked
/// dead-in-all-worlds.
pub open spec fn agrees_on_dead(roles: Seq<Role>, sample: Seq<Role>, dead: Seq<bool>) -> bool {
    forall|i: int| 0 <= i < dead.len() && dead[i] ==> roles[i] == sample[i]
}

/// Mutable access to one universe of a vector.
fn universe_at_mut(v: &mut Vec<Universe>, i: usize) -> (u: &mut Universe)
    requires
        i < old(v)@.len(),
    ensures
        *u == old(v)@[i as int],
        final(v)@ == old(v)@.update(i as int, *final(u)),
{
    &mut v[i]
}

/// Whether the player can heal the target in this universe.
fn can_heal_exec(u: &Universe, src: usize, tgt: usize) -> (r: bool)
    requires
        u@.wf(),
        src < u@.num_players(),
        tgt < u@.num_players(),
    ensures
        r == spec_can_heal(u@, src as int, tgt as int),
{
    u.roles[src] == Role::Healer && u.alive[src] && u.alive[tgt]
}

/// Whether the player is the dominant living werewolf of this universe.
fn is_dominant_werewolf_exec(u: &Universe, src: usize) -> (r: bool)
    requires
        u@.wf(),
        src < u@.num_players(),
    ensures
        r == spec_is_dominant_werewolf(u@, src as int),
{
    let rank = match u.roles[src] {
        Role::Werewolf(rank) => rank,
        _ => {
            return false;
        },
    };
    let n = u.alive.len();
    for i in 0..n
        invariant
            u@.wf(),
            src < n == u@.num_players(),
            u@.roles[src as int] == Role::Werewolf(rank),
            forall|t: int|
                0 <= t < i && u@.alive[t] ==> rank_at_least(#[trigger] u@.roles[t], rank as nat),
    {
        if u.alive[i] {
            match u.roles[i] {
                Role::Werewolf(r2) => {
                    if r2 < rank {
                        return false;
                    }
                },
                _ => {},
            }
        }
    }
    true
}

/// Clears the pending heals and kills of one universe.
fn reset_universe(u: &mut Universe)
    ensures
        final(u)@ == fresh_night_world(old(u)@),
        old(u)@.wf() ==> final(u)@.wf(),
{
    u.heals = Vec::new();
    u.kills = Vec::new();
    proof {
        assert(u@ =~= fresh_night_world(old(u)@));
    }
}

/// Applies the pending kills of one universe: everyone on its kill list dies.
fn dawn_universe(u: &mut Universe)
    requires
        old(u)@.wf(),
    ensures
        final(u)@ == dawn_world(old(u)@),
        final(u)@.wf(),
        final(u)@.descends(old(u)@),
{
    let klen = u.kills.len();
    let alen = u.alive.len();
    for t in 0..klen
        invariant
            old(u)@.wf(),
            klen == old(u)@.kills.len(),
            alen == old(u)@.alive.len(),
            u@.roles == old(u)@.roles,
            u@.factions == old(u)@.factions,
            u@.heals == old(u)@.heals,
            u@.kills == old(u)@.kills,
            u@.alive.len() == old(u)@.alive.len(),
            forall|i: int|
                0 <= i < old(u)@.alive.len() ==> u@.alive[i] == (old(u)@.alive[i] && !old(
                    u,
                )@.kills.take(t as int).contains(i as usize)),
    {
        let ghost alive0 = u@.alive;
        let idx = u.kills[t];
        u.alive.set(idx, false);
        proof {
            let ks = old(u)@.kills;
            assert(ks.take(t + 1) =~= ks.take(t as int).push(ks[t as int]));
            assert forall|i: int|
                0 <= i < old(u)@.alive.len() implies u@.alive[i] == (old(u)@.alive[i]
                && !ks.take(t + 1).contains(i as usize)) by {
                assert(u@.alive == alive0.update(idx as int, false));
                assert(idx == ks[t as int]);
                assert(alive0[i] == (old(u)@.alive[i] && !ks.take(t as int).contains(
                    i as usize,
                )));
                if i == idx as int {
                    assert(ks.take(t as int).push(ks[t as int]).contains(idx));
                    assert(u@.alive[i] == (old(u)@.alive[i] && !ks.take(t + 1).contains(
                        i as usize,
                    )));
                } else {
                    assert(ks.take(t as int).push(ks[t as int]).contains(i as usize) == (ks[
                        t as int
                    ] == i as usize || ks.take(t as int).contains(i as usize)));
                    assert(u@.alive[i] == (old(u)@.alive[i] && !ks.take(t + 1).contains(
                        i as usize,
                    )));
                }
            }
        }
    }
    proof {
        assert(old(u)@.kills.take(klen as int) =~= old(u)@.kills);
        assert(u@ =~= dawn_world(old(u)@));
    }
}

/// A collection of universes, with the cross-world game algorithms. Its view
/// is the sequence of worlds it considers possible.
#[derive(Debug, PartialEq, Eq)]
pub struct Multiverse {
    /// The universes still considered possible, in no particular order.
    pub universes: Vec<Universe>,
}

impl Multiverse {
    /// The number of players all worlds of this multiverse describe.
    pub open spec fn spec_num_players(self) -> nat {
        self.universes@[0]@.num_players()
    }

    /// Well-formedness: a multiverse is never empty (emptying it is a
    /// paradox, not a normal game state), and every world is well-formed and
    /// describes the same player count.
    pub open spec fn wf(self) -> bool {
        &&& self.universes@.len() > 0
        &&& forall|j: int| 0 <= j < self.universes@.len() ==> (#[trigger] self.universes@[j])@.wf()
        &&& forall|j: int|
            0 <= j < self.universes@.len() ==> (#[trigger] self.universes@[j])@.num_players()
                == self.spec_num_players()
    }

    /// Whether the player is alive in at least one world.
    pub open spec fn alive_in_some(self, i: int) -> bool {
        exists|j: int| 0 <= j < self.universes@.len() && (#[trigger] self.universes@[j])@.alive[i]
    }

    /// Whether the player is dead in every world.
    pub open spec fn dead_in_all(self, i: int) -> bool {
        !self.alive_in_some(i)
    }

    /// Whether every world assigns the player the same faction.
    pub open spec fn faction_fixed(self, i: int) -> bool {
        forall|j: int|
            0 <= j < self.universes@.len() ==> (#[trigger] self.universes@[j])@.factions[i]
                == self.universes@[0]@.factions[i]
    }

    /// Whether every world assigns the player the same role.
    pub open spec fn role_fixed(self, i: int) -> bool {
        forall|j: int|
            0 <= j < self.universes@.len() ==> (#[trigger] self.universes@[j])@.roles[i] == self.universes@[0]@.roles[i]
    }

    /// Whether every player who is dead in every world has the same role in
    /// every world. Role collapse establishes this, and it can only be lost
    /// by a player newly becoming dead in all worlds.
    pub open spec fn collapsed(self) -> bool {
        forall|i: int|
            0 <= i < self.spec_num_players() && #[trigger] self.dead_in_all(i)
                ==> self.role_fixed(i)
    }

    /// Whether the given world descends from some world of this multiverse:
    /// its roles and factions appear here and no player has come back to
    /// life.
    pub open spec fn has_ancestor_of(self, w: World) -> bool {
        exists|k: int| 0 <= k < self.universes@.len() && w.descends((#[trigger] self.universes@[k])@)
    }

    /// Every world here descends from a world of `from`.
    pub open spec fn descends_from(self, from: Multiverse) -> bool {
        forall|j: int|
            0 <= j < self.universes@.len() ==> from.has_ancestor_of((#[trigger] self.universes@[j])@)
    }

    /// Constructs and returns a new multiverse with all possible role
    /// distributions: starting from one world where everyone is a Villager,
    /// each requested role in turn forks every world once per slot still held
    /// by a Villager. For `k` requested roles this yields exactly
    /// `num_players * (num_players - 1) * ... * (num_players - k + 1)`
    /// worlds, each a priori equally likely.
    ///
    /// The requested roles are the non-default ones: Villagers are the
    /// implicit remainder and must have been filtered out by the caller, as
    /// must role lists longer than the player count.
    pub fn new(roles: Vec<Role>, num_players: usize) -> (m: Multiverse)
        requires
            roles@.len() <= num_players,
            forall|t: int| 0 <= t < roles@.len() ==> roles@[t] != Role::Villager,
        ensures
            m.wf(),
            m.spec_num_players() == num_players,
            m.universes@.len() == falling_factorial(num_players as nat, roles@.len()),
            forall|j: int, i: int|
                0 <= j < m.universes@.len() && 0 <= i < num_players ==> (#[trigger] m.universes@[j]@.alive[i]),
            forall|j: int|
                0 <= j < m.universes@.len() ==> (#[trigger] m.universes@[j])@.heals.len() == 0 && m.universes@[j]@.kills.len()
                    == 0,
            forall|j: int, c: Role|
                0 <= j < m.universes@.len() && c != Role::Villager ==> #[trigger] role_count(
                    m.universes@[j]@.roles,
                    c,
                ) == role_count(roles@, c),
            forall|j: int|
                0 <= j < m.universes@.len() ==> role_count((#[trigger] m.universes@[j])@.roles, Role::Villager)
                    == num_players - roles@.len(),
            (forall|a: int, b: int| 0 <= a < b < roles@.len() ==> roles@[a] != roles@[b])
                ==> (forall|a: int, b: int|
                0 <= a < b < m.universes@.len() ==> (#[trigger] m.universes@[a])@.roles != (
                #[trigger] m.universes@[b])@.roles),
    {
        let k = roles.len();
        let n = num_players;
        let ghost distinct = forall|a: int, b: int|
            0 <= a < b < roles@.len() ==> roles@[a] != roles@[b];
        // the single all-Villager assignment
        let mut base: Vec<Role> = Vec::new();
        for i in 0..n
            invariant
                base@.len() == i,
                forall|t: int| 0 <= t < i ==> base@[t] == Role::Villager,
        {
            base.push(Role::Villager);
        }
        proof {
            assert(base@ =~= Seq::new(n as nat, |i: int| Role::Villager));
            assert forall|c: Role| true implies role_count(base@, c) == (if c == Role::Villager {
                n as nat
            } else {
                0nat
            }) by {
                lemma_role_count_constant(n as nat, Role::Villager, c);
            }
            assert(roles@.take(0) =~= Seq::<Role>::empty());
        }
        let mut perms: Vec<Vec<Role>> = Vec::new();
        perms.push(base);
        // place each requested role into every still-Villager slot of every
        // assignment produced so far
        for t in 0..k
            invariant
                k == roles@.len(),
                k <= n == num_players,
                forall|tt: int| 0 <= tt < k ==> roles@[tt] != Role::Villager,
                perms@.len() == falling_factorial(n as nat, t as nat),
                forall|p: int|
                    0 <= p < perms@.len() ==> perm_ok(
                        (#[trigger] perms@[p])@,
                        roles@,
                        n as nat,
                        t as int,
                    ),
                distinct == (forall|a: int, b: int|
                    0 <= a < b < roles@.len() ==> roles@[a] != roles@[b]),
                distinct ==> (forall|p1: int, p2: int|
                    0 <= p1 < p2 < perms@.len() ==> (#[trigger] perms@[p1])@ != (
                    #[trigger] perms@[p2])@),
        {
            let role = roles[t];
            let ghost prev = perms@;
            let mut next: Vec<Vec<Role>> = Vec::new();
            let plen = perms.len();
            proof {
                assert(0int * ((n - t) as int) == 0) by (nonlinear_arith);
            }
            for p in 0..plen
                invariant
                    k == roles@.len(),
                    t < k <= n == num_players,
                    forall|tt: int| 0 <= tt < k ==> roles@[tt] != Role::Villager,
                    role == roles@[t as int],
                    perms@ == prev,
                    plen == prev.len(),
                    forall|pp: int|
                        0 <= pp < plen ==> perm_ok(
                            (#[trigger] prev[pp])@,
                            roles@,
                            n as nat,
                            t as int,
                        ),
                    next@.len() == p * ((n - t) as int),
                    forall|q: int|
                        0 <= q < next@.len() ==> perm_ok(
                            (#[trigger] next@[q])@,
                            roles@,
                            n as nat,
                            t as int + 1,
                        ),
                    distinct == (forall|a: int, b: int|
                        0 <= a < b < roles@.len() ==> roles@[a] != roles@[b]),
                    distinct ==> (forall|p1: int, p2: int|
                        0 <= p1 < p2 < prev.len() ==> (#[trigger] prev[p1])@ != (
                        #[trigger] prev[p2])@),
                    distinct ==> (forall|q1: int, q2: int|
                        0 <= q1 < q2 < next@.len() ==> (#[trigger] next@[q1])@ != (
                        #[trigger] next@[q2])@),
                    distinct ==> (forall|q: int|
                        0 <= q < next@.len() ==> is_child_of_processed(
                            (#[trigger] next@[q])@,
                            prev,
                            role,
                            p as int,
                            0,
                        )),
            {
                let perm = &perms[p];
                let ghost start = next@.len();
                for i in 0..n
                    invariant
                        k == roles@.len(),
                        t < k <= n == num_players,
                        forall|tt: int| 0 <= tt < k ==> roles@[tt] != Role::Villager,
                        role == roles@[t as int],
                        perm_ok(perm@, roles@, n as nat, t as int),
                        next@.len() == start + role_count(
                            perm@.take(i as int),
                            Role::Villager,
                        ),
                        forall|q: int|
                            0 <= q < next@.len() ==> perm_ok(
                                (#[trigger] next@[q])@,
                                roles@,
                                n as nat,
                                t as int + 1,
                            ),
                        p < prev.len(),
                        perm@ == prev[p as int]@,
                        forall|pp: int|
                            0 <= pp < prev.len() ==> perm_ok(
                                (#[trigger] prev[pp])@,
                                roles@,
                                n as nat,
                                t as int,
                            ),
                        distinct == (forall|a: int, b: int|
                            0 <= a < b < roles@.len() ==> roles@[a] != roles@[b]),
                        distinct ==> (forall|p1: int, p2: int|
                            0 <= p1 < p2 < prev.len() ==> (#[trigger] prev[p1])@ != (
                            #[trigger] prev[p2])@),
                        distinct ==> (forall|q1: int, q2: int|
                            0 <= q1 < q2 < next@.len() ==> (#[trigger] next@[q1])@ != (
                            #[trigger] next@[q2])@),
                        distinct ==> (forall|q: int|
                            0 <= q < next@.len() ==> is_child_of_processed(
                                (#[trigger] next@[q])@,
                                prev,
                                role,
                                p as int,
                                i as int,
                            )),
                {
                    let ghost n0 = next@.len();
                    proof {
                        assert(perm@.take(i + 1).drop_last() =~= perm@.take(i as int));
                    }
                    if perm[i] == Role::Villager {
                        let mut np = copy_vec(perm);
                        np.set(i, role);
                        proof {
                            assert(np@ == perm@.update(i as int, role));
                            assert(roles@.take(t + 1).drop_last() =~= roles@.take(t as int));
                            assert forall|c: Role| true implies role_count(np@, c) == role_count(
                                perm@,
                                c,
                            ) + (if role == c {
                                1int
                            } else {
                                0int
                            }) - (if c == Role::Villager {
                                1int
                            } else {
                                0int
                            }) by {
                                lemma_role_count_update(perm@, i as int, role, c);
                            }
                            assert(perm_ok(np@, roles@, n as nat, t as int + 1));
                            if distinct {
                                // the placed role occurs in no assignment yet,
                                // so the new assignment differs from every
                                // child produced so far
                                lemma_distinct_prefix(roles@, role, t as int);
                                assert(role_count(perm@, role) == 0);
                                lemma_role_count_zero(perm@, role);
                                assert forall|q: int|
                                    0 <= q < next@.len() implies (#[trigger] next@[q])@
                                    != np@ by {
                                    if next@[q]@ == np@ {
                                        let (pp, slot) = choose|pp: int, slot: int|
                                            #![trigger prev[pp]@[slot]]
                                            0 <= pp < prev.len() && 0 <= slot < prev[pp]@.len()
                                                && prev[pp]@[slot] == Role::Villager && next@[
                                                q
                                            ]@ == prev[pp]@.update(slot, role) && (pp < p as int
                                                || (pp == p as int && slot < i as int));
                                        if slot == i as int {
                                            assert(prev[pp]@.len() == perm@.len());
                                            assert forall|x: int|
                                                0 <= x < perm@.len() implies prev[pp]@[x]
                                                == perm@[x] by {
                                                assert(prev[pp]@.update(i as int, role)[x]
                                                    == perm@.update(i as int, role)[x]);
                                            }
                                            assert(prev[pp]@ =~= perm@);
                                            assert(pp == p as int);
                                            assert(false);
                                        } else {
                                            assert(next@[q]@[slot] == role);
                                            assert(np@[slot] == perm@[slot]);
                                            assert(perm@[slot] != role);
                                            assert(false);
                                        }
                                    }
                                }
                            }
                        }
                        next.push(np);
                        proof {
                            if distinct {
                                assert(prev[p as int]@[i as int] == Role::Villager);
                                assert(next@.last()@ == prev[p as int]@.update(i as int, role));
                            }
                        }
                    }
                    proof {
                        if distinct {
                            assert forall|q: int|
                                0 <= q < next@.len() implies is_child_of_processed(
                                (#[trigger] next@[q])@,
                                prev,
                                role,
                                p as int,
                                i as int + 1,
                            ) by {
                                if q < n0 {
                                    let (pp, slot) = choose|pp: int, slot: int|
                                        #![trigger prev[pp]@[slot]]
                                        0 <= pp < prev.len() && 0 <= slot < prev[pp]@.len()
                                            && prev[pp]@[slot] == Role::Villager && next@[q]@
                                            == prev[pp]@.update(slot, role) && (pp < p as int || (
                                        pp == p as int && slot < i as int));
                                    assert(0 <= pp < prev.len() && 0 <= slot < prev[pp]@.len()
                                        && prev[pp]@[slot] == Role::Villager && next@[q]@
                                        == prev[pp]@.update(slot, role) && (pp < p as int || (pp
                                        == p as int && slot < i as int + 1)));
                                } else {
                                    assert(prev[p as int]@[i as int] == Role::Villager);
                                    assert(next@[q]@ == prev[p as int]@.update(i as int, role));
                                }
                            }
                        }
                    }
                }
                proof {
                    assert(perm@.take(n as int) =~= perm@);
                    assert((p + 1) * ((n - t) as int) == p * ((n - t) as int) + ((n - t) as int))
                        by (nonlinear_arith);
                    if distinct {
                        assert forall|q: int|
                            0 <= q < next@.len() implies is_child_of_processed(
                            (#[trigger] next@[q])@,
                            prev,
                            role,
                            p as int + 1,
                            0,
                        ) by {
                            let (pp, slot) = choose|pp: int, slot: int|
                                #![trigger prev[pp]@[slot]]
                                0 <= pp < prev.len() && 0 <= slot < prev[pp]@.len() && prev[pp]@[
                                    slot
                                ] == Role::Villager && next@[q]@ == prev[pp]@.update(slot, role)
                                    && (pp < p as int || (pp == p as int && slot < n as int));
                            assert(pp < p as int + 1);
                        }
                    }
                }
            }
            perms = next;
            proof {
                lemma_falling_step(n as nat, t as nat);
            }
        }
        // wrap each surviving assignment into a world where everyone is alive
        let mut universes: Vec<Universe> = Vec::new();
        let plen = perms.len();
        for p in 0..plen
            invariant
                plen == perms@.len(),
                k == roles@.len(),
                k <= n == num_players,
                forall|pp: int|
                    0 <= pp < plen ==> perm_ok(
                        (#[trigger] perms@[pp])@,
                        roles@,
                        n as nat,
                        k as int,
                    ),
                universes@.len() == p,
                forall|j: int| 0 <= j < p ==> (#[trigger] universes@[j])@.wf(),
                forall|j: int| 0 <= j < p ==> (#[trigger] universes@[j])@.num_players() == n,
                forall|j: int, i: int|
                    0 <= j < p && 0 <= i < n ==> (#[trigger] universes@[j]@.alive[i]),
                forall|j: int|
                    0 <= j < p ==> (#[trigger] universes@[j])@.heals.len() == 0
                        && universes@[j]@.kills.len() == 0,
                forall|j: int|
                    0 <= j < p ==> (#[trigger] universes@[j])@.roles == perms@[j]@,
                distinct == (forall|a: int, b: int|
                    0 <= a < b < roles@.len() ==> roles@[a] != roles@[b]),
                distinct ==> (forall|p1: int, p2: int|
                    0 <= p1 < p2 < perms@.len() ==> (#[trigger] perms@[p1])@ != (
                    #[trigger] perms@[p2])@),
        {
            let perm = copy_vec(&perms[p]);
            let u = Universe::from_roles(perm);
            universes.push(u);
        }
        proof {
            lemma_falling_pos(n as nat, k as nat);
            assert(roles@.take(k as int) =~= roles@);
        }
        Multiverse { universes }
    }

    /// The total number of players for which this multiverse was created.
    pub fn num_players(&self) -> (n: usize)
        requires
            self.wf(),
        ensures
            n == self.spec_num_players(),
    {
        self.universes[0].alive.len()
    }

    /// Whether the given player is alive in at least one universe.
    pub fn alive_in_some_universe(&self, player_idx: usize) -> (r: bool)
        requires
            self.wf(),
            player_idx < self.spec_num_players(),
        ensures
            r == self.alive_in_some(player_idx as int),
    {
        let len = self.universes.len();
        for j in 0..len
            invariant
                self.wf(),
                player_idx < self.spec_num_players(),
                len == self.universes@.len(),
                forall|t: int| 0 <= t < j ==> !(#[trigger] self.universes@[t])@.alive[player_idx as int],
        {
            let u = &self.universes[j];
            if u.alive[player_idx] {
                return true;
            }
        }
        false
    }

    /// Returns the set of players which are still alive in at least one
    /// possible universe, in increasing index order.
    pub fn alive(&self) -> (r: Vec<usize>)
        requires
            self.wf(),
        ensures
            forall|t: int|
                0 <= t < r@.len() ==> #[trigger] r@[t] < self.spec_num_players()
                    && self.alive_in_some(r@[t] as int),
            forall|i: int|
                0 <= i < self.spec_num_players() && self.alive_in_some(i) ==> r@.contains(
                    i as usize,
                ),
            forall|a: int, b: int| 0 <= a < b < r@.len() ==> r@[a] < r@[b],
    {
        let n = self.num_players();
        let mut result: Vec<usize> = Vec::new();
        for i in 0..n
            invariant
                self.wf(),
                n == self.spec_num_players(),
                forall|t: int|
                    0 <= t < result@.len() ==> #[trigger] result@[t] < n && self.alive_in_some(
                        result@[t] as int,
                    ),
                forall|k: int| 0 <= k < i && self.alive_in_some(k) ==> result@.contains(k as usize),
                forall|t: int| 0 <= t < result@.len() ==> #[trigger] result@[t] < i,
                forall|a: int, b: int| 0 <= a < b < result@.len() ==> result@[a] < result@[b],
        {
            if self.alive_in_some_universe(i) {
                result.push(i);
            }
        }
        result
    }

    /// Returns the role of the given player, if that role is identical
    /// across every remaining universe, else `None` ("ambiguous").
    pub fn role(&self, player_idx: usize) -> (r: Option<Role>)
        requires
            self.wf(),
            player_idx < self.spec_num_players(),
        ensures
            r is Some <==> self.role_fixed(player_idx as int),
            r is Some ==> r->0 == self.universes@[0]@.roles[player_idx as int],
    {
        let role = self.universes[0].roles[player_idx];
        let len = self.universes.len();
        for j in 1..len
            invariant
                self.wf(),
                player_idx < self.spec_num_players(),
                len == self.universes@.len(),
                role == self.universes@[0]@.roles[player_idx as int],
                forall|t: int| 0 <= t < j ==> (#[trigger] self.universes@[t])@.roles[player_idx as int] == role,
        {
            if !(self.universes[j].roles[player_idx] == role) {
                return None;
            }
        }
        Some(role)
    }

    /// Returns the faction of the given player, if that faction is identical
    /// across every remaining universe, else `None` ("ambiguous").
    pub fn faction(&self, player_idx: usize) -> (r: Option<Faction>)
        requires
            self.wf(),
            player_idx < self.spec_num_players(),
        ensures
            r is Some <==> self.faction_fixed(player_idx as int),
            r is Some ==> r->0 == self.universes@[0]@.factions[player_idx as int],
    {
        let faction = self.universes[0].factions[player_idx];
        let len = self.universes.len();
        for j in 1..len
            invariant
                self.wf(),
                player_idx < self.spec_num_players(),
                len == self.universes@.len(),
                faction == self.universes@[0]@.factions[player_idx as int],
                forall|t: int|
                    0 <= t < j ==> (#[trigger] self.universes@[t])@.factions[player_idx as int] == faction,
        {
            if !(self.universes[j].factions[player_idx] == faction) {
                return None;
            }
        }
        Some(faction)
    }

    /// Whether the game has ended in every world independently: only then
    /// does the engine declare the game over, since no surviving ambiguity
    /// could still produce a continuing game.
    pub open spec fn spec_game_over(self, night: bool) -> bool {
        forall|j: int| 0 <= j < self.universes@.len() ==> (#[trigger] self.universes@[j])@.game_over(night)
    }

    /// Checks if the game has ended in all universes.
    pub fn game_over(&self, night: bool) -> (r: bool)
        requires
            self.wf(),
        ensures
            r == self.spec_game_over(night),
    {
        let len = self.universes.len();
        for j in 0..len
            invariant
                self.wf(),
                len == self.universes@.len(),
                forall|t: int| 0 <= t < j ==> (#[trigger] self.universes@[t])@.game_over(night),
        {
            if !self.universes[j].game_over(night) {
                return false;
            }
        }
        true
    }

    /// Whether there is at least one player who may be alive and may have
    /// this role: some world assigns the role to a player who is either alive
    /// there or whose role is still ambiguous.
    ///
    /// Note that this may return true even if this role is dead in all
    /// worlds, namely if there are multiple players who may have it.
    pub open spec fn spec_role_alive(self, role: Role) -> bool {
        exists|j: int, i: int|
            0 <= j < self.universes@.len() && 0 <= i < self.spec_num_players() && (#[trigger] self.universes@[j]@.roles[
                i
            ]) == role && (self.universes@[j]@.alive[i] || !self.role_fixed(i))
    }

    /// Whether there is at least one player who may be alive and may have
    /// this role.
    pub fn role_alive(&self, role: Role) -> (r: bool)
        requires
            self.wf(),
        ensures
            r == self.spec_role_alive(role),
    {
        let len = self.universes.len();
        let n = self.num_players();
        for j in 0..len
            invariant
                self.wf(),
                len == self.universes@.len(),
                n == self.spec_num_players(),
                forall|jj: int, i: int|
                    0 <= jj < j && 0 <= i < n ==> !((#[trigger] self.universes@[jj]@.roles[i]) == role && (
                    self.universes@[jj]@.alive[i] || !self.role_fixed(i))),
        {
            for i in 0..n
                invariant
                    self.wf(),
                    j < len == self.universes@.len(),
                    n == self.spec_num_players(),
                    forall|i2: int|
                        0 <= i2 < i ==> !((#[trigger] self.universes@[j as int]@.roles[i2]) == role && (
                        self.universes@[j as int]@.alive[i2] || !self.role_fixed(i2))),
            {
                let u = &self.universes[j];
                if u.roles[i] == role {
                    if u.alive[i] {
                        return true;
                    }
                    if self.role(i).is_none() {
                        return true;
                    }
                }
            }
        }
        false
    }
}

/// The worlds surviving an investigation that revealed `f` for the target.
pub open spec fn investigation_pred(src: int, tgt: int, f: Faction) -> spec_fn(Universe) -> bool {
    |u: Universe| consistent_with_investigation(u@, src, tgt, f)
}

/// The worlds surviving a lynch vote for the target: those where the target
/// is not already dead.
pub open spec fn lynch_pred(tgt: int) -> spec_fn(Universe) -> bool {
    |u: Universe| u@.alive[tgt]
}

/// The worlds surviving one round of role collapse: those agreeing with the
/// sampled role assignment on every player dead in all worlds.
pub open spec fn collapse_pred(sample: Seq<Role>, dead: Seq<bool>) -> spec_fn(Universe) -> bool {
    |u: Universe| agrees_on_dead(u@.roles, sample, dead)
}

impl Multiverse {
    /// Clears every universe's pending heals and kills for a fresh night.
    pub fn reset_night(&mut self)
        requires
            old(self).wf(),
        ensures
            final(self).wf(),
            final(self).universes@.len() == old(self).universes@.len(),
            final(self).spec_num_players() == old(self).spec_num_players(),
            forall|j: int|
                0 <= j < old(self).universes@.len() ==> (#[trigger] final(self).universes@[j])@
                    == fresh_night_world(old(self).universes@[j]@),
            final(self).descends_from(*old(self)),
    {
        let len = self.universes.len();
        for j in 0..len
            invariant
                old(self).wf(),
                len == self.universes@.len() == old(self).universes@.len(),
                forall|t: int|
                    0 <= t < j ==> (#[trigger] self.universes@[t])@ == fresh_night_world(
                        old(self).universes@[t]@,
                    ),
                forall|t: int| j <= t < len ==> self.universes@[t] == old(self).universes@[t],
        {
            let u = universe_at_mut(&mut self.universes, j);
            reset_universe(u);
        }
        proof {
            assert forall|j: int| 0 <= j < self.universes@.len() implies old(self).has_ancestor_of(
                (#[trigger] self.universes@[j])@,
            ) by {
                assert(self.universes@[j]@.descends(old(self).universes@[j]@));
            }
        }
    }

    /// Applies one heal action: in every world where the actor is its live
    /// Healer and the target is alive, the target is protected this night.
    pub fn apply_heal(&mut self, src: usize, tgt: usize)
        requires
            old(self).wf(),
            src < old(self).spec_num_players(),
            tgt < old(self).spec_num_players(),
        ensures
            final(self).wf(),
            final(self).universes@.len() == old(self).universes@.len(),
            final(self).spec_num_players() == old(self).spec_num_players(),
            forall|j: int|
                0 <= j < old(self).universes@.len() ==> (#[trigger] final(self).universes@[j])@
                    == heal_world(old(self).universes@[j]@, src as int, tgt),
            final(self).descends_from(*old(self)),
    {
        let len = self.universes.len();
        for j in 0..len
            invariant
                old(self).wf(),
                src < old(self).spec_num_players(),
                tgt < old(self).spec_num_players(),
                len == self.universes@.len() == old(self).universes@.len(),
                forall|t: int|
                    0 <= t < j ==> (#[trigger] self.universes@[t])@ == heal_world(
                        old(self).universes@[t]@,
                        src as int,
                        tgt,
                    ),
                forall|t: int| j <= t < len ==> self.universes@[t] == old(self).universes@[t],
        {
            let u = universe_at_mut(&mut self.universes, j);
            if can_heal_exec(u, src, tgt) {
                u.heal(tgt);
            }
        }
        proof {
            assert forall|j: int| 0 <= j < self.universes@.len() implies old(self).has_ancestor_of(
                (#[trigger] self.universes@[j])@,
            ) by {
                assert(self.universes@[j]@.descends(old(self).universes@[j]@));
            }
        }
    }

    /// Applies one werewolf kill order: in every world where the actor is
    /// the dominant living werewolf and the target is alive, the target is
    /// marked for death at dawn unless protected by a heal there.
    pub fn apply_werewolf_kill(&mut self, src: usize, tgt: usize)
        requires
            old(self).wf(),
            src < old(self).spec_num_players(),
            tgt < old(self).spec_num_players(),
        ensures
            final(self).wf(),
            final(self).universes@.len() == old(self).universes@.len(),
            final(self).spec_num_players() == old(self).spec_num_players(),
            forall|j: int|
                0 <= j < old(self).universes@.len() ==> (#[trigger] final(self).universes@[j])@
                    == werewolf_kill_world(old(self).universes@[j]@, src as int, tgt),
            final(self).descends_from(*old(self)),
    {
        let len = self.universes.len();
        for j in 0..len
            invariant
                old(self).wf(),
                src < old(self).spec_num_players(),
                tgt < old(self).spec_num_players(),
                len == self.universes@.len() == old(self).universes@.len(),
                forall|t: int|
                    0 <= t < j ==> (#[trigger] self.universes@[t])@ == werewolf_kill_world(
                        old(self).universes@[t]@,
                        src as int,
                        tgt,
                    ),
                forall|t: int| j <= t < len ==> self.universes@[t] == old(self).universes@[t],
        {
            let u = universe_at_mut(&mut self.universes, j);
            let can = is_dominant_werewolf_exec(u, src) && u.alive[src] && u.alive[tgt];
            if can {
                u.kill(tgt, true);
            }
        }
        proof {
            assert forall|j: int| 0 <= j < self.universes@.len() implies old(self).has_ancestor_of(
                (#[trigger] self.universes@[j])@,
            ) by {
                assert(self.universes@[j]@.descends(old(self).universes@[j]@));
            }
        }
    }

    /// Dawn resolution: in every world, every player on its kill list dies.
    pub fn apply_dawn(&mut self)
        requires
            old(self).wf(),
        ensures
            final(self).wf(),
            final(self).universes@.len() == old(self).universes@.len(),
            final(self).spec_num_players() == old(self).spec_num_players(),
            forall|j: int|
                0 <= j < old(self).universes@.len() ==> (#[trigger] final(self).universes@[j])@
                    == dawn_world(old(self).universes@[j]@),
            final(self).descends_from(*old(self)),
    {
        let len = self.universes.len();
        for j in 0..len
            invariant
                old(self).wf(),
                len == self.universes@.len() == old(self).universes@.len(),
                forall|t: int|
                    0 <= t < j ==> (#[trigger] self.universes@[t])@ == dawn_world(
                        old(self).universes@[t]@,
                    ),
                forall|t: int| j <= t < len ==> self.universes@[t] == old(self).universes@[t],
        {
            let u = universe_at_mut(&mut self.universes, j);
            dawn_universe(u);
        }
        proof {
            assert forall|j: int| 0 <= j < self.universes@.len() implies old(self).has_ancestor_of(
                (#[trigger] self.universes@[j])@,
            ) by {
                assert(self.universes@[j]@.descends(old(self).universes@[j]@));
            }
        }
    }

    /// Permanently discards every world in which the investigator is a live
    /// Detective and the target's faction disagrees with the revealed one.
    /// This is the central exact-inference step: a single sampled fact is
    /// treated as ground truth and every world inconsistent with having
    /// produced it is eliminated.
    pub fn filter_investigation(&mut self, src: usize, tgt: usize, revealed: Faction)
        requires
            old(self).wf(),
            src < old(self).spec_num_players(),
            tgt < old(self).spec_num_players(),
        ensures
            final(self).universes@ == old(self).universes@.filter(
                investigation_pred(src as int, tgt as int, revealed),
            ),
            final(self).universes@.len() <= old(self).universes@.len(),
            forall|q: int|
                0 <= q < final(self).universes@.len() ==> old(self).universes@.contains(
                    #[trigger] final(self).universes@[q],
                ),
            final(self).universes@.len() > 0 ==> final(self).wf()
                && final(self).spec_num_players() == old(self).spec_num_players(),
            final(self).descends_from(*old(self)),
    {
        let ghost pred = investigation_pred(src as int, tgt as int, revealed);
        let mut tmp: Vec<Universe> = Vec::new();
        core::mem::swap(&mut tmp, &mut self.universes);
        let ghost pre = tmp@;
        let mut kept: Vec<Universe> = Vec::new();
        let total = tmp.len();
        for j in 0..total
            invariant
                total == pre.len(),
                old(self).universes@ == pre,
                old(self).wf(),
                src < old(self).spec_num_players(),
                tgt < old(self).spec_num_players(),
                pred == investigation_pred(src as int, tgt as int, revealed),
                tmp@ == pre.skip(j as int),
                kept@ == pre.take(j as int).filter(pred),
                forall|q: int| 0 <= q < kept@.len() ==> pre.contains(#[trigger] kept@[q]),
        {
            proof {
                assert(pre.skip(j as int)[0] == pre[j as int]);
                lemma_filter_take_step(pre, pred, j as int);
            }
            let u = tmp.remove(0);
            proof {
                assert(pre.skip(j as int).remove(0) =~= pre.skip(j + 1));
            }
            let keep = !(u.roles[src] == Role::Detective && u.alive[src] && !(u.factions[tgt]
                == revealed));
            proof {
                assert(keep == pred(u));
            }
            if keep {
                kept.push(u);
                proof {
                    assert(pre.contains(pre[j as int]));
                }
            }
        }
        proof {
            assert(pre.take(total as int) =~= pre);
        }
        self.universes = kept;
        proof {
            self.lemma_elements_from(*old(self));
        }
    }

    /// From pairwise containment, derives well-formedness, the player count
    /// and descent for a multiverse whose universes all occur in `from`.
    proof fn lemma_elements_from(self, from: Multiverse)
        requires
            from.wf(),
            forall|q: int|
                0 <= q < self.universes@.len() ==> from.universes@.contains(
                    #[trigger] self.universes@[q],
                ),
        ensures
            self.universes@.len() > 0 ==> self.wf() && self.spec_num_players()
                == from.spec_num_players(),
            self.descends_from(from),
    {
        assert forall|q: int| 0 <= q < self.universes@.len() implies (
        #[trigger] self.universes@[q])@.wf() && self.universes@[q]@.num_players()
            == from.spec_num_players() by {
            let k = choose|k: int|
                0 <= k < from.universes@.len() && from.universes@[k] == self.universes@[q];
            assert(from.universes@[k]@.wf());
        }
        assert forall|j: int| 0 <= j < self.universes@.len() implies from.has_ancestor_of(
            (#[trigger] self.universes@[j])@,
        ) by {
            let k = choose|k: int|
                0 <= k < from.universes@.len() && from.universes@[k] == self.universes@[j];
            assert(self.universes@[j]@.descends(from.universes@[k]@));
        }
    }

    /// Performs one investigation: picks one world uniformly at random among
    /// those where the investigator is a live Detective, reveals that
    /// world's faction for the target, and discards every disagreeing world
    /// in which the investigator is a live Detective. If no world has the
    /// investigator as a live Detective, nothing happens.
    pub fn investigate(&mut self, src: usize, tgt: usize) -> (r: Option<Faction>)
        requires
            old(self).wf(),
            src < old(self).spec_num_players(),
            tgt < old(self).spec_num_players(),
        ensures
            final(self).wf(),
            final(self).spec_num_players() == old(self).spec_num_players(),
            final(self).descends_from(*old(self)),
            r is None ==> *final(self) == *old(self) && (forall|j: int|
                0 <= j < old(self).universes@.len() ==> !((#[trigger] old(
                    self,
                ).universes@[j])@.roles[src as int] == Role::Detective && old(
                    self,
                ).universes@[j]@.alive[src as int])),
            r is Some ==> (exists|j: int|
                0 <= j < old(self).universes@.len() && (#[trigger] old(
                    self,
                ).universes@[j])@.roles[src as int] == Role::Detective && old(
                    self,
                ).universes@[j]@.alive[src as int] && old(self).universes@[j]@.factions[tgt as int]
                    == r->0) && final(self).universes@ == old(self).universes@.filter(
                investigation_pred(src as int, tgt as int, r->0),
            ),
    {
        let mut candidates: Vec<usize> = Vec::new();
        let len = self.universes.len();
        for j in 0..len
            invariant
                self.wf(),
                *self == *old(self),
                src < self.spec_num_players(),
                len == self.universes@.len(),
                forall|q: int|
                    0 <= q < candidates@.len() ==> (#[trigger] candidates@[q]) < len
                        && self.universes@[candidates@[q] as int]@.roles[src as int]
                        == Role::Detective && self.universes@[candidates@[q] as int]@.alive[
                        src as int],
                forall|t: int|
                    0 <= t < j && (#[trigger] self.universes@[t])@.roles[src as int]
                        == Role::Detective && self.universes@[t]@.alive[src as int]
                        ==> candidates@.len() > 0,
        {
            let u = &self.universes[j];
            if u.roles[src] == Role::Detective && u.alive[src] {
                candidates.push(j);
            }
        }
        if candidates.len() == 0 {
            return None;
        }
        let pick = candidates[random_index(candidates.len())];
        let revealed = self.universes[pick].factions[tgt];
        let ghost pre = self.universes@;
        self.filter_investigation(src, tgt, revealed);
        proof {
            let ghost pred = investigation_pred(src as int, tgt as int, revealed);
            assert(pred(pre[pick as int]));
            pre.lemma_filter_contains(pred, pick as int);
            assert(self.universes@.len() > 0);
        }
        Some(revealed)
    }

    /// Resolves a lynch vote: discards every world where the target is
    /// already dead, then kills the target in all surviving worlds
    /// (immediate, no heal protection applies during the day).
    pub fn apply_lynch(&mut self, tgt: usize)
        requires
            old(self).wf(),
            tgt < old(self).spec_num_players(),
            old(self).alive_in_some(tgt as int),
        ensures
            final(self).wf(),
            final(self).spec_num_players() == old(self).spec_num_players(),
            final(self).descends_from(*old(self)),
            lynch_outcome(*final(self), *old(self), tgt as int),
    {
        let ghost pred = lynch_pred(tgt as int);
        let mut tmp: Vec<Universe> = Vec::new();
        core::mem::swap(&mut tmp, &mut self.universes);
        let ghost pre = tmp@;
        let mut kept: Vec<Universe> = Vec::new();
        let total = tmp.len();
        for j in 0..total
            invariant
                total == pre.len(),
                old(self).universes@ == pre,
                old(self).wf(),
                tgt < old(self).spec_num_players(),
                pred == lynch_pred(tgt as int),
                tmp@ == pre.skip(j as int),
                kept@.len() == pre.take(j as int).filter(pred).len(),
                forall|q: int|
                    0 <= q < kept@.len() ==> (#[trigger] kept@[q])@ == (pre.take(
                        j as int,
                    ).filter(pred)[q])@.with_day_kill(tgt),
                forall|q: int|
                    0 <= q < kept@.len() ==> (#[trigger] kept@[q])@.wf()
                        && kept@[q]@.num_players() == old(self).spec_num_players()
                        && (exists|k: int|
                        0 <= k < pre.len() && kept@[q]@.descends((#[trigger] pre[k])@)),
        {
            proof {
                assert(pre.skip(j as int)[0] == pre[j as int]);
                lemma_filter_take_step(pre, pred, j as int);
            }
            let mut u = tmp.remove(0);
            proof {
                assert(pre.skip(j as int).remove(0) =~= pre.skip(j + 1));
            }
            if u.alive[tgt] {
                u.kill(tgt, false);
                kept.push(u);
                proof {
                    assert(kept@.last()@.descends(pre[j as int]@));
                }
            }
        }
        proof {
            assert(pre.take(total as int) =~= pre);
        }
        self.universes = kept;
        proof {
            let kept_worlds = pre.filter(pred);
            let w = choose|j: int| 0 <= j < pre.len() && (#[trigger] pre[j])@.alive[tgt as int];
            assert(pred(pre[w]));
            pre.lemma_filter_contains(pred, w);
            assert(self.universes@.len() > 0);
        }
    }
}

/// Whether a universe's roles agree with the sampled roles on every player
/// marked dead.
fn agrees_exec(u: &Universe, sample: &Vec<Role>, dead: &Vec<bool>) -> (r: bool)
    requires
        dead@.len() <= u@.roles.len(),
        dead@.len() <= sample@.len(),
    ensures
        r == agrees_on_dead(u@.roles, sample@, dead@),
{
    let n = dead.len();
    for i in 0..n
        invariant
            n == dead@.len(),
            n <= u@.roles.len(),
            n <= sample@.len(),
            forall|t: int| 0 <= t < i && dead@[t] ==> u@.roles[t] == sample@[t],
    {
        if dead[i] && !(u.roles[i] == sample[i]) {
            return false;
        }
    }
    true
}

/// Two multiverses carrying the same universes agree on every cross-world
/// judgment.
proof fn lemma_same_universes(a: Multiverse, b: Multiverse)
    requires
        a.universes@ == b.universes@,
    ensures
        forall|i: int| #[trigger] a.alive_in_some(i) == b.alive_in_some(i),
        forall|i: int| #[trigger] a.role_fixed(i) == b.role_fixed(i),
        a.universes@.len() > 0 ==> a.spec_num_players() == b.spec_num_players(),
        a.universes@.len() > 0 ==> a.collapsed() == b.collapsed(),
{
    assert forall|i: int| #[trigger] a.alive_in_some(i) == b.alive_in_some(i) by {
        if a.alive_in_some(i) {
            let j = choose|j: int|
                0 <= j < a.universes@.len() && (#[trigger] a.universes@[j])@.alive[i];
            assert(b.universes@[j]@.alive[i]);
        }
        if b.alive_in_some(i) {
            let j = choose|j: int|
                0 <= j < b.universes@.len() && (#[trigger] b.universes@[j])@.alive[i];
            assert(a.universes@[j]@.alive[i]);
        }
    }
    assert forall|i: int| #[trigger] a.role_fixed(i) == b.role_fixed(i) by {
        if a.role_fixed(i) {
            assert forall|j: int|
                0 <= j < b.universes@.len() implies (#[trigger] b.universes@[j])@.roles[i]
                == b.universes@[0]@.roles[i] by {
                assert(a.universes@[j]@.roles[i] == a.universes@[0]@.roles[i]);
            }
        }
        if b.role_fixed(i) {
            assert forall|j: int|
                0 <= j < a.universes@.len() implies (#[trigger] a.universes@[j])@.roles[i]
                == a.universes@[0]@.roles[i] by {
                assert(b.universes@[j]@.roles[i] == b.universes@[0]@.roles[i]);
            }
        }
    }
    if a.universes@.len() > 0 {
        assert(a.collapsed() == b.collapsed()) by {
            if a.collapsed() {
                assert forall|i: int|
                    0 <= i < b.spec_num_players() && #[trigger] b.dead_in_all(i)
                    implies b.role_fixed(i) by {
                    assert(a.dead_in_all(i));
                }
            }
            if b.collapsed() {
                assert forall|i: int|
                    0 <= i < a.spec_num_players() && #[trigger] a.dead_in_all(i)
                    implies a.role_fixed(i) by {
                    assert(b.dead_in_all(i));
                }
            }
        }
    }
}

/// The only ground on which role collapse may discard a world: some player
/// is dead in every remaining world, and the discarded world assigns them a
/// role that no remaining world assigns them.
pub open spec fn excluded_by_collapse(u: Universe, m: Multiverse) -> bool {
    exists|i: int|
        #![trigger m.dead_in_all(i)]
        0 <= i < m.spec_num_players() && m.dead_in_all(i) && (forall|j: int|
            0 <= j < m.universes@.len() ==> u@.roles[i] != (#[trigger] m.universes@[j])@.roles[i])
}

/// Everything role collapse guarantees about its result, relative to the
/// multiverse it started from: well-formed, collapsed, a subset of the old
/// worlds that still descends from them, unchanged if already collapsed, and
/// with worlds removed only for contradicting a fixed dead-player role.
pub open spec fn collapse_outcome(post: Multiverse, pre: Multiverse) -> bool {
    &&& post.wf()
    &&& post.spec_num_players() == pre.spec_num_players()
    &&& post.collapsed()
    &&& post.universes@.len() <= pre.universes@.len()
    &&& forall|q: int|
        0 <= q < post.universes@.len() ==> pre.universes@.contains(#[trigger] post.universes@[q])
    &&& post.descends_from(pre)
    &&& (pre.collapsed() ==> post.universes@ == pre.universes@)
    &&& forall|q: int|
        0 <= q < pre.universes@.len() ==> post.universes@.contains(#[trigger] pre.universes@[q])
            || excluded_by_collapse(pre.universes@[q], post)
}

/// Everything a lynch vote does to the world set before role collapse: the
/// surviving worlds are exactly the old worlds where the target was alive,
/// in order, each with the target dead immediately.
pub open spec fn lynch_outcome(post: Multiverse, pre: Multiverse, tgt: int) -> bool {
    let kept = pre.universes@.filter(lynch_pred(tgt));
    &&& post.universes@.len() == kept.len()
    &&& forall|q: int|
        0 <= q < kept.len() ==> (#[trigger] post.universes@[q])@ == kept[q]@.with_day_kill(
            tgt as usize,
        )
}

/// Being dead in every world survives the removal of worlds.
proof fn lemma_dead_preserved_under_subset(m2: Multiverse, m1: Multiverse, i: int)
    requires
        forall|q: int|
            0 <= q < m2.universes@.len() ==> m1.universes@.contains(#[trigger] m2.universes@[q]),
        m1.dead_in_all(i),
    ensures
        m2.dead_in_all(i),
{
    assert forall|j: int| 0 <= j < m2.universes@.len() implies !(
    #[trigger] m2.universes@[j])@.alive[i] by {
        let k = choose|k: int|
            0 <= k < m1.universes@.len() && m1.universes@[k] == m2.universes@[j];
        assert(!m1.universes@[k]@.alive[i]);
    }
}

impl Multiverse {
    /// For each player, whether they are dead in every universe.
    fn dead_flags(&self) -> (dead: Vec<bool>)
        requires
            self.wf(),
        ensures
            dead@.len() == self.spec_num_players(),
            forall|i: int| 0 <= i < dead@.len() ==> dead@[i] == self.dead_in_all(i),
    {
        let n = self.num_players();
        let mut dead: Vec<bool> = Vec::new();
        for i in 0..n
            invariant
                self.wf(),
                n == self.spec_num_players(),
                dead@.len() == i,
                forall|t: int| 0 <= t < i ==> dead@[t] == self.dead_in_all(t),
        {
            dead.push(!self.alive_in_some_universe(i));
        }
        dead
    }

    /// Determines a single role for each player who is dead in every world
    /// and discards all worlds where that player does not have that role:
    /// samples one world uniformly at random, fixes the roles of the
    /// all-dead players as that world says, removes every disagreeing
    /// world, and repeats until the multiverse stops shrinking.
    ///
    /// The sampled world always survives its own filter, so the multiverse
    /// never empties here: a paradox cannot arise from collapse alone. When
    /// the multiverse is already collapsed this changes nothing, whatever is
    /// sampled: collapse is idempotent.
    pub fn collapse_roles(&mut self)
        requires
            old(self).wf(),
        ensures
            collapse_outcome(*final(self), *old(self)),
    {
        loop
            invariant
                self.wf(),
                old(self).wf(),
                self.spec_num_players() == old(self).spec_num_players(),
                self.universes@.len() <= old(self).universes@.len(),
                forall|q: int|
                    0 <= q < self.universes@.len() ==> old(self).universes@.contains(
                        #[trigger] self.universes@[q],
                    ),
                old(self).collapsed() ==> self.universes@ == old(self).universes@,
                forall|q: int|
                    0 <= q < old(self).universes@.len() ==> self.universes@.contains(
                        #[trigger] old(self).universes@[q],
                    ) || excluded_by_collapse(old(self).universes@[q], *self),
            ensures
                self.wf(),
                self.spec_num_players() == old(self).spec_num_players(),
                self.collapsed(),
                self.universes@.len() <= old(self).universes@.len(),
                forall|q: int|
                    0 <= q < self.universes@.len() ==> old(self).universes@.contains(
                        #[trigger] self.universes@[q],
                    ),
                old(self).collapsed() ==> self.universes@ == old(self).universes@,
                forall|q: int|
                    0 <= q < old(self).universes@.len() ==> self.universes@.contains(
                        #[trigger] old(self).universes@[q],
                    ) || excluded_by_collapse(old(self).universes@[q], *self),
            decreases self.universes@.len(),
        {
            let ghost snap = *self;
            let prev_len = self.universes.len();
            let sample_idx = random_index(prev_len);
            let dead = self.dead_flags();
            let sample_roles = copy_vec(&self.universes[sample_idx].roles);
            let ghost pred = collapse_pred(sample_roles@, dead@);
            let mut tmp: Vec<Universe> = Vec::new();
            core::mem::swap(&mut tmp, &mut self.universes);
            let ghost pre = tmp@;
            let mut kept: Vec<Universe> = Vec::new();
            for j in 0..prev_len
                invariant
                    prev_len == pre.len(),
                    snap.universes@ == pre,
                    snap.wf(),
                    dead@.len() == snap.spec_num_players(),
                    sample_roles@.len() == snap.spec_num_players(),
                    pred == collapse_pred(sample_roles@, dead@),
                    tmp@ == pre.skip(j as int),
                    kept@ == pre.take(j as int).filter(pred),
            {
                proof {
                    assert(pre.skip(j as int)[0] == pre[j as int]);
                    lemma_filter_take_step(pre, pred, j as int);
                }
                let u = tmp.remove(0);
                proof {
                    assert(pre.skip(j as int).remove(0) =~= pre.skip(j + 1));
                }
                if agrees_exec(&u, &sample_roles, &dead) {
                    kept.push(u);
                }
            }
            proof {
                assert(pre.take(prev_len as int) =~= pre);
            }
            let new_len = kept.len();
            self.universes = kept;
            proof {
                // the sampled world agrees with itself, so it survives
                assert(pred(pre[sample_idx as int]));
                pre.lemma_filter_contains(pred, sample_idx as int);
                pre.lemma_filter_len(pred);
                // every kept world was already possible
                assert forall|q: int|
                    0 <= q < self.universes@.len() implies old(self).universes@.contains(
                    #[trigger] self.universes@[q],
                ) by {
                    pre.lemma_filter_pred(pred, q);
                    lemma_filter_element_of(pre, pred, q);
                    let k = choose|k: int| 0 <= k < pre.len() && pre[k] == self.universes@[q];
                    assert(snap.universes@[k] == self.universes@[q]);
                    assert(old(self).universes@.contains(snap.universes@[k]));
                }
                // if this multiverse was already collapsed, nothing is removed
                if snap.collapsed() {
                    assert forall|j: int| 0 <= j < pre.len() implies pred(#[trigger] pre[j]) by {
                        assert forall|i: int|
                            0 <= i < dead@.len() && dead@[i] implies pre[j]@.roles[i]
                            == sample_roles@[i] by {
                            assert(snap.dead_in_all(i));
                            assert(snap.universes@[j]@.roles[i] == snap.universes@[0]@.roles[i]);
                            assert(snap.universes@[sample_idx as int]@.roles[i]
                                == snap.universes@[0]@.roles[i]);
                        }
                    }
                    lemma_filter_all_kept(pre, pred);
                    assert(self.universes@ == pre);
                }
                if old(self).collapsed() {
                    lemma_same_universes(snap, *old(self));
                }
                // worlds are removed only for contradicting a role that is
                // fixed for a player dead in every surviving world
                assert forall|q: int|
                    0 <= q < self.universes@.len() implies snap.universes@.contains(
                    #[trigger] self.universes@[q],
                ) by {
                    lemma_filter_element_of(pre, pred, q);
                }
                assert forall|q: int|
                    0 <= q < old(self).universes@.len() implies self.universes@.contains(
                    #[trigger] old(self).universes@[q],
                ) || excluded_by_collapse(old(self).universes@[q], *self) by {
                    let w = old(self).universes@[q];
                    if snap.universes@.contains(w) {
                        let k = choose|k: int| 0 <= k < pre.len() && pre[k] == w;
                        if pred(w) {
                            pre.lemma_filter_contains(pred, k);
                        } else {
                            let i = choose|i: int|
                                #![trigger dead@[i]]
                                0 <= i < dead@.len() && dead@[i] && w@.roles[i]
                                    != sample_roles@[i];
                            assert(snap.dead_in_all(i));
                            lemma_dead_preserved_under_subset(*self, snap, i);
                            assert forall|j: int|
                                0 <= j < self.universes@.len() implies w@.roles[i] != (
                            #[trigger] self.universes@[j])@.roles[i] by {
                                pre.lemma_filter_pred(pred, j);
                                assert(self.universes@[j]@.roles[i] == sample_roles@[i]);
                            }
                            assert(excluded_by_collapse(w, *self));
                        }
                    } else {
                        assert(excluded_by_collapse(w, snap));
                        let i = choose|i: int|
                            #![trigger snap.dead_in_all(i)]
                            0 <= i < snap.spec_num_players() && snap.dead_in_all(i) && (forall|
                                j: int,
                            |
                                0 <= j < snap.universes@.len() ==> w@.roles[i] != (
                                #[trigger] snap.universes@[j])@.roles[i]);
                        lemma_dead_preserved_under_subset(*self, snap, i);
                        assert forall|j: int|
                            0 <= j < self.universes@.len() implies w@.roles[i] != (
                        #[trigger] self.universes@[j])@.roles[i] by {
                            let k2 = choose|k2: int|
                                0 <= k2 < snap.universes@.len() && snap.universes@[k2]
                                    == self.universes@[j];
                            assert(w@.roles[i] != snap.universes@[k2]@.roles[i]);
                        }
                        assert(excluded_by_collapse(w, *self));
                    }
                }
            }
            if new_len == prev_len {
                proof {
                    lemma_filter_same_len(pre, pred);
                    assert(self.universes@ == pre);
                    lemma_same_universes(*self, snap);
                    // at a fixed point every world agrees with the sample on
                    // every all-dead player, so such roles are fixed
                    assert forall|i: int|
                        0 <= i < self.spec_num_players() && #[trigger] self.dead_in_all(i)
                        implies self.role_fixed(i) by {
                        assert(snap.dead_in_all(i));
                        assert(dead@[i]);
                        assert forall|j: int|
                            0 <= j < self.universes@.len() implies (
                        #[trigger] self.universes@[j])@.roles[i] == self.universes@[0]@.roles[i] by {
                            pre.lemma_filter_pred(pred, j);
                            assert(pred(pre[j]));
                            assert(pred(pre[0]));
                            assert(pre[j]@.roles[i] == sample_roles@[i]);
                            assert(pre[0]@.roles[i] == sample_roles@[i]);
                        }
                    }
                }
                break;
            }
            proof {
                if snap.collapsed() {
                    assert(self.universes@ == pre);
                    assert(false);
                }
            }
        }
    }
}

/// Counts the worlds whose faction for the player is `f`.
pub open spec fn faction_count(s: Seq<Universe>, i: int, f: Faction) -> nat
    decreases s.len(),
{
    if s.len() == 0 {
        0
    } else {
        faction_count(s.drop_last(), i, f) + if s.last()@.factions[i] == f {
            1nat
        } else {
            0nat
        }
    }
}

/// Counts the worlds where the player is dead.
pub open spec fn dead_count(s: Seq<Universe>, i: int) -> nat
    decreases s.len(),
{
    if s.len() == 0 {
        0
    } else {
        dead_count(s.drop_last(), i) + if !s.last()@.alive[i] {
            1nat
        } else {
            0nat
        }
    }
}

/// Every world puts a player in exactly one of the two factions, so the two
/// faction counts always split the world count: the village and werewolves
/// fractions of the probability table sum to one.
pub proof fn lemma_faction_counts_split(s: Seq<Universe>, i: int)
    ensures
        faction_count(s, i, Faction::Village) + faction_count(s, i, Faction::Werewolves)
            == s.len(),
    decreases s.len(),
{
    if s.len() > 0 {
        lemma_faction_counts_split(s.drop_last(), i);
    }
}

impl Multiverse {
    /// Produces the anonymized probability table shown to players at the
    /// start of the day. For each player who may still be alive it reports
    /// how many worlds put them in the village, how many among the
    /// werewolves, and how many count them dead, out of all remaining
    /// worlds; the two faction counts always sum to the world count. For a
    /// player dead in every world it reports their (by then unambiguous)
    /// faction instead.
    pub fn probability_table(&self) -> (table: Vec<Result<(usize, usize, usize), Faction>>)
        requires
            self.wf(),
            forall|i: int|
                0 <= i < self.spec_num_players() && #[trigger] self.dead_in_all(i)
                    ==> self.faction_fixed(i),
        ensures
            table@.len() == self.spec_num_players(),
            forall|i: int|
                0 <= i < table@.len() && self.alive_in_some(i) ==> ((#[trigger] table@[i]) matches
                Ok(t) && t.0 == faction_count(self.universes@, i, Faction::Village) && t.1
                    == faction_count(self.universes@, i, Faction::Werewolves) && t.2 == dead_count(
                    self.universes@,
                    i,
                ) && t.0 + t.1 == self.universes@.len()),
            forall|i: int|
                0 <= i < table@.len() && !self.alive_in_some(i) ==> ((#[trigger] table@[i]) matches
                Err(f) && f == self.universes@[0]@.factions[i]),
    {
        let n = self.num_players();
        let len = self.universes.len();
        let mut table: Vec<Result<(usize, usize, usize), Faction>> = Vec::new();
        for i in 0..n
            invariant
                self.wf(),
                forall|t: int|
                    0 <= t < n && #[trigger] self.dead_in_all(t) ==> self.faction_fixed(t),
                n == self.spec_num_players(),
                len == self.universes@.len(),
                table@.len() == i,
                forall|t: int|
                    0 <= t < i && self.alive_in_some(t) ==> ((#[trigger] table@[t]) matches Ok(c)
                        && c.0 == faction_count(self.universes@, t, Faction::Village) && c.1
                        == faction_count(self.universes@, t, Faction::Werewolves) && c.2
                        == dead_count(self.universes@, t) && c.0 + c.1 == self.universes@.len()),
                forall|t: int|
                    0 <= t < i && !self.alive_in_some(t) ==> ((#[trigger] table@[t]) matches Err(f)
                        && f == self.universes@[0]@.factions[t]),
        {
            if self.alive_in_some_universe(i) {
                let mut village: usize = 0;
                let mut werewolves: usize = 0;
                let mut dead: usize = 0;
                for j in 0..len
                    invariant
                        self.wf(),
                        i < n == self.spec_num_players(),
                        len == self.universes@.len(),
                        village == faction_count(
                            self.universes@.take(j as int),
                            i as int,
                            Faction::Village,
                        ),
                        werewolves == faction_count(
                            self.universes@.take(j as int),
                            i as int,
                            Faction::Werewolves,
                        ),
                        dead == dead_count(self.universes@.take(j as int), i as int),
                        village <= j && werewolves <= j && dead <= j,
                {
                    proof {
                        assert(self.universes@.take(j + 1).drop_last() =~= self.universes@.take(
                            j as int,
                        ));
                    }
                    let u = &self.universes[j];
                    if u.factions[i] == Faction::Village {
                        village = village + 1;
                    }
                    if u.factions[i] == Faction::Werewolves {
                        werewolves = werewolves + 1;
                    }
                    if !u.alive[i] {
                        dead = dead + 1;
                    }
                }
                proof {
                    assert(self.universes@.take(len as int) =~= self.universes@);
                    lemma_faction_counts_split(self.universes@, i as int);
                }
                table.push(Ok((village, werewolves, dead)));
            } else {
                let f = self.faction(i);
                proof {
                    assert(self.dead_in_all(i as int));
                    assert(self.faction_fixed(i as int));
                }
                table.push(Err(f.unwrap()));
            }
        }
        table
    }

    /// The universes of this multiverse, in no particular order.
    pub fn iter(&self) -> (r: &Vec<Universe>)
        ensures
            *r == self.universes,
    {
        &self.universes
    }

    /// Mutable access to the universes of this multiverse, in no particular
    /// order.
    pub fn iter_mut(&mut self) -> (r: &mut Vec<Universe>)
        ensures
            *r == old(self).universes,
            final(self).universes == *final(r),
    {
        &mut self.universes
    }

    /// Consumes the multiverse, yielding its universes in no particular
    /// order.
    pub fn into_iter(self) -> (r: Vec<Universe>)
        ensures
            r == self.universes,
    {
        self.universes
    }
}

/// After role collapse converges, every player who is dead in every world
/// has an unambiguous role: the collapsed multiverse assigns them the same
/// role everywhere, so `role` reports it rather than "ambiguous".
pub proof fn lemma_dead_players_have_fixed_roles(m: Multiverse, i: int)
    requires
        m.wf(),
        m.collapsed(),
        0 <= i < m.spec_num_players(),
        m.dead_in_all(i),
    ensures
        m.role_fixed(i),
{
}

/// Descent between multiverses is transitive, so a chain of phase
/// transitions never resurrects a player: every surviving world descends
/// from a world of the very first multiverse, with the same roles and
/// factions and with `alive` flags that only ever moved from true to false.
pub proof fn lemma_descends_from_trans(c: Multiverse, b: Multiverse, a: Multiverse)
    requires
        c.descends_from(b),
        b.descends_from(a),
    ensures
        c.descends_from(a),
{
    assert forall|j: int| 0 <= j < c.universes@.len() implies a.has_ancestor_of(
        (#[trigger] c.universes@[j])@,
    ) by {
        assert(b.has_ancestor_of(c.universes@[j]@));
        let k = choose|k: int|
            0 <= k < b.universes@.len() && c.universes@[j]@.descends(
                (#[trigger] b.universes@[k])@,
            );
        assert(a.has_ancestor_of(b.universes@[k]@));
        let l = choose|l: int|
            0 <= l < a.universes@.len() && b.universes@[k]@.descends(
                (#[trigger] a.universes@[l])@,
            );
        assert(c.universes@[j]@.descends(a.universes@[l]@));
    }
}

/// A player dead in every world never comes back: any transition whose
/// multiverse descends from the old one keeps them dead in every world. With
/// transitivity of descent, `alive` flags move from true to false only, over
/// the whole course of a game.
pub proof fn lemma_the_dead_stay_dead(m2: Multiverse, m1: Multiverse, i: int)
    requires
        m1.wf(),
        0 <= i < m1.spec_num_players(),
        m2.descends_from(m1),
        m1.dead_in_all(i),
    ensures
        m2.dead_in_all(i),
{
    assert forall|j: int| 0 <= j < m2.universes@.len() implies !(
    #[trigger] m2.universes@[j])@.alive[i] by {
        assert(m1.has_ancestor_of(m2.universes@[j]@));
        let k = choose|k: int|
            0 <= k < m1.universes@.len() && m2.universes@[j]@.descends(
                (#[trigger] m1.universes@[k])@,
            );
        assert(!m1.universes@[k]@.alive[i]);
    }
}

/// An element of a filtered sequence occurs in the original sequence.
pub(crate) proof fn lemma_filter_element_of<A>(s: Seq<A>, pred: spec_fn(A) -> bool, q: int)
    requires
        0 <= q < s.filter(pred).len(),
    ensures
        s.contains(s.filter(pred)[q]),
    decreases s.len(),
{
    reveal(Seq::filter);
    if s.len() > 0 {
        let dl = s.drop_last();
        if q < dl.filter(pred).len() {
            lemma_filter_element_of(dl, pred, q);
            let k = choose|k: int| 0 <= k < dl.len() && dl[k] == dl.filter(pred)[q];
            assert(s[k] == s.filter(pred)[q]);
        } else {
            assert(s[s.len() - 1] == s.filter(pred)[q]);
        }
    }
}

} // verus!
