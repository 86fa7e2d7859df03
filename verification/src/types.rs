//! Role and faction value types, with their stable text encoding.

use vstd::prelude::*;
use vstd::string::StrSliceExecFns;

verus! {

/// The ASCII lowercase of a character: uppercase ASCII letters are lowered,
/// everything else is untouched.
pub open spec fn ascii_lower(c: char) -> char {
    if 'A' <= c && c <= 'Z' {
        ((c as u8) + 32) as char
    } else {
        c
    }
}

/// A character sequence with every ASCII uppercase letter lowered.
pub open spec fn ascii_lower_seq(s: Seq<char>) -> Seq<char> {
    s.map_values(|c: char| ascii_lower(c))
}

/// The ASCII lowercase of one character.
fn lower_char(c: char) -> (r: char)
    ensures
        r == ascii_lower(c),
{
    if 'A' <= c && c <= 'Z' {
        ((c as u8) + 32) as char
    } else {
        c
    }
}

/// Whether two strings are equal up to ASCII case.
fn eq_ignore_ascii_case(s: &str, t: &str) -> (r: bool)
    ensures
        r == (ascii_lower_seq(s@) == ascii_lower_seq(t@)),
{
    let sn = s.unicode_len();
    let tn = t.unicode_len();
    if sn != tn {
        proof {
            assert(ascii_lower_seq(s@).len() != ascii_lower_seq(t@).len());
        }
        return false;
    }
    for i in 0..sn
        invariant
            sn == s@.len() == t@.len(),
            forall|j: int| 0 <= j < i ==> ascii_lower(s@[j]) == ascii_lower(t@[j]),
    {
        let a = lower_char(s.get_char(i));
        let b = lower_char(t.get_char(i));
        if a != b {
            proof {
                assert(ascii_lower_seq(s@)[i as int] != ascii_lower_seq(t@)[i as int]);
            }
            return false;
        }
    }
    proof {
        assert(ascii_lower_seq(s@) =~= ascii_lower_seq(t@));
    }
    true
}

/// The faction (also called party) of a player determines their goal. It is
/// derived from the role and cached per world, never independently mutated.
#[derive(Debug, Clone, Copy, PartialEq, Eq, Structural)]
pub enum Faction {
    /// The player wants to eliminate the village.
    Werewolves,
    /// The player wants to eliminate all threats to the village.
    Village,
}

/// A Werewolf player role.
#[derive(Debug, Clone, Copy, PartialEq, Eq, Structural)]
pub enum Role {
    /// A detective, part of the village. Investigates a player each night,
    /// learning their faction.
    Detective,
    /// A healer, part of the village. Heals a player each night, protecting
    /// them for the night. May not heal the same player two nights in a row.
    Healer,
    /// A regular villager with no special abilities.
    Villager,
    /// A werewolf. Kills a player each night if no werewolf with a *lower*
    /// rank is alive.
    Werewolf(usize),
}

/// The information sent to a player as the result of a night action.
#[derive(Debug, Clone, Copy, PartialEq, Eq, Structural)]
pub enum NightActionResult {
    /// An investigation result, for example for a detective.
    Investigation(Faction),
}

/// Returned when a role token at the configuration boundary is not recognized.
#[derive(Debug, Clone, Copy, PartialEq, Eq, Structural)]
pub struct UnknownRoleError;

impl Role {
    /// The faction a role belongs to by the fixed default mapping.
    pub open spec fn spec_default_faction(self) -> Faction {
        match self {
            Role::Detective | Role::Healer | Role::Villager => Faction::Village,
            Role::Werewolf(_) => Faction::Werewolves,
        }
    }

    /// Returns the faction this role belongs to by default.
    pub fn default_faction(&self) -> (f: Faction)
        ensures
            f == self.spec_default_faction(),
    {
        match *self {
            Role::Detective | Role::Healer | Role::Villager => Faction::Village,
            Role::Werewolf(_) => Faction::Werewolves,
        }
    }

    /// The text encoding of a role. Werewolf rank is not part of the
    /// encoding: configuration supplies bare `werewolf` entries and ranks are
    /// assigned by the engine in submission order.
    pub open spec fn spec_token(self) -> Seq<char> {
        match self {
            Role::Detective => "detective"@,
            Role::Healer => "healer"@,
            Role::Villager => "villager"@,
            Role::Werewolf(_) => "werewolf"@,
        }
    }

    /// Returns the stable text encoding of this role.
    pub fn token(&self) -> (t: &'static str)
        ensures
            t@ == self.spec_token(),
    {
        match *self {
            Role::Detective => "detective",
            Role::Healer => "healer",
            Role::Villager => "villager",
            Role::Werewolf(_) => "werewolf",
        }
    }

    /// Parses a role token; matching ignores ASCII case. Werewolves are
    /// produced with rank 0; ranks are reassigned in submission order when a
    /// game starts.
    pub fn parse(s: &str) -> (r: Result<Role, UnknownRoleError>)
        ensures
            r == Ok::<Role, UnknownRoleError>(Role::Detective) <==> ascii_lower_seq(s@)
                == "detective"@,
            r == Ok::<Role, UnknownRoleError>(Role::Healer) <==> ascii_lower_seq(s@)
                == "healer"@,
            r == Ok::<Role, UnknownRoleError>(Role::Villager) <==> ascii_lower_seq(s@)
                == "villager"@,
            r == Ok::<Role, UnknownRoleError>(Role::Werewolf(0usize)) <==> ascii_lower_seq(s@)
                == "werewolf"@,
            r is Err <==> (ascii_lower_seq(s@) != "detective"@ && ascii_lower_seq(s@)
                != "healer"@ && ascii_lower_seq(s@) != "villager"@ && ascii_lower_seq(s@)
                != "werewolf"@),
    {
        proof {
            reveal_strlit("detective");
            reveal_strlit("healer");
            reveal_strlit("villager");
            reveal_strlit("werewolf");
            // The four tokens are pairwise distinct; the solver needs a nudge
            // for the equal-length pair.
            assert("detective"@.len() == 9 && "healer"@.len() == 6 && "villager"@.len() == 8
                && "werewolf"@.len() == 8);
            assert("villager"@ != "werewolf"@) by {
                assert("villager"@[0] == 'v' && "werewolf"@[0] == 'w');
            }
            // the tokens themselves hold no ASCII uppercase letters
            assert(ascii_lower_seq("detective"@) =~= "detective"@);
            assert(ascii_lower_seq("healer"@) =~= "healer"@);
            assert(ascii_lower_seq("villager"@) =~= "villager"@);
            assert(ascii_lower_seq("werewolf"@) =~= "werewolf"@);
        }
        if eq_ignore_ascii_case(s, "detective") {
            Ok(Role::Detective)
        } else if eq_ignore_ascii_case(s, "healer") {
            Ok(Role::Healer)
        } else if eq_ignore_ascii_case(s, "villager") {
            Ok(Role::Villager)
        } else if eq_ignore_ascii_case(s, "werewolf") {
            Ok(Role::Werewolf(0))
        } else {
            Err(UnknownRoleError)
        }
    }
}

impl Faction {
    /// Returns the stable text encoding of this faction.
    pub fn token(&self) -> (t: &'static str)
        ensures
            self is Village ==> t@ == "village"@,
            self is Werewolves ==> t@ == "werewolves"@,
    {
        match *self {
            Faction::Village => "village",
            Faction::Werewolves => "werewolves",
        }
    }
}

} // verus!
