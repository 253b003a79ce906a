use crate::exact::ExpectedValue;
use crate::state::{code_is_injective, code_is_small, GameState};
use std::collections::HashMap;
use vstd::prelude::*;

verus! {

broadcast use vstd::std_specs::hash::group_hash_axioms;

/// The expected values of states, each under the key of its state.
pub struct EvTable {
    map: HashMap<u32, ExpectedValue>,
}

impl View for EvTable {
    type V = Map<GameState, real>;

    /// The states that have a value, each with the number that its value stands for.
    closed spec fn view(&self) -> Map<GameState, real> {
        Map::new(
            |s: GameState| self.map@.contains_key(s.code() as u32),
            |s: GameState| self.map@[s.code() as u32].value(),
        )
    }
}

impl EvTable {
    #[verifier::type_invariant]
    spec fn well_formed(self) -> bool {
        forall|k: u32| self.map@.contains_key(k) ==> (#[trigger] self.map@[k]).value() >= 0real
    }

    /// How many keys the table holds.
    pub closed spec fn entries(&self) -> nat {
        self.map@.len()
    }

    /// A table without values.
    pub fn new() -> (t: EvTable)
        ensures
            t@ == Map::<GameState, real>::empty(),
            t.entries() == 0,
    {
        let t = EvTable { map: HashMap::new() };
        proof {
            assert(t@ =~= Map::<GameState, real>::empty());
        }
        t
    }

    /// How many keys the table holds.
    pub fn len(&self) -> (n: usize)
        ensures
            n == self.entries(),
    {
        self.map.len()
    }

    /// Whether the state has a value.
    pub fn contains(&self, state: &GameState) -> (yes: bool)
        ensures
            yes == self@.dom().contains(*state),
    {
        proof {
            code_is_small(*state);
        }
        let key = state.key();
        self.map.contains_key(&key)
    }

    /// The value of the state, where it has one.
    pub fn get(&self, state: &GameState) -> (r: Option<&ExpectedValue>)
        ensures
            r is Some <==> self@.dom().contains(*state),
            r matches Some(v) ==> v.value() == self@[*state],
    {
        proof {
            code_is_small(*state);
        }
        let key = state.key();
        self.map.get(&key)
    }

    /// Does nothing when run. It tells the caller that no value in the table is negative.
    pub fn not_negative(&self)
        ensures
            forall|s: GameState| self@.dom().contains(s) ==> #[trigger] self@[s] >= 0real,
    {
        proof {
            use_type_invariant(self);
        }
    }

    /// Gives the state a value, in place of the one it had, where it had one.
    pub fn insert(&mut self, state: GameState, value: ExpectedValue)
        ensures
            final(self)@ == old(self)@.insert(state, value.value()),
            final(self).entries() == old(self).entries() + if old(self)@.dom().contains(state) {
                0nat
            } else {
                1nat
            },
    {
        proof {
            code_is_small(state);
        }
        let key = state.key();
        let ghost number = value.value();
        let ghost before = self.map@;
        value.not_negative();
        proof {
            use_type_invariant(&*self);
        }
        let mut taken = EvTable { map: HashMap::new() };
        core::mem::swap(self, &mut taken);
        let mut map = taken.map;
        map.insert(key, value);
        *self = EvTable { map };
        proof {
            assert forall|s: GameState| s.code() as u32 == key implies s == state by {
                code_is_small(s);
                code_is_injective(s, state);
            }
            assert(self@ =~= old(self)@.insert(state, number));
            assert(before.dom().finite());
        }
    }
}

} // verus!
