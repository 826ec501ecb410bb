use vstd::prelude::*;

verus! {

/// A state identifier.
pub type State = usize;

/// A value that the registry can mint from its counter: a single state, or
/// the (entry, exit) pair of a fragment.
pub trait StateGeneration: Sized {
    /// How many identifiers one minted value takes from the counter.
    spec fn width() -> nat;

    /// The value minted when the counter stands at `counter`.
    spec fn generated(counter: nat) -> Self;

    /// Every identifier in `self` is below `bound`.
    spec fn below(&self, bound: nat) -> bool;

    proof fn lemma_generated(counter: nat, v: Self)
        requires
            counter + Self::width() <= usize::MAX,
        ensures
            Self::generated(counter).below(counter + Self::width()),
            v.below(counter) ==> v != Self::generated(counter),
            forall|b: nat| v.below(counter) && counter <= b ==> #[trigger] v.below(b),
    ;

    fn generate(counter: &mut State) -> (r: Self)
        requires
            *old(counter) + Self::width() <= usize::MAX,
        ensures
            r == Self::generated(*old(counter) as nat),
            *final(counter) == *old(counter) + Self::width(),
    ;

    fn same(&self, other: &Self) -> (r: bool)
        ensures
            r == (*self == *other),
    ;

    fn copy_state(&self) -> (r: Self)
        ensures
            r == *self,
    ;
}

impl StateGeneration for State {
    open spec fn width() -> nat {
        1
    }

    open spec fn generated(counter: nat) -> State {
        counter as State
    }

    open spec fn below(&self, bound: nat) -> bool {
        *self < bound
    }

    proof fn lemma_generated(counter: nat, v: Self) {
    }

    fn generate(counter: &mut State) -> (r: Self) {
        let state = *counter;
        *counter = *counter + 1;
        state
    }

    fn same(&self, other: &Self) -> (r: bool) {
        *self == *other
    }

    fn copy_state(&self) -> (r: Self) {
        *self
    }
}

impl StateGeneration for (State, State) {
    open spec fn width() -> nat {
        2
    }

    open spec fn generated(counter: nat) -> (State, State) {
        (counter as State, (counter + 1) as State)
    }

    open spec fn below(&self, bound: nat) -> bool {
        self.0 < bound && self.1 < bound
    }

    proof fn lemma_generated(counter: nat, v: Self) {
    }

    fn generate(counter: &mut State) -> (r: Self) {
        let state_1 = *counter;
        let state_2 = *counter + 1;
        *counter = *counter + 2;
        (state_1, state_2)
    }

    fn same(&self, other: &Self) -> (r: bool) {
        self.0 == other.0 && self.1 == other.1
    }

    fn copy_state(&self) -> (r: Self) {
        (self.0, self.1)
    }
}

/// A key under which the registry records a state: a position in the
/// syntax tree, or a canonical set of states.
pub trait StateKey: View + Sized {
    fn same_key(&self, other: &Self) -> (r: bool)
        ensures
            r == (self@ == other@),
    ;

    fn copy_key(&self) -> (r: Self)
        ensures
            r@ == self@,
    ;
}

impl StateKey for usize {
    fn same_key(&self, other: &Self) -> (r: bool) {
        *self == *other
    }

    fn copy_key(&self) -> (r: Self) {
        *self
    }
}

/// A set of states as its membership marks: entry `s` holds when state `s`
/// belongs to the set. Two sets over the same states are equal exactly when
/// their marks are, so the marks are a canonical form.
impl StateKey for Vec<bool> {
    fn same_key(&self, other: &Self) -> (r: bool) {
        if self.len() != other.len() {
            return false;
        }
        let mut i: usize = 0;
        while i < self.len()
            invariant
                self@.len() == other@.len(),
                i <= self@.len(),
                forall|j: int| 0 <= j < i ==> self@[j] == other@[j],
            decreases self@.len() - i,
        {
            if self[i] != other[i] {
                return false;
            }
            i = i + 1;
        }
        proof {
            assert(self@ =~= other@);
        }
        true
    }

    fn copy_key(&self) -> (r: Self) {
        let mut r: Vec<bool> = Vec::new();
        let mut i: usize = 0;
        while i < self.len()
            invariant
                i <= self@.len(),
                r@ == self@.take(i as int),
            decreases self@.len() - i,
        {
            r.push(self[i]);
            i = i + 1;
            proof {
                assert(r@ =~= self@.take(i as int));
            }
        }
        proof {
            assert(self@.take(i as int) =~= self@);
        }
        r
    }
}

/// The state identity registry: a bijection between keys and states. A key
/// seen before gets its state back; a new key gets a freshly minted one.
pub struct StateGenerator<K: View, V> {
    keys: Vec<K>,
    values: Vec<V>,
    state_counter: State,
    records: Ghost<Map<K::V, V>>,
}

impl<K: View + StateKey, V: StateGeneration> StateGenerator<K, V> {
    /// The recorded pairs, from key to state.
    pub closed spec fn states(&self) -> Map<K::V, V> {
        self.records@
    }

    /// The next value of the counter that mints states.
    pub closed spec fn counter(&self) -> nat {
        self.state_counter as nat
    }

    /// Some key is recorded with `state`.
    pub open spec fn has_state(&self, state: V) -> bool {
        exists|k: K::V| #[trigger] self.states().contains_key(k) && self.states()[k] == state
    }

    /// No two keys share a state, and every state was minted before.
    pub closed spec fn wf(&self) -> bool {
        &&& self.keys@.len() == self.values@.len()
        &&& forall|i: int| 0 <= i < self.keys@.len() ==> #[trigger] self.records@.contains_key(self.keys@[i]@)
            && self.records@[self.keys@[i]@] == self.values@[i]
        &&& forall|k: K::V| #[trigger] self.records@.contains_key(k) ==> exists|i: int|
            0 <= i < self.keys@.len() && self.keys@[i]@ == k
        &&& forall|i: int, j: int|
            0 <= i < self.values@.len() && 0 <= j < self.values@.len() && i != j ==> self.values@[i]
                != self.values@[j]
        &&& forall|i: int| 0 <= i < self.values@.len() ==> (#[trigger] self.values@[i]).below(self.state_counter as nat)
    }

    /// The registry is one-to-one and has only minted states below its
    /// counter.
    pub proof fn lemma_wf(&self)
        requires
            self.wf(),
        ensures
            forall|a: K::V, b: K::V|
                self.states().contains_key(a) && self.states().contains_key(b) && a != b ==> #[trigger] self.states()[a]
                    != #[trigger] self.states()[b],
            forall|a: K::V| #[trigger] self.states().contains_key(a) ==> self.states()[a].below(self.counter()),
    {
        assert forall|a: K::V, b: K::V|
            self.states().contains_key(a) && self.states().contains_key(b) && a != b implies #[trigger] self.states()[a]
                != #[trigger] self.states()[b] by {
            let i = choose|i: int| 0 <= i < self.keys@.len() && self.keys@[i]@ == a;
            let j = choose|j: int| 0 <= j < self.keys@.len() && self.keys@[j]@ == b;
            assert(self.records@.contains_key(self.keys@[i]@));
            assert(self.records@.contains_key(self.keys@[j]@));
        }
        assert forall|a: K::V| #[trigger] self.states().contains_key(a) implies self.states()[a].below(self.counter()) by {
            let i = choose|i: int| 0 <= i < self.keys@.len() && self.keys@[i]@ == a;
            assert(self.records@.contains_key(self.keys@[i]@));
        }
    }

    pub fn new() -> (r: Self)
        ensures
            r.wf(),
            r.states() == Map::<K::V, V>::empty(),
            r.counter() == 0,
    {
        StateGenerator {
            keys: Vec::new(),
            values: Vec::new(),
            state_counter: 0,
            records: Ghost(Map::empty()),
        }
    }

    fn position_of_key(&self, key: &K) -> (r: Option<usize>)
        requires
            self.wf(),
        ensures
            match r {
                Some(i) => i < self.keys@.len() && self.keys@[i as int]@ == key@,
                None => !self.states().contains_key(key@),
            },
    {
        let mut i: usize = 0;
        while i < self.keys.len()
            invariant
                self.wf(),
                i <= self.keys@.len(),
                forall|j: int| 0 <= j < i ==> self.keys@[j]@ != key@,
            decreases self.keys@.len() - i,
        {
            if self.keys[i].same_key(key) {
                return Some(i);
            }
            i = i + 1;
        }
        None
    }

    fn position_of_state(&self, state: &V) -> (r: Option<usize>)
        requires
            self.wf(),
        ensures
            match r {
                Some(i) => i < self.values@.len() && self.values@[i as int] == *state,
                None => !self.has_state(*state),
            },
    {
        let mut i: usize = 0;
        while i < self.values.len()
            invariant
                self.wf(),
                i <= self.values@.len(),
                forall|j: int| 0 <= j < i ==> self.values@[j] != *state,
            decreases self.values@.len() - i,
        {
            if self.values[i].same(state) {
                return Some(i);
            }
            i = i + 1;
        }
        proof {
            if self.has_state(*state) {
                let k = choose|k: K::V| #[trigger] self.states().contains_key(k) && self.states()[k] == *state;
                let j = choose|j: int| 0 <= j < self.keys@.len() && self.keys@[j]@ == k;
                assert(self.records@.contains_key(self.keys@[j]@));
            }
        }
        None
    }

    /// Records `key` with `state`, which neither side may hold yet.
    fn record(&mut self, key: &K, state: V)
        requires
            old(self).wf(),
            !old(self).states().contains_key(key@),
            !old(self).has_state(state),
            state.below(old(self).counter()),
        ensures
            final(self).wf(),
            final(self).states() == old(self).states().insert(key@, state),
            final(self).counter() == old(self).counter(),
    {
        let k = key.copy_key();
        let ghost old_keys = self.keys@;
        let ghost old_values = self.values@;
        self.keys.push(k);
        self.values.push(state);
        self.records = Ghost(self.records@.insert(key@, state));
        proof {
            let n = old_keys.len() as int;
            assert forall|i: int| 0 <= i < self.keys@.len() implies #[trigger] self.records@.contains_key(self.keys@[i]@)
                && self.records@[self.keys@[i]@] == self.values@[i] by {
                if i < n {
                    assert(self.keys@[i] == old_keys[i]);
                    assert(old(self).records@.contains_key(old_keys[i]@));
                    assert(old_keys[i]@ != key@);
                }
            }
            assert forall|kk: K::V| #[trigger] self.records@.contains_key(kk) implies exists|i: int|
                0 <= i < self.keys@.len() && self.keys@[i]@ == kk by {
                if kk == key@ {
                    assert(self.keys@[n]@ == kk);
                } else {
                    assert(old(self).records@.contains_key(kk));
                    let i = choose|i: int| 0 <= i < old_keys.len() && old_keys[i]@ == kk;
                    assert(self.keys@[i] == old_keys[i]);
                }
            }
            assert forall|i: int, j: int|
                0 <= i < self.values@.len() && 0 <= j < self.values@.len() && i != j implies self.values@[i]
                    != self.values@[j] by {
                if i == n {
                    assert(old(self).records@.contains_key(old_keys[j]@));
                } else if j == n {
                    assert(old(self).records@.contains_key(old_keys[i]@));
                } else {
                    assert(self.values@[i] == old_values[i]);
                    assert(self.values@[j] == old_values[j]);
                }
            }
            assert forall|i: int| 0 <= i < self.values@.len() implies (#[trigger] self.values@[i]).below(
                self.state_counter as nat,
            ) by {
                if i < n {
                    assert(self.values@[i] == old_values[i]);
                }
            }
        }
    }

    /// The state of `key`: the one recorded before, or else a newly minted
    /// one that is recorded with it.
    pub fn generate_for(&mut self, key: &K) -> (r: V)
        requires
            old(self).wf(),
            old(self).counter() + V::width() <= usize::MAX,
        ensures
            final(self).wf(),
            old(self).states().contains_key(key@) ==> r == old(self).states()[key@] && final(self).states()
                == old(self).states() && final(self).counter() == old(self).counter(),
            !old(self).states().contains_key(key@) ==> r == V::generated(old(self).counter())
                && final(self).states() == old(self).states().insert(key@, r) && final(self).counter()
                == old(self).counter() + V::width(),
    {
        match self.position_of_key(key) {
            Some(i) => {
                proof {
                    assert(self.records@.contains_key(self.keys@[i as int]@));
                }
                self.values[i].copy_state()
            },
            None => {
                let ghost c = self.counter();
                let state = self.generate_return();
                proof {
                    assert forall|i: int| 0 <= i < self.values@.len() implies (#[trigger] self.values@[i]).below(
                        self.state_counter as nat,
                    ) by {
                        V::lemma_generated(c, self.values@[i]);
                    }
                    V::lemma_generated(c, state);
                    if self.has_state(state) {
                        let k = choose|k: K::V| #[trigger] self.states().contains_key(k) && self.states()[k] == state;
                        let j = choose|j: int| 0 <= j < self.keys@.len() && self.keys@[j]@ == k;
                        assert(self.records@.contains_key(self.keys@[j]@));
                        V::lemma_generated(c, self.values@[j]);
                    }
                }
                let result = state.copy_state();
                self.record(key, state);
                result
            },
        }
    }

    /// Records `key` with the chosen `state` and returns true, or leaves the
    /// registry as it is and returns false when the key or the state is
    /// recorded already.
    pub fn insert_with(&mut self, key: &K, state: &V) -> (r: bool)
        requires
            old(self).wf(),
            state.below(old(self).counter()),
        ensures
            final(self).wf(),
            r == (!old(self).states().contains_key(key@) && !old(self).has_state(*state)),
            r ==> final(self).states() == old(self).states().insert(key@, *state),
            !r ==> final(self).states() == old(self).states(),
            final(self).counter() == old(self).counter(),
    {
        if let Some(i) = self.position_of_key(key) {
            proof {
                assert(self.records@.contains_key(self.keys@[i as int]@));
            }
            return false;
        }
        if let Some(i) = self.position_of_state(state) {
            proof {
                assert(self.records@.contains_key(self.keys@[i as int]@));
            }
            return false;
        }
        self.record(key, state.copy_state());
        true
    }

    /// The state recorded with `key`, if any.
    pub fn get_states(&self, key: &K) -> (r: Option<V>)
        requires
            self.wf(),
        ensures
            r == if self.states().contains_key(key@) {
                Some(self.states()[key@])
            } else {
                None
            },
    {
        match self.position_of_key(key) {
            Some(i) => {
                proof {
                    assert(self.records@.contains_key(self.keys@[i as int]@));
                }
                Some(self.values[i].copy_state())
            },
            None => None,
        }
    }

    /// The key recorded with `state`, if any.
    pub fn get_value(&self, state: &V) -> (r: Option<K>)
        requires
            self.wf(),
        ensures
            match r {
                Some(k) => self.states().contains_key(k@) && self.states()[k@] == *state,
                None => !self.has_state(*state),
            },
    {
        match self.position_of_state(state) {
            Some(i) => {
                proof {
                    assert(self.records@.contains_key(self.keys@[i as int]@));
                }
                Some(self.keys[i].copy_key())
            },
            None => None,
        }
    }

    fn generate_return(&mut self) -> (r: V)
        requires
            old(self).counter() + V::width() <= usize::MAX,
        ensures
            r == V::generated(old(self).counter()),
            final(self).counter() == old(self).counter() + V::width(),
            final(self).keys == old(self).keys,
            final(self).values == old(self).values,
            final(self).records == old(self).records,
    {
        V::generate(&mut self.state_counter)
    }
}

} // verus!
