//! The executable engine. It keeps the table in a `BTreeMap` and the accepting
//! states in a `BTreeSet`. A symbol is part of a key by its scalar value, an
//! integer, whose order the map's contracts know; the symbol itself is kept in
//! the entry, from where it is handed out again.

use crate::model::{
    destinations, key_precedes, lemma_destinations_push, transition_table, Automaton, MaybeState,
};
use std::collections::{BTreeMap, BTreeSet};
use vstd::prelude::*;
use vstd::std_specs::btree::{spec_btree_keys_iter, spec_btree_map_iter};
use vstd::std_specs::cmp::OrdSpec;
use vstd::std_specs::iter::IteratorSpec;

verus! {

/// A deterministic finite automaton over characters that reads its input one
/// symbol at a time and remembers every position it has left, so that steps
/// can be undone one by one.
#[derive(Debug)]
pub struct M {
    delta: Table,
    f: BTreeSet<usize>,
    state: MaybeState,
    previous_states: Vec<MaybeState>,
}

/// The stored table: the destinations of each (state, symbol) pair that has
/// any, under the state and the symbol's scalar value. Every entry holds the
/// symbol that its key was made from, and at least one destination.
#[derive(Debug)]
struct Table {
    entries: BTreeMap<(usize, u32), Entry>,
}

/// What the table stores for one (state, symbol) pair.
#[derive(Debug)]
struct Entry {
    symbol: char,
    destinations: Vec<usize>,
}

impl Table {
    #[verifier::type_invariant]
    spec fn stores_transitions(self) -> bool {
        stores_transitions(self.entries@)
    }
}

/// The table that a stored map stands for: the entry of (state, symbol) is
/// the one stored under the state and the symbol's scalar value.
spec fn table_of(delta: Map<(usize, u32), Entry>) -> Map<(usize, char), Seq<usize>> {
    Map::new(
        |k: (usize, char)| delta.contains_key(stored_key(k)),
        |k: (usize, char)| delta[stored_key(k)].destinations@,
    )
}

/// The key under which the entry of a (state, symbol) pair is stored.
spec fn stored_key(k: (usize, char)) -> (usize, u32) {
    (k.0, k.1 as u32)
}

/// What holds of every stored map: each entry holds the symbol whose scalar
/// value is in its key, and its list of destinations is not empty.
spec fn stores_transitions(delta: Map<(usize, u32), Entry>) -> bool {
    forall|k: (usize, u32)| #[trigger]
        delta.contains_key(k) ==> delta[k].symbol as u32 == k.1 && delta[k].destinations@.len()
            > 0
}

/// The scalar value under which a symbol is stored.
fn scalar_value(symbol: char) -> (code: u32)
    ensures
        code == symbol as u32,
{
    symbol as u32
}

/// Distinct symbols have distinct scalar values.
proof fn lemma_scalar_injective(a: char, b: char)
    ensures
        a as u32 == b as u32 ==> a == b,
{
}

/// Whether the entry handed out stands for the stored pair: the same state,
/// the stored symbol, the same destinations.
spec fn stands_for(entry: ((usize, char), &[usize]), pair: (&(usize, u32), &Entry)) -> bool {
    &&& entry.0.0 == pair.0.0
    &&& entry.0.1 == pair.1.symbol
    &&& entry.1@ == pair.1.destinations@
}

/// In a sequence that is increasing, an earlier item compares as less than
/// a later one.
proof fn lemma_increasing_pair<K: Ord>(keys: Seq<K>, i: int, j: int)
    requires
        vstd::laws_cmp::obeys_cmp::<K>(),
        vstd::std_specs::btree::increasing_seq(keys),
        0 <= i < j < keys.len(),
    ensures
        keys[i].cmp_spec(&keys[j]) is Less,
{
    vstd::std_specs::btree::axiom_increasing_seq_meaning(keys);
}

/// Keys that a set hands out in increasing order are in ascending order as
/// numbers.
proof fn lemma_increasing_keys(keys: Seq<&usize>)
    requires
        vstd::std_specs::btree::increasing_seq(keys),
    ensures
        forall|i: int, j: int| 0 <= i < j < keys.len() ==> *keys[i] < *keys[j],
{
    assert forall|i: int, j: int| 0 <= i < j < keys.len() implies *keys[i] < *keys[j] by {
        lemma_increasing_pair(keys, i, j);
    }
}

/// Stored keys that a map hands out in increasing order ascend by state, and
/// by scalar value within a state.
proof fn lemma_increasing_stored_keys(keys: Seq<(usize, u32)>)
    requires
        vstd::std_specs::btree::increasing_seq(keys),
    ensures
        forall|i: int, j: int|
            0 <= i < j < keys.len() ==> keys[i].0 < keys[j].0 || (keys[i].0 == keys[j].0
                && keys[i].1 < keys[j].1),
{
    assert forall|i: int, j: int| 0 <= i < j < keys.len() implies keys[i].0 < keys[j].0 || (
    keys[i].0 == keys[j].0 && keys[i].1 < keys[j].1) by {
        lemma_increasing_pair(keys, i, j);
    }
}

/// Appends `dest` to the destinations stored for `state` and `symbol`,
/// starting a new entry when there is none.
fn add_destination(
    delta: &mut BTreeMap<(usize, u32), Entry>,
    state: usize,
    symbol: char,
    dest: usize,
)
    ensures
        final(delta)@.dom() == old(delta)@.dom().insert(stored_key((state, symbol))),
        final(delta)@[stored_key((state, symbol))].symbol == symbol,
        final(delta)@[stored_key((state, symbol))].destinations@ == if old(delta)@.contains_key(
            stored_key((state, symbol)),
        ) {
            old(delta)@[stored_key((state, symbol))].destinations@.push(dest)
        } else {
            seq![dest]
        },
        forall|k: (usize, u32)|
            k != stored_key((state, symbol)) && old(delta)@.contains_key(k)
                ==> #[trigger] final(delta)@[k] == old(delta)@[k],
{
    let key = (state, scalar_value(symbol));
    let mut destinations: Vec<usize> = match delta.remove(&key) {
        Some(stored) => stored.destinations,
        None => Vec::new(),
    };
    destinations.push(dest);
    delta.insert(key, Entry { symbol, destinations });
}

impl View for M {
    type V = Automaton;

    closed spec fn view(&self) -> Automaton {
        Automaton {
            table: table_of(self.delta.entries@),
            accepting: self.f@,
            position: self.state,
            history: self.previous_states@,
        }
    }
}

impl M {
    /// Builds an automaton from a flat list of (source, symbol, destination)
    /// triples and a list of accepting states. Triples with the same source
    /// and symbol accumulate in one entry; nothing is rejected here. The
    /// automaton starts in state 0 with nothing to undo.
    pub fn new(flat_delta: &[(usize, char, usize)], flat_f: &[usize]) -> (m: M)
        ensures
            m@ == Automaton::start(transition_table(flat_delta@), flat_f@.to_set()),
    {
        let mut delta: BTreeMap<(usize, u32), Entry> = BTreeMap::new();
        let mut i: usize = 0;
        while i < flat_delta.len()
            invariant
                i <= flat_delta.len(),
                table_of(delta@) =~= transition_table(flat_delta@.take(i as int)),
                stores_transitions(delta@),
            decreases flat_delta.len() - i,
        {
            let (state, input, next_state) = flat_delta[i];
            let ghost before = delta@;
            let ghost seen = flat_delta@.take(i as int);
            add_destination(&mut delta, state, input, next_state);
            proof {
                let read = seen.push((state, input, next_state));
                assert(flat_delta@.take(i + 1) =~= read);
                assert forall|k: (usize, char)|
                    #[trigger] table_of(delta@).contains_key(k) == transition_table(
                        read,
                    ).contains_key(k) && (table_of(delta@).contains_key(k) ==> table_of(delta@)[k]
                        == transition_table(read)[k]) by {
                    lemma_destinations_push(seen, (state, input, next_state), k.0, k.1);
                    lemma_scalar_injective(k.1, input);
                    assert(table_of(before).contains_key(k) == transition_table(seen).contains_key(
                        k,
                    ));
                    if table_of(before).contains_key(k) {
                        assert(table_of(before)[k] == transition_table(seen)[k]);
                    } else {
                        assert(destinations(seen, k.0, k.1) =~= Seq::empty());
                    }
                    if k.0 == state && k.1 == input {
                        assert(table_of(delta@)[k] =~= destinations(seen, k.0, k.1).push(
                            next_state,
                        ));
                    }
                }
                assert(table_of(delta@) =~= transition_table(read));
            }
            i += 1;
        }
        let mut f: BTreeSet<usize> = BTreeSet::new();
        let mut j: usize = 0;
        while j < flat_f.len()
            invariant
                j <= flat_f.len(),
                f@ =~= flat_f@.take(j as int).to_set(),
            decreases flat_f.len() - j,
        {
            f.insert(flat_f[j]);
            proof {
                let seen = flat_f@.take(j as int);
                assert(flat_f@.take(j + 1) =~= seen.push(flat_f@[j as int]));
                seen.lemma_push_to_set_commute(flat_f@[j as int]);
            }
            j += 1;
        }
        proof {
            assert(flat_delta@.take(flat_delta@.len() as int) =~= flat_delta@);
            assert(flat_f@.take(flat_f@.len() as int) =~= flat_f@);
        }
        M {
            delta: Table { entries: delta },
            f,
            state: MaybeState::State(0),
            previous_states: Vec::new(),
        }
    }

    /// Takes one step on `input` and says whether the position reached is
    /// accepting. The position left goes on top of the history, also when it
    /// is the trap. From a state the step follows the table's entry for the
    /// state and `input`, or falls into the trap when there is no entry; from
    /// the trap it stays there.
    ///
    /// The entry looked up must hold a single destination: an entry with
    /// several describes a nondeterministic automaton, which this engine does
    /// not run. Code that Verus has not checked and that steps on such an
    /// entry all the same is stopped by a panic after the history has grown,
    /// rather than sent on to one destination chosen in silence.
    pub fn next(&mut self, input: char) -> (accepted: bool)
        requires
            old(self)@.unambiguous(input),
        ensures
            final(self)@ == old(self)@.step(input),
            accepted == final(self)@.is_accepted(),
            old(self)@.is_trapped() ==> final(self)@.is_trapped() && !accepted,
    {
        self.previous_states.push(self.state);
        if let MaybeState::State(state) = self.state {
            match self.delta.entries.get(&(state, scalar_value(input))) {
                Some(entry) => {
                    vstd::pervasive::runtime_assert(entry.destinations.len() == 1);
                    self.state = MaybeState::State(entry.destinations[0]);
                },
                None => {
                    self.state = MaybeState::Trap;
                },
            }
        }
        self.is_accepted()
    }

    /// Takes the step that [`M::next`] takes if that step is defined, and
    /// otherwise leaves the automaton as it is and returns `None`.
    pub fn checked_next(&mut self, input: char) -> (accepted: Option<bool>)
        ensures
            old(self)@.unambiguous(input) ==> final(self)@ == old(self)@.step(input) && accepted
                == Some(final(self)@.is_accepted()),
            !old(self)@.unambiguous(input) ==> final(self)@ == old(self)@ && accepted is None,
    {
        let defined = match self.state {
            MaybeState::Trap => true,
            MaybeState::State(state) => match self.delta.entries.get(
                &(state, scalar_value(input)),
            ) {
                Some(entry) => entry.destinations.len() == 1,
                None => true,
            },
        };
        if defined {
            Some(self.next(input))
        } else {
            None
        }
    }

    /// Undoes the latest step that has not been undone yet: the position
    /// before it is restored and leaves the history. With an empty history
    /// nothing changes.
    pub fn rollback(&mut self)
        ensures
            final(self)@ == old(self)@.rollback(),
    {
        if let Some(prev_state) = self.previous_states.pop() {
            self.state = prev_state;
        }
    }

    /// Whether the automaton stands in an accepting state. The trap is never
    /// accepting.
    pub fn is_accepted(&self) -> (accepted: bool)
        ensures
            accepted == self@.is_accepted(),
    {
        match self.state {
            MaybeState::Trap => false,
            MaybeState::State(state) => self.f.contains(&state),
        }
    }

    /// Whether the automaton stands in the trap.
    pub fn is_trapped(&self) -> (trapped: bool)
        ensures
            trapped == self@.is_trapped(),
    {
        match self.state {
            MaybeState::Trap => true,
            _ => false,
        }
    }

    /// Where the automaton stands.
    pub fn position(&self) -> (position: MaybeState)
        ensures
            position == self@.position,
    {
        self.state
    }

    /// The positions before each step taken and not yet undone, oldest first.
    pub fn history(&self) -> (history: &[MaybeState])
        ensures
            history@ == self@.history,
    {
        self.previous_states.as_slice()
    }

    /// The accepting states, each once, in ascending order.
    pub fn accepting_states(&self) -> (states: Vec<usize>)
        ensures
            states@.to_set() == self@.accepting,
            forall|i: int, j: int| 0 <= i < j < states.len() ==> states[i] < states[j],
    {
        let mut states: Vec<usize> = Vec::new();
        let ghost keys = spec_btree_keys_iter(&self.f).remaining();
        for state in it: self.f.iter()
            invariant
                it.seq() == keys,
                states.len() == it.index(),
                forall|i: int| 0 <= i < states.len() ==> states@[i] == *keys[i],
        {
            states.push(*state);
        }
        proof {
            assert(states@ =~= keys.unref());
            lemma_increasing_keys(keys);
        }
        states
    }

    /// The entries of the table, each (state, symbol) pair with its
    /// destinations, in ascending order of the state and then of the symbol.
    pub fn transitions(&self) -> (entries: Vec<((usize, char), &[usize])>)
        ensures
            forall|i: int|
                0 <= i < entries.len() ==> self@.table.contains_key(#[trigger] entries[i].0)
                    && self@.table[entries[i].0] == entries[i].1@ && entries[i].1@.len() > 0,
            forall|k: (usize, char)| #[trigger]
                self@.table.contains_key(k) ==> exists|i: int|
                    0 <= i < entries.len() && #[trigger] entries[i].0 == k,
            forall|i: int, j: int|
                0 <= i < j < entries.len() ==> key_precedes(
                    #[trigger] entries[i].0,
                    #[trigger] entries[j].0,
                ),
    {
        proof {
            use_type_invariant(&self.delta);
        }
        let mut entries: Vec<((usize, char), &[usize])> = Vec::new();
        let ghost pairs = spec_btree_map_iter(&self.delta.entries).remaining();
        for pair in it: self.delta.entries.iter()
            invariant
                it.seq() == pairs,
                entries.len() == it.index(),
                stores_transitions(self.delta.entries@),
                vstd::std_specs::btree::increasing_seq(
                    pairs.map_values(|kv: (&(usize, u32), &Entry)| *kv.0),
                ),
                forall|i: int|
                    0 <= i < entries.len() ==> stands_for(#[trigger] entries[i], pairs[i]),
        {
            entries.push(((pair.0.0, pair.1.symbol), pair.1.destinations.as_slice()));
        }
        proof {
            let stored = self.delta.entries@;
            let keys = pairs.map_values(|kv: (&(usize, u32), &Entry)| *kv.0);
            assert forall|i: int| 0 <= i < entries.len() implies stored_key(
                #[trigger] entries[i].0,
            ) == *pairs[i].0 && stored.contains_key(*pairs[i].0) && stored[*pairs[i].0]
                == *pairs[i].1 by {
                assert(stands_for(entries[i], pairs[i]));
                assert(stored.contains_key(*pairs[i].0));
            }
            assert forall|k: (usize, char)| #[trigger]
                self@.table.contains_key(k) implies exists|i: int|
                0 <= i < entries.len() && #[trigger] entries[i].0 == k by {
                let key = stored_key(k);
                assert(stored.contains_key(key));
                assert(pairs.contains((&key, &stored[key])));
                let i = choose|i: int| 0 <= i < pairs.len() && pairs[i] == (&key, &stored[key]);
                assert(stands_for(entries[i], pairs[i]));
                lemma_scalar_injective(entries[i].0.1, k.1);
                assert(entries[i].0 == k);
            }
            lemma_increasing_stored_keys(keys);
            assert forall|i: int, j: int| 0 <= i < j < entries.len() implies key_precedes(
                #[trigger] entries[i].0,
                #[trigger] entries[j].0,
            ) by {
                assert(keys[i] == stored_key(entries[i].0));
                assert(keys[j] == stored_key(entries[j].0));
            }
        }
        entries
    }

    /// Makes the automaton ready for a fresh input: it returns to state 0 and
    /// forgets its history. The table and the accepting states stay.
    pub fn reset(&mut self)
        ensures
            final(self)@ == old(self)@.reset(),
    {
        self.state = MaybeState::State(0);
        self.previous_states = Vec::new();
    }
}

} // verus!

