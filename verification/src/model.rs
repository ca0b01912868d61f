//! The mathematical automaton: a transition table, a set of accepting states,
//! a position and the history of earlier positions.

use vstd::prelude::*;

verus! {

/// Where an automaton stands: in one of its states, or in the trap, which it
/// enters when the table has no entry for the symbol it was given and which no
/// symbol leads out of.
#[derive(Clone, Copy, Debug, PartialEq, Eq, Structural)]
pub enum MaybeState {
    State(usize),
    Trap,
}

/// Whether the triple `t` gives a destination for `state` under `input`.
pub open spec fn leaves(t: (usize, char, usize), state: usize, input: char) -> bool {
    t.0 == state && t.1 == input
}

/// The destinations that the flat list `flat` of (source, symbol, destination)
/// triples gives for `state` under `input`, in the order of the list.
pub open spec fn destinations(flat: Seq<(usize, char, usize)>, state: usize, input: char) -> Seq<
    usize,
> {
    flat.filter(|t: (usize, char, usize)| leaves(t, state, input)).map_values(
        |t: (usize, char, usize)| t.2,
    )
}

/// The table that a flat list of triples describes: each (state, symbol) pair
/// that occurs in the list maps to all of its destinations. Triples with the
/// same pair accumulate; none overwrites another.
pub open spec fn transition_table(flat: Seq<(usize, char, usize)>) -> Map<(usize, char), Seq<usize>> {
    Map::new(
        |k: (usize, char)| destinations(flat, k.0, k.1).len() > 0,
        |k: (usize, char)| destinations(flat, k.0, k.1),
    )
}

/// Whether no two triples of a flat list have the same source and symbol, so
/// that the list describes a deterministic automaton.
pub open spec fn distinct_keys(flat: Seq<(usize, char, usize)>) -> bool {
    forall|i: int, j: int|
        0 <= i < j < flat.len() ==> !leaves(#[trigger] flat[i], (#[trigger] flat[j]).0, flat[j].1)
}

/// Taking one more triple of a flat list into account adds its destination
/// at the end of the list for its own (state, symbol) pair and changes no other.
pub proof fn lemma_destinations_push(
    flat: Seq<(usize, char, usize)>,
    t: (usize, char, usize),
    state: usize,
    input: char,
)
    ensures
        destinations(flat.push(t), state, input) == if leaves(t, state, input) {
            destinations(flat, state, input).push(t.2)
        } else {
            destinations(flat, state, input)
        },
{
    reveal(Seq::filter);
    let pred = |t: (usize, char, usize)| leaves(t, state, input);
    let dest = |t: (usize, char, usize)| t.2;
    assert(flat.push(t).drop_last() =~= flat);
    if pred(t) {
        assert(flat.push(t).filter(pred) == flat.filter(pred).push(t));
        assert(flat.filter(pred).push(t).map_values(dest) =~= flat.filter(pred).map_values(
            dest,
        ).push(t.2));
    } else {
        assert(flat.push(t).filter(pred) == flat.filter(pred));
    }
}

/// A pair has a destination in a flat list exactly if some triple of the list
/// leaves from it, and more than one exactly if two triples do.
pub proof fn lemma_destinations_len(flat: Seq<(usize, char, usize)>, state: usize, input: char)
    ensures
        destinations(flat, state, input).len() > 0 <==> exists|i: int|
            0 <= i < flat.len() && leaves(#[trigger] flat[i], state, input),
        destinations(flat, state, input).len() > 1 <==> exists|i: int, j: int|
            0 <= i < j < flat.len() && leaves(#[trigger] flat[i], state, input) && leaves(
                #[trigger] flat[j],
                state,
                input,
            ),
    decreases flat.len(),
{
    let one = |i: int| 0 <= i < flat.len() && leaves(flat[i], state, input);
    let two = |i: int, j: int|
        0 <= i < j < flat.len() && leaves(flat[i], state, input) && leaves(flat[j], state, input);
    if flat.len() == 0 {
        reveal(Seq::filter);
    } else {
        let rest = flat.drop_last();
        let t = flat.last();
        let end = flat.len() - 1;
        assert(flat =~= rest.push(t));
        lemma_destinations_push(rest, t, state, input);
        lemma_destinations_len(rest, state, input);
        let before = destinations(rest, state, input).len();
        if before > 0 {
            let i = choose|i: int| 0 <= i < rest.len() && leaves(#[trigger] rest[i], state, input);
            assert(one(i)) by {
                assert(flat[i] == rest[i]);
            }
            if leaves(t, state, input) {
                assert(two(i, end));
            }
        }
        if before > 1 {
            let (i, j) = choose|i: int, j: int|
                0 <= i < j < rest.len() && leaves(#[trigger] rest[i], state, input) && leaves(
                    #[trigger] rest[j],
                    state,
                    input,
                );
            assert(two(i, j)) by {
                assert(flat[i] == rest[i] && flat[j] == rest[j]);
            }
        }
        if leaves(t, state, input) {
            assert(one(end));
        }
        if exists|i: int| 0 <= i < flat.len() && leaves(#[trigger] flat[i], state, input) {
            let i = choose|i: int| 0 <= i < flat.len() && leaves(#[trigger] flat[i], state, input);
            if i < end {
                assert(leaves(rest[i], state, input));
            }
        }
        if exists|i: int, j: int|
            0 <= i < j < flat.len() && leaves(#[trigger] flat[i], state, input) && leaves(
                #[trigger] flat[j],
                state,
                input,
            ) {
            let (i, j) = choose|i: int, j: int|
                0 <= i < j < flat.len() && leaves(#[trigger] flat[i], state, input) && leaves(
                    #[trigger] flat[j],
                    state,
                    input,
                );
            assert(leaves(rest[i], state, input));
            if j < end {
                assert(leaves(rest[j], state, input));
            }
        }
    }
}

/// The order of the table's entries: by state, and by symbol within a state.
pub open spec fn key_precedes(a: (usize, char), b: (usize, char)) -> bool {
    a.0 < b.0 || (a.0 == b.0 && (a.1 as u32) < (b.1 as u32))
}

/// An automaton as a value: what the engine is at one moment.
pub struct Automaton {
    /// The destinations of each (state, symbol) pair that has any.
    pub table: Map<(usize, char), Seq<usize>>,
    /// The states that mark success.
    pub accepting: Set<usize>,
    /// Where the automaton stands now.
    pub position: MaybeState,
    /// The positions before each step taken and not yet undone, oldest first.
    pub history: Seq<MaybeState>,
}

impl Automaton {
    /// The automaton with the given table and accepting states, standing in
    /// state 0 with nothing to undo.
    pub open spec fn start(table: Map<(usize, char), Seq<usize>>, accepting: Set<usize>) -> Automaton {
        Automaton { table, accepting, position: MaybeState::State(0), history: Seq::empty() }
    }

    /// Whether the automaton stands in an accepting state. The trap never accepts.
    pub open spec fn is_accepted(self) -> bool {
        match self.position {
            MaybeState::Trap => false,
            MaybeState::State(state) => self.accepting.contains(state),
        }
    }

    /// Whether the automaton stands in the trap.
    pub open spec fn is_trapped(self) -> bool {
        self.position is Trap
    }

    /// Whether a step on `input` is defined: the lookup that the step makes, if
    /// it makes one, does not find several destinations (or none in an entry).
    /// From the trap no lookup is made, so every step is defined.
    pub open spec fn unambiguous(self, input: char) -> bool {
        match self.position {
            MaybeState::Trap => true,
            MaybeState::State(state) => self.table.contains_key((state, input))
                ==> self.table[(state, input)].len() == 1,
        }
    }

    /// The position that a step on `input` leads to.
    pub open spec fn successor(self, input: char) -> MaybeState {
        match self.position {
            MaybeState::Trap => MaybeState::Trap,
            MaybeState::State(state) => if self.table.contains_key((state, input)) {
                MaybeState::State(self.table[(state, input)].first())
            } else {
                MaybeState::Trap
            },
        }
    }

    /// The automaton after one step on `input`: the position that it leaves
    /// goes on top of the history, also when that position is the trap.
    pub open spec fn step(self, input: char) -> Automaton {
        Automaton {
            position: self.successor(input),
            history: self.history.push(self.position),
            ..self
        }
    }

    /// The automaton after undoing the latest step, or unchanged when there is
    /// none to undo.
    pub open spec fn rollback(self) -> Automaton {
        if self.history.len() > 0 {
            Automaton { position: self.history.last(), history: self.history.drop_last(), ..self }
        } else {
            self
        }
    }

    /// The automaton made ready for a fresh input: back in state 0, with an
    /// empty history and the same table and accepting states.
    pub open spec fn reset(self) -> Automaton {
        Automaton::start(self.table, self.accepting)
    }

    /// The automaton after stepping through `input` from left to right.
    pub open spec fn run(self, input: Seq<char>) -> Automaton
        decreases input.len(),
    {
        if input.len() == 0 {
            self
        } else {
            self.run(input.drop_last()).step(input.last())
        }
    }

    /// The automaton after `count` rollbacks.
    pub open spec fn unwind(self, count: nat) -> Automaton
        decreases count,
    {
        if count == 0 {
            self
        } else {
            self.rollback().unwind((count - 1) as nat)
        }
    }

    /// Whether every step of a run through `input` is defined.
    pub open spec fn runnable(self, input: Seq<char>) -> bool
        decreases input.len(),
    {
        input.len() > 0 ==> self.runnable(input.drop_last()) && self.run(
            input.drop_last(),
        ).unambiguous(input.last())
    }

    /// Whether the table is that of a deterministic automaton: every entry
    /// holds exactly one destination.
    pub open spec fn deterministic(self) -> bool {
        forall|k: (usize, char)| #[trigger]
            self.table.contains_key(k) ==> self.table[k].len() == 1
    }
}

} // verus!
