//! What holds of whole runs of an automaton. Every statement here is about
//! [`Automaton`], the value that the engine's contracts describe each call by.

use crate::model::{
    distinct_keys, lemma_destinations_len, leaves, transition_table, Automaton, MaybeState,
};
use vstd::prelude::*;

verus! {

/// Running through an input that ends in `symbol` is running through the rest
/// and then stepping on `symbol`.
pub proof fn lemma_run_push(a: Automaton, input: Seq<char>, symbol: char)
    ensures
        a.run(input.push(symbol)) == a.run(input).step(symbol),
{
    assert(input.push(symbol).drop_last() =~= input);
}

/// A run changes neither the table nor the accepting states, and puts one
/// entry on the history for each symbol, under which the old history stays.
pub proof fn lemma_run_frame(a: Automaton, input: Seq<char>)
    ensures
        a.run(input).table == a.table,
        a.run(input).accepting == a.accepting,
        a.run(input).history.len() == a.history.len() + input.len(),
        a.run(input).history.take(a.history.len() as int) == a.history,
    decreases input.len(),
{
    if input.len() > 0 {
        lemma_run_frame(a, input.drop_last());
        let before = a.run(input.drop_last());
        assert(before.history.push(before.position).take(a.history.len() as int)
            =~= before.history.take(a.history.len() as int));
    } else {
        assert(a.history.take(a.history.len() as int) =~= a.history);
    }
}

/// Determinism: the positions that a run passes through, and whether each of
/// them is accepting, depend on the table, the accepting states, the position
/// at the start and the input alone. Two automata that agree on these agree
/// after every prefix of the input, whatever their histories hold.
pub proof fn lemma_run_deterministic(a: Automaton, b: Automaton, input: Seq<char>)
    requires
        a.table == b.table,
        a.accepting == b.accepting,
        a.position == b.position,
    ensures
        a.run(input).position == b.run(input).position,
        a.run(input).is_accepted() == b.run(input).is_accepted(),
        a.run(input).is_trapped() == b.run(input).is_trapped(),
        a.runnable(input) == b.runnable(input),
        forall|n: int|
            0 <= n <= input.len() ==> (#[trigger] a.run(input.take(n))).position == b.run(
                input.take(n),
            ).position,
    decreases input.len(),
{
    lemma_run_frame(a, input);
    lemma_run_frame(b, input);
    if input.len() > 0 {
        let shorter = input.drop_last();
        lemma_run_deterministic(a, b, shorter);
        lemma_run_frame(a, shorter);
        lemma_run_frame(b, shorter);
        assert forall|n: int| 0 <= n <= input.len() implies (#[trigger] a.run(
            input.take(n),
        )).position == b.run(input.take(n)).position by {
            if n < input.len() {
                assert(input.take(n) =~= shorter.take(n));
            } else {
                assert(input.take(n) =~= input);
            }
        }
    } else {
        assert forall|n: int| 0 <= n <= input.len() implies (#[trigger] a.run(
            input.take(n),
        )).position == b.run(input.take(n)).position by {
            assert(input.take(n) =~= input);
        }
    }
}

/// Determinism across a reset: whatever an automaton has read before, after a
/// reset it runs through an input exactly as it does after a reset at the
/// start, history included.
pub proof fn lemma_rerun_after_reset(a: Automaton, earlier: Seq<char>, input: Seq<char>)
    ensures
        a.run(earlier).reset().run(input) == a.reset().run(input),
{
    lemma_run_frame(a, earlier);
}

/// The table of a flat list is that of a deterministic automaton exactly if
/// no two triples of the list have the same source and symbol.
pub proof fn lemma_distinct_keys_deterministic(flat: Seq<(usize, char, usize)>, a: Automaton)
    requires
        a.table == transition_table(flat),
    ensures
        a.deterministic() <==> distinct_keys(flat),
{
    if distinct_keys(flat) {
        assert forall|k: (usize, char)| #[trigger] a.table.contains_key(k) implies a.table[k].len()
            == 1 by {
            lemma_destinations_len(flat, k.0, k.1);
        }
    }
    if a.deterministic() {
        assert forall|i: int, j: int| 0 <= i < j < flat.len() implies !leaves(
            #[trigger] flat[i],
            (#[trigger] flat[j]).0,
            flat[j].1,
        ) by {
            let k = (flat[j].0, flat[j].1);
            lemma_destinations_len(flat, k.0, k.1);
            if leaves(flat[i], k.0, k.1) {
                assert(leaves(flat[j], k.0, k.1));
                assert(a.table.contains_key(k));
            }
        }
    }
}

/// With a table in which every entry holds one destination, every step of
/// every run is defined.
pub proof fn lemma_deterministic_runnable(a: Automaton, input: Seq<char>)
    requires
        a.deterministic(),
    ensures
        a.runnable(input),
        a.run(input).deterministic(),
    decreases input.len(),
{
    lemma_run_frame(a, input);
    if input.len() > 0 {
        lemma_deterministic_runnable(a, input.drop_last());
        lemma_run_frame(a, input.drop_last());
    }
}

/// Trap absorption: from the trap every step is defined and leads to the trap
/// again, so a run that starts there ends there, accepting nothing.
pub proof fn lemma_trap_absorbs(a: Automaton, input: Seq<char>)
    requires
        a.is_trapped(),
    ensures
        a.runnable(input),
        a.run(input).is_trapped(),
        !a.run(input).is_accepted(),
    decreases input.len(),
{
    if input.len() > 0 {
        lemma_trap_absorbs(a, input.drop_last());
    }
}

/// One rollback undoes one step, whether the step moved the automaton,
/// trapped it or left it in the trap.
pub proof fn lemma_rollback_undoes_step(a: Automaton, symbol: char)
    ensures
        a.step(symbol).rollback() == a,
{
    assert(a.history.push(a.position).drop_last() =~= a.history);
}

/// Symmetry of stepping and rolling back: after a run through `input`,
/// `count` rollbacks lead to the automaton as it was when the last `count`
/// symbols had not been read yet, for every `count` up to the length of the
/// input. The history is that shorter run's history too.
pub proof fn lemma_unwind_run(a: Automaton, input: Seq<char>, count: nat)
    requires
        count <= input.len(),
    ensures
        a.run(input).unwind(count) == a.run(input.take(input.len() - count)),
    decreases count,
{
    if count == 0 {
        assert(input.take(input.len() - 0) =~= input);
    } else {
        let shorter = input.drop_last();
        lemma_rollback_undoes_step(a.run(shorter), input.last());
        lemma_unwind_run(a, shorter, (count - 1) as nat);
        assert(shorter.take(shorter.len() - (count - 1)) =~= input.take(input.len() - count));
    }
}

/// As many rollbacks as there were steps restore the automaton from before
/// the run: its position and its history.
pub proof fn lemma_unwind_whole_run(a: Automaton, input: Seq<char>)
    ensures
        a.run(input).unwind(input.len()) == a,
        a.run(input).history.len() == a.history.len() + input.len(),
{
    lemma_unwind_run(a, input, input.len());
    lemma_run_frame(a, input);
    assert(input.take(0) =~= Seq::<char>::empty());
}

/// With an empty history there is nothing to undo: any number of rollbacks
/// leaves the automaton as it is.
pub proof fn lemma_unwind_at_start(a: Automaton, count: nat)
    requires
        a.history.len() == 0,
    ensures
        a.unwind(count) == a,
    decreases count,
{
    if count > 0 {
        lemma_unwind_at_start(a, (count - 1) as nat);
    }
}

/// A reset leads to state 0 with an empty history from wherever the
/// automaton stands, keeps the table and the accepting states, and changes
/// nothing when repeated.
pub proof fn lemma_reset_idempotent(a: Automaton)
    ensures
        a.reset().position == MaybeState::State(0),
        a.reset().history == Seq::<MaybeState>::empty(),
        a.reset().table == a.table,
        a.reset().accepting == a.accepting,
        a.reset().reset() == a.reset(),
{
}

} // verus!
