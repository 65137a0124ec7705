//! Mathematical model of nondeterministic finite automata.
//!
//! States are plain integers, densely numbered from `0` up to (but not
//! including) `states`.  The transition relation is a table of rows; a row
//! sends one source state, on one symbol, to a set of target states.  The
//! meaning of an automaton is given by subset simulation: `run` carries the
//! set of occupied states across an input, and `accepts` asks whether the
//! final set meets the finished set.

use vstd::prelude::*;

verus! {

/// A symbol of the input alphabet: a concrete character, or a wildcard
/// that matches any single input character.
#[derive(Clone, Copy, Debug)]
pub enum Symbol {
    Char(char),
    Wild,
}

/// Whether an automaton symbol matches one concrete input character.
pub open spec fn sym_matches(sym: Symbol, ch: char) -> bool {
    match sym {
        Symbol::Wild => true,
        Symbol::Char(c) => c == ch,
    }
}

/// One entry of the transition table: on `symbol`, state `from` may move to
/// any state of `targets`.
#[verifier::ext_equal]
pub ghost struct SpecRow {
    pub from: int,
    pub symbol: Symbol,
    pub targets: Set<int>,
}

/// An automaton: a state count, a starting set, a finished set, and a
/// transition table.
#[verifier::ext_equal]
pub ghost struct SpecNfa {
    pub states: int,
    pub starting: Set<int>,
    pub finished: Set<int>,
    pub rows: Seq<SpecRow>,
}

/// Every element of `s` is a state below `n`.
pub open spec fn in_range(n: int, s: Set<int>) -> bool {
    forall|t: int| #[trigger] s.contains(t) ==> 0 <= t < n
}

/// A row only mentions states below `n`.
pub open spec fn row_inv(n: int, r: SpecRow) -> bool {
    &&& 0 <= r.from < n
    &&& in_range(n, r.targets)
}

/// The automaton invariant: every state mentioned anywhere lies below the
/// state count.
pub open spec fn inv(a: SpecNfa) -> bool {
    &&& a.states >= 0
    &&& in_range(a.states, a.starting)
    &&& in_range(a.states, a.finished)
    &&& forall|i: int| 0 <= i < a.rows.len() ==> row_inv(a.states, #[trigger] a.rows[i])
}

/// Two sets of states share at least one element.
pub open spec fn overlaps(x: Set<int>, y: Set<int>) -> bool {
    exists|t: int| #![trigger x.contains(t), y.contains(t)] x.contains(t) && y.contains(t)
}

/// Row `i` of `a`, applied to the occupied set `cur` and the input
/// character `ch`, can place the automaton onto state `t`.
pub open spec fn row_sends(a: SpecNfa, cur: Set<int>, ch: char, i: int, t: int) -> bool {
    &&& 0 <= i < a.rows.len()
    &&& cur.contains(a.rows[i].from)
    &&& sym_matches(a.rows[i].symbol, ch)
    &&& a.rows[i].targets.contains(t)
}

/// One simulation step: all states reachable from `cur` by consuming `ch`.
pub open spec fn step(a: SpecNfa, cur: Set<int>, ch: char) -> Set<int> {
    Set::new(|t: int| exists|i: int| #[trigger] row_sends(a, cur, ch, i, t))
}

/// A partial simulation step: all states reachable from `cur` by consuming
/// `ch`, using only the first `n` rows of the table.
pub open spec fn step_upto(a: SpecNfa, cur: Set<int>, ch: char, n: int) -> Set<int> {
    Set::new(|t: int| exists|i: int| i < n && #[trigger] row_sends(a, cur, ch, i, t))
}

/// The full simulation: the set of states occupied after consuming `input`,
/// starting from `cur`.
pub open spec fn run(a: SpecNfa, cur: Set<int>, input: Seq<char>) -> Set<int>
    decreases input.len(),
{
    if input.len() == 0 {
        cur
    } else {
        step(a, run(a, cur, input.drop_last()), input.last())
    }
}

/// The automaton accepts the input: simulation from the starting set ends
/// on at least one finished state.
pub open spec fn accepts(a: SpecNfa, input: Seq<char>) -> bool {
    overlaps(run(a, a.starting, input), a.finished)
}

/// All states of `s`, moved up by `off`.
pub open spec fn shift_set(s: Set<int>, off: int) -> Set<int> {
    Set::new(|t: int| s.contains(t - off))
}

/// A row with every mentioned state moved up by `off`.
pub open spec fn shift_row(r: SpecRow, off: int) -> SpecRow {
    SpecRow { from: r.from + off, symbol: r.symbol, targets: shift_set(r.targets, off) }
}

/// A row whose targets can reach `fin` additionally reaches all of `add`;
/// any other row is kept as it is.
pub open spec fn augment_row(r: SpecRow, fin: Set<int>, add: Set<int>) -> SpecRow {
    if overlaps(r.targets, fin) {
        SpecRow { from: r.from, symbol: r.symbol, targets: r.targets.union(add) }
    } else {
        r
    }
}

/// The automaton that accepts exactly the empty input.
pub open spec fn spec_empty() -> SpecNfa {
    SpecNfa { states: 1, starting: set![0], finished: set![0], rows: Seq::empty() }
}

/// The automaton that accepts exactly one occurrence of `sym`.
pub open spec fn spec_unit(sym: Symbol) -> SpecNfa {
    SpecNfa {
        states: 2,
        starting: set![0],
        finished: set![1],
        rows: seq![SpecRow { from: 0, symbol: sym, targets: set![1] }],
    }
}

/// The disjoint union of two automata: `b`'s states are renumbered past
/// `a`'s, and the starting sets, finished sets and tables are merged.
pub open spec fn spec_plus(a: SpecNfa, b: SpecNfa) -> SpecNfa {
    SpecNfa {
        states: a.states + b.states,
        starting: a.starting.union(shift_set(b.starting, a.states)),
        finished: a.finished.union(shift_set(b.finished, a.states)),
        rows: a.rows + b.rows.map_values(|r: SpecRow| shift_row(r, a.states)),
    }
}

/// Concatenation: `b`'s states are renumbered past `a`'s; every row of `a`
/// that can land on a finished state of `a` additionally enters `b`'s
/// starting states; `b`'s starting states join the starting set exactly
/// when `a` accepts the empty input; only `b`'s finished states remain
/// finished.
pub open spec fn spec_times(a: SpecNfa, b: SpecNfa) -> SpecNfa {
    let bstart = shift_set(b.starting, a.states);
    SpecNfa {
        states: a.states + b.states,
        starting: if overlaps(a.starting, a.finished) {
            a.starting.union(bstart)
        } else {
            a.starting
        },
        finished: shift_set(b.finished, a.states),
        rows: a.rows.map_values(|r: SpecRow| augment_row(r, a.finished, bstart))
            + b.rows.map_values(|r: SpecRow| shift_row(r, a.states)),
    }
}

/// Kleene closure: every starting state becomes finished (zero
/// repetitions), and every row that can land on a finished state
/// additionally re-enters the starting states (the next repetition).
pub open spec fn spec_star(a: SpecNfa) -> SpecNfa {
    SpecNfa {
        states: a.states,
        starting: a.starting,
        finished: a.finished.union(a.starting),
        rows: a.rows.map_values(|r: SpecRow| augment_row(r, a.finished, a.starting)),
    }
}

/// The input splits into zero or more pieces, each accepted by `a`.
pub open spec fn in_star(a: SpecNfa, w: Seq<char>) -> bool
    decreases w.len(),
{
    ||| w.len() == 0
    ||| exists|i: int|
        0 <= i < w.len() && in_star(a, #[trigger] w.take(i)) && accepts(a, w.skip(i))
}

/// The states of `b` (in `b`'s own numbering) that the concatenation of
/// `a` and `b` occupies on `b`'s side after consuming `w`: for every split
/// of `w` whose first part `a` accepts, the states `b` reaches on the
/// second part.
pub open spec fn times_tail(a: SpecNfa, b: SpecNfa, w: Seq<char>) -> Set<int> {
    Set::new(
        |t: int|
            exists|i: int|
                0 <= i <= w.len() && #[trigger] accepts(a, w.take(i)) && run(
                    b,
                    b.starting,
                    w.skip(i),
                ).contains(t),
    )
}

/// The states that the closure of `a` occupies after consuming `w`: for
/// every split of `w` whose first part lies in the iterated language, the
/// states `a` reaches on the second part.
pub open spec fn star_tail(a: SpecNfa, w: Seq<char>) -> Set<int> {
    Set::new(
        |t: int|
            exists|i: int|
                0 <= i <= w.len() && #[trigger] in_star(a, w.take(i)) && run(
                    a,
                    a.starting,
                    w.skip(i),
                ).contains(t),
    )
}

/// A nonempty input that drives the starting set back onto a starting
/// state is accepted.  Every automaton whose runs re-enter the starting
/// states only by closing an accepted round trip satisfies this; it is the
/// hypothesis under which Kleene closure recognises exactly the iterated
/// language.
pub open spec fn safe_reentry(a: SpecNfa) -> bool {
    forall|v: Seq<char>|
        v.len() > 0 && overlaps(#[trigger] run(a, a.starting, v), a.starting) ==> accepts(a, v)
}

} // verus!
