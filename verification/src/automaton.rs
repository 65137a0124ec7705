//! The executable automaton and its construction algebra.
//!
//! A set of states is held as a vector of booleans indexed by state number,
//! and the transition table as a vector of rows.  Renumbering a merged
//! operand's states is then nothing but concatenation of boolean vectors.
//! Every public function is proved against the mathematical model in
//! `model`: each combinator returns exactly the automaton that the
//! corresponding spec constructor describes, and `is_match` decides the
//! `accepts` relation.

use vstd::prelude::*;

use crate::model::{
    accepts, augment_row, inv, overlaps, row_inv, row_sends, run, shift_row, shift_set, spec_empty,
    spec_plus, spec_star, spec_times, spec_unit, step, step_upto, sym_matches, SpecNfa, SpecRow,
    Symbol,
};

verus! {

/// The set of states that a boolean vector stands for: the indices that
/// hold `true`.
pub open spec fn bits(s: Seq<bool>) -> Set<int> {
    Set::new(|t: int| 0 <= t < s.len() && s[t])
}

/// One stored transition: on `symbol`, state `from` may move to any state
/// whose entry in `targets` is set.
#[derive(Debug)]
pub(crate) struct Row {
    pub(crate) from: usize,
    pub(crate) symbol: Symbol,
    pub(crate) targets: Vec<bool>,
}

impl View for Row {
    type V = SpecRow;

    closed spec fn view(&self) -> SpecRow {
        SpecRow { from: self.from as int, symbol: self.symbol, targets: bits(self.targets@) }
    }
}

/// A nondeterministic finite automaton over densely numbered states.
///
/// Values are created only by the construction algebra (`empty`, `unit`,
/// `plus`, `times`, `star`) and are never mutated afterwards.
#[derive(Debug)]
pub struct NFA {
    states: usize,
    starting: Vec<bool>,
    finished: Vec<bool>,
    rows: Vec<Row>,
}

impl View for NFA {
    type V = SpecNfa;

    closed spec fn view(&self) -> SpecNfa {
        SpecNfa {
            states: self.states as int,
            starting: bits(self.starting@),
            finished: bits(self.finished@),
            rows: self.rows@.map_values(|r: Row| r@),
        }
    }
}

impl NFA {
    /// The representation is well formed: both state sets and every row's
    /// target set range over exactly `states` entries, and every row's
    /// source state is a real state.
    pub closed spec fn wf(&self) -> bool {
        &&& self.starting@.len() == self.states
        &&& self.finished@.len() == self.states
        &&& forall|i: int|
            0 <= i < self.rows@.len() ==> (#[trigger] self.rows@[i]).from < self.states
                && self.rows@[i].targets@.len() == self.states
    }

    /// A well-formed representation denotes an automaton that satisfies
    /// the model invariant: every mentioned state lies below the count.
    pub proof fn lemma_wf_inv(&self)
        requires
            self.wf(),
        ensures
            inv(self@),
    {
        assert forall|i: int| 0 <= i < self@.rows.len() implies row_inv(
            self@.states,
            #[trigger] self@.rows[i],
        ) by {
            assert(self@.rows[i] == self.rows@[i]@);
        }
    }
}

/// A vector of `n` entries, all clear.
fn falses(n: usize) -> (r: Vec<bool>)
    ensures
        r@.len() == n,
        forall|i: int| 0 <= i < n ==> !r@[i],
{
    let mut r: Vec<bool> = Vec::new();
    while r.len() < n
        invariant
            r@.len() <= n,
            forall|i: int| 0 <= i < r@.len() ==> !r@[i],
        decreases n - r@.len(),
    {
        r.push(false);
    }
    r
}

/// An independent copy of a boolean vector.
fn copy_bits(x: &Vec<bool>) -> (r: Vec<bool>)
    ensures
        r@ == x@,
{
    let mut r: Vec<bool> = Vec::new();
    let mut i: usize = 0;
    while i < x.len()
        invariant
            i <= x@.len(),
            r@ =~= x@.take(i as int),
        decreases x@.len() - i,
    {
        r.push(x[i]);
        proof {
            assert(x@.take(i + 1 as int) =~= x@.take(i as int).push(x@[i as int]));
        }
        i += 1;
    }
    proof {
        assert(x@.take(x@.len() as int) =~= x@);
    }
    r
}

/// The concatenation of two boolean vectors.
fn concat_bits(x: &Vec<bool>, y: &Vec<bool>) -> (r: Vec<bool>)
    ensures
        r@ == x@ + y@,
{
    let mut r = copy_bits(x);
    let mut j: usize = 0;
    proof {
        assert(x@ + y@.take(0) =~= x@);
    }
    while j < y.len()
        invariant
            j <= y@.len(),
            r@ =~= x@ + y@.take(j as int),
        decreases y@.len() - j,
    {
        r.push(y[j]);
        proof {
            assert(x@ + y@.take(j + 1 as int) =~= (x@ + y@.take(j as int)).push(y@[j as int]));
        }
        j += 1;
    }
    proof {
        assert(x@ + y@.take(y@.len() as int) =~= x@ + y@);
    }
    r
}

/// The entrywise disjunction of two equally long boolean vectors: the
/// union of the sets they stand for.
fn or_bits(x: &Vec<bool>, y: &Vec<bool>) -> (r: Vec<bool>)
    requires
        x@.len() == y@.len(),
    ensures
        r@.len() == x@.len(),
        forall|i: int| 0 <= i < x@.len() ==> r@[i] == (x@[i] || y@[i]),
        bits(r@) == bits(x@).union(bits(y@)),
{
    let mut r: Vec<bool> = Vec::new();
    let mut i: usize = 0;
    while i < x.len()
        invariant
            i <= x@.len(),
            x@.len() == y@.len(),
            r@.len() == i,
            forall|k: int| 0 <= k < i ==> r@[k] == (x@[k] || y@[k]),
        decreases x@.len() - i,
    {
        r.push(x[i] || y[i]);
        i += 1;
    }
    proof {
        assert(bits(r@) =~= bits(x@).union(bits(y@)));
    }
    r
}

/// Whether two equally long boolean vectors share a set entry.
fn overlap_bits(x: &Vec<bool>, y: &Vec<bool>) -> (r: bool)
    requires
        x@.len() == y@.len(),
    ensures
        r == overlaps(bits(x@), bits(y@)),
{
    let mut i: usize = 0;
    while i < x.len()
        invariant
            i <= x@.len(),
            x@.len() == y@.len(),
            forall|t: int| 0 <= t < i ==> !(x@[t] && y@[t]),
        decreases x@.len() - i,
    {
        if x[i] && y[i] {
            proof {
                assert(bits(x@).contains(i as int) && bits(y@).contains(i as int));
            }
            return true;
        }
        i += 1;
    }
    proof {
        if overlaps(bits(x@), bits(y@)) {
            let t = choose|t: int|
                #![trigger bits(x@).contains(t), bits(y@).contains(t)]
                bits(x@).contains(t) && bits(y@).contains(t);
            assert(!(x@[t] && y@[t]));
            assert(false);
        }
    }
    false
}

/// Padding a boolean vector on the right with clear entries keeps the set
/// it stands for.
proof fn lemma_bits_pad_right(x: Seq<bool>, z: Seq<bool>)
    requires
        forall|i: int| 0 <= i < z.len() ==> !z[i],
    ensures
        bits(x + z) == bits(x),
{
    assert(bits(x + z) =~= bits(x));
}

/// Padding a boolean vector on the left with `z` clear entries shifts the
/// set it stands for up by `z.len()`.
proof fn lemma_bits_pad_left(z: Seq<bool>, x: Seq<bool>)
    requires
        forall|i: int| 0 <= i < z.len() ==> !z[i],
    ensures
        bits(z + x) == shift_set(bits(x), z.len() as int),
{
    assert(bits(z + x) =~= shift_set(bits(x), z.len() as int));
}

/// Concatenating boolean vectors unions the first set with the shifted
/// second set.
proof fn lemma_bits_concat(x: Seq<bool>, y: Seq<bool>)
    ensures
        bits(x + y) == bits(x).union(shift_set(bits(y), x.len() as int)),
{
    assert(bits(x + y) =~= bits(x).union(shift_set(bits(y), x.len() as int)));
}

/// The automaton that accepts exactly the empty input: one state, both
/// starting and finished, and no transitions.
pub fn empty() -> (r: NFA)
    ensures
        r.wf(),
        r@ == spec_empty(),
        inv(r@),
{
    let mut starting: Vec<bool> = Vec::new();
    starting.push(true);
    let mut finished: Vec<bool> = Vec::new();
    finished.push(true);
    let r = NFA { states: 1, starting, finished, rows: Vec::new() };
    proof {
        assert(bits(r.starting@) =~= set![0int]);
        assert(bits(r.finished@) =~= set![0int]);
        assert(r.rows@.map_values(|row: Row| row@) =~= Seq::<SpecRow>::empty());
        assert(r@ =~~= spec_empty());
        r.lemma_wf_inv();
    }
    r
}

/// The automaton that accepts exactly one occurrence of `sym`: two states,
/// the first starting, the second finished, one transition between them.
pub fn unit(sym: Symbol) -> (r: NFA)
    ensures
        r.wf(),
        r@ == spec_unit(sym),
        inv(r@),
{
    let mut starting: Vec<bool> = Vec::new();
    starting.push(true);
    starting.push(false);
    let mut finished: Vec<bool> = Vec::new();
    finished.push(false);
    finished.push(true);
    let mut targets: Vec<bool> = Vec::new();
    targets.push(false);
    targets.push(true);
    let mut rows: Vec<Row> = Vec::new();
    rows.push(Row { from: 0, symbol: sym, targets });
    let r = NFA { states: 2, starting, finished, rows };
    proof {
        assert(bits(r.starting@) =~= set![0int]);
        assert(bits(r.finished@) =~= set![1int]);
        assert(bits(r.rows@[0].targets@) =~= set![1int]);
        assert(r.rows@.map_values(|row: Row| row@) =~~= spec_unit(sym).rows);
        assert(r@ =~~= spec_unit(sym));
        r.lemma_wf_inv();
    }
    r
}

/// The union of two patterns, as the disjoint union of their automata.
/// `b`'s states are renumbered past `a`'s; no edge is added.  The operands
/// are read only.
pub fn plus(a: &NFA, b: &NFA) -> (r: NFA)
    requires
        a.wf(),
        b.wf(),
        a@.states + b@.states <= usize::MAX,
    ensures
        r.wf(),
        r@ == spec_plus(a@, b@),
        inv(r@),
{
    let states = a.states + b.states;
    let starting = concat_bits(&a.starting, &b.starting);
    let finished = concat_bits(&a.finished, &b.finished);
    proof {
        lemma_bits_concat(a.starting@, b.starting@);
        lemma_bits_concat(a.finished@, b.finished@);
    }
    let zb = falses(b.states);
    let za = falses(a.states);
    let mut rows: Vec<Row> = Vec::new();
    let mut i: usize = 0;
    while i < a.rows.len()
        invariant
            a.wf(),
            b.wf(),
            i <= a.rows@.len(),
            states == a.states + b.states,
            zb@.len() == b.states,
            forall|t: int| 0 <= t < zb@.len() ==> !zb@[t],
            forall|k: int|
                0 <= k < rows@.len() ==> (#[trigger] rows@[k]).from < states
                    && rows@[k].targets@.len() == states,
            rows@.map_values(|row: Row| row@) =~~= a@.rows.take(i as int),
        decreases a.rows@.len() - i,
    {
        let arow = &a.rows[i];
        let targets = concat_bits(&arow.targets, &zb);
        rows.push(Row { from: arow.from, symbol: arow.symbol, targets });
        proof {
            lemma_bits_pad_right(a.rows@[i as int].targets@, zb@);
            assert(rows@.last()@ =~~= a@.rows[i as int]);
            assert(a@.rows.take(i + 1 as int) =~~= a@.rows.take(i as int).push(
                a@.rows[i as int],
            ));
            assert(rows@.map_values(|row: Row| row@) =~~= a@.rows.take(i + 1 as int));
        }
        i += 1;
    }
    proof {
        assert(a@.rows.take(a.rows@.len() as int) =~~= a@.rows);
    }
    let mut j: usize = 0;
    proof {
        assert(b@.rows.take(0).map_values(|sr: SpecRow| shift_row(sr, a@.states))
            =~~= Seq::<SpecRow>::empty());
    }
    while j < b.rows.len()
        invariant
            a.wf(),
            b.wf(),
            j <= b.rows@.len(),
            states == a.states + b.states,
            za@.len() == a.states,
            forall|t: int| 0 <= t < za@.len() ==> !za@[t],
            forall|k: int|
                0 <= k < rows@.len() ==> (#[trigger] rows@[k]).from < states
                    && rows@[k].targets@.len() == states,
            rows@.map_values(|row: Row| row@) =~~= a@.rows + b@.rows.take(j as int).map_values(
                |sr: SpecRow| shift_row(sr, a@.states),
            ),
        decreases b.rows@.len() - j,
    {
        let brow = &b.rows[j];
        let targets = concat_bits(&za, &brow.targets);
        let ghost rows0 = rows@;
        rows.push(Row { from: brow.from + a.states, symbol: brow.symbol, targets });
        proof {
            lemma_bits_pad_left(za@, b.rows@[j as int].targets@);
            assert(rows@.last()@ =~~= shift_row(b@.rows[j as int], a@.states));
            assert(rows@.map_values(|row: Row| row@) =~~= rows0.map_values(
                |row: Row| row@,
            ).push(shift_row(b@.rows[j as int], a@.states)));
            assert(b@.rows.take(j + 1 as int).map_values(|sr: SpecRow| shift_row(sr, a@.states))
                =~~= b@.rows.take(j as int).map_values(
                |sr: SpecRow| shift_row(sr, a@.states),
            ).push(shift_row(b@.rows[j as int], a@.states)));
            assert(rows@.map_values(|row: Row| row@) =~~= a@.rows + b@.rows.take(
                j + 1 as int,
            ).map_values(|sr: SpecRow| shift_row(sr, a@.states)));
        }
        j += 1;
    }
    let r = NFA { states, starting, finished, rows };
    proof {
        assert(b@.rows.take(b.rows@.len() as int) =~~= b@.rows);
        assert(r@ =~~= spec_plus(a@, b@));
        r.lemma_wf_inv();
    }
    r
}

/// The concatenation of two patterns, `a`'s part first.  `b`'s states are
/// renumbered past `a`'s; wherever a transition of `a` can land on a
/// finished state of `a` it also enters `b`'s starting states; those
/// starting states join the starting set exactly when `a` accepts the
/// empty input; only `b`'s finished states accept.  The operands are read
/// only.
pub fn times(a: &NFA, b: &NFA) -> (r: NFA)
    requires
        a.wf(),
        b.wf(),
        a@.states + b@.states <= usize::MAX,
    ensures
        r.wf(),
        r@ == spec_times(a@, b@),
        inv(r@),
{
    let states = a.states + b.states;
    let zb = falses(b.states);
    let za = falses(a.states);
    let bstart = concat_bits(&za, &b.starting);
    proof {
        lemma_bits_pad_left(za@, b.starting@);
    }
    let eps = overlap_bits(&a.starting, &a.finished);
    let starting = if eps {
        let s = concat_bits(&a.starting, &b.starting);
        proof {
            lemma_bits_concat(a.starting@, b.starting@);
        }
        s
    } else {
        let s = concat_bits(&a.starting, &zb);
        proof {
            lemma_bits_pad_right(a.starting@, zb@);
        }
        s
    };
    let finished = concat_bits(&za, &b.finished);
    proof {
        lemma_bits_pad_left(za@, b.finished@);
    }
    let mut rows: Vec<Row> = Vec::new();
    let mut i: usize = 0;
    while i < a.rows.len()
        invariant
            a.wf(),
            b.wf(),
            i <= a.rows@.len(),
            states == a.states + b.states,
            zb@.len() == b.states,
            forall|t: int| 0 <= t < zb@.len() ==> !zb@[t],
            bstart@.len() == states,
            bits(bstart@) == shift_set(b@.starting, a@.states),
            forall|k: int|
                0 <= k < rows@.len() ==> (#[trigger] rows@[k]).from < states
                    && rows@[k].targets@.len() == states,
            rows@.map_values(|row: Row| row@) =~~= a@.rows.take(i as int).map_values(
                |sr: SpecRow| augment_row(sr, a@.finished, shift_set(b@.starting, a@.states)),
            ),
        decreases a.rows@.len() - i,
    {
        let arow = &a.rows[i];
        let hit = overlap_bits(&arow.targets, &a.finished);
        let base = concat_bits(&arow.targets, &zb);
        proof {
            lemma_bits_pad_right(a.rows@[i as int].targets@, zb@);
        }
        let targets = if hit {
            or_bits(&base, &bstart)
        } else {
            base
        };
        let ghost rows0 = rows@;
        rows.push(Row { from: arow.from, symbol: arow.symbol, targets });
        proof {
            assert(a@.rows[i as int] == a.rows@[i as int]@);
            assert(rows@.last()@ =~~= augment_row(
                a@.rows[i as int],
                a@.finished,
                shift_set(b@.starting, a@.states),
            ));
            assert(rows@.map_values(|row: Row| row@) =~~= rows0.map_values(|row: Row| row@).push(
                augment_row(a@.rows[i as int], a@.finished, shift_set(b@.starting, a@.states)),
            ));
            assert(a@.rows.take(i + 1 as int).map_values(
                |sr: SpecRow| augment_row(sr, a@.finished, shift_set(b@.starting, a@.states)),
            ) =~~= a@.rows.take(i as int).map_values(
                |sr: SpecRow| augment_row(sr, a@.finished, shift_set(b@.starting, a@.states)),
            ).push(augment_row(a@.rows[i as int], a@.finished, shift_set(b@.starting, a@.states))));
            assert(rows@.map_values(|row: Row| row@) =~~= a@.rows.take(i + 1 as int).map_values(
                |sr: SpecRow| augment_row(sr, a@.finished, shift_set(b@.starting, a@.states)),
            ));
        }
        i += 1;
    }
    proof {
        assert(a@.rows.take(a.rows@.len() as int) =~~= a@.rows);
    }
    let mut j: usize = 0;
    while j < b.rows.len()
        invariant
            a.wf(),
            b.wf(),
            j <= b.rows@.len(),
            states == a.states + b.states,
            za@.len() == a.states,
            forall|t: int| 0 <= t < za@.len() ==> !za@[t],
            forall|k: int|
                0 <= k < rows@.len() ==> (#[trigger] rows@[k]).from < states
                    && rows@[k].targets@.len() == states,
            rows@.map_values(|row: Row| row@) =~~= a@.rows.map_values(
                |sr: SpecRow| augment_row(sr, a@.finished, shift_set(b@.starting, a@.states)),
            ) + b@.rows.take(j as int).map_values(|sr: SpecRow| shift_row(sr, a@.states)),
        decreases b.rows@.len() - j,
    {
        let brow = &b.rows[j];
        let targets = concat_bits(&za, &brow.targets);
        let ghost rows0 = rows@;
        rows.push(Row { from: brow.from + a.states, symbol: brow.symbol, targets });
        proof {
            lemma_bits_pad_left(za@, b.rows@[j as int].targets@);
            assert(rows@.last()@ =~~= shift_row(b@.rows[j as int], a@.states));
            assert(rows@.map_values(|row: Row| row@) =~~= rows0.map_values(|row: Row| row@).push(
                shift_row(b@.rows[j as int], a@.states),
            ));
            assert(b@.rows.take(j + 1 as int).map_values(|sr: SpecRow| shift_row(sr, a@.states))
                =~~= b@.rows.take(j as int).map_values(|sr: SpecRow| shift_row(sr, a@.states)).push(
                shift_row(b@.rows[j as int], a@.states),
            ));
            assert(rows@.map_values(|row: Row| row@) =~~= a@.rows.map_values(
                |sr: SpecRow| augment_row(sr, a@.finished, shift_set(b@.starting, a@.states)),
            ) + b@.rows.take(j + 1 as int).map_values(|sr: SpecRow| shift_row(sr, a@.states)));
        }
        j += 1;
    }
    let r = NFA { states, starting, finished, rows };
    proof {
        assert(b@.rows.take(b.rows@.len() as int) =~~= b@.rows);
        assert(r@ =~~= spec_times(a@, b@));
        r.lemma_wf_inv();
    }
    r
}

/// The Kleene closure of a pattern: zero or more repetitions.  Every
/// starting state becomes finished, and every transition that can land on
/// a finished state also re-enters the starting states.  The operand is
/// read only.
pub fn star(a: &NFA) -> (r: NFA)
    requires
        a.wf(),
    ensures
        r.wf(),
        r@ == spec_star(a@),
        inv(r@),
{
    let starting = copy_bits(&a.starting);
    let finished = or_bits(&a.finished, &a.starting);
    let mut rows: Vec<Row> = Vec::new();
    let mut i: usize = 0;
    while i < a.rows.len()
        invariant
            a.wf(),
            i <= a.rows@.len(),
            forall|k: int|
                0 <= k < rows@.len() ==> (#[trigger] rows@[k]).from < a.states
                    && rows@[k].targets@.len() == a.states,
            rows@.map_values(|row: Row| row@) =~~= a@.rows.take(i as int).map_values(
                |sr: SpecRow| augment_row(sr, a@.finished, a@.starting),
            ),
        decreases a.rows@.len() - i,
    {
        let arow = &a.rows[i];
        let hit = overlap_bits(&arow.targets, &a.finished);
        let targets = if hit {
            or_bits(&arow.targets, &a.starting)
        } else {
            copy_bits(&arow.targets)
        };
        let ghost rows0 = rows@;
        rows.push(Row { from: arow.from, symbol: arow.symbol, targets });
        proof {
            assert(a@.rows[i as int] == a.rows@[i as int]@);
            assert(rows@.last()@ =~~= augment_row(a@.rows[i as int], a@.finished, a@.starting));
            assert(rows@.map_values(|row: Row| row@) =~~= rows0.map_values(|row: Row| row@).push(
                augment_row(a@.rows[i as int], a@.finished, a@.starting),
            ));
            assert(a@.rows.take(i + 1 as int).map_values(
                |sr: SpecRow| augment_row(sr, a@.finished, a@.starting),
            ) =~~= a@.rows.take(i as int).map_values(
                |sr: SpecRow| augment_row(sr, a@.finished, a@.starting),
            ).push(augment_row(a@.rows[i as int], a@.finished, a@.starting)));
            assert(rows@.map_values(|row: Row| row@) =~~= a@.rows.take(i + 1 as int).map_values(
                |sr: SpecRow| augment_row(sr, a@.finished, a@.starting),
            ));
        }
        i += 1;
    }
    let r = NFA { states: a.states, starting, finished, rows };
    proof {
        assert(a@.rows.take(a.rows@.len() as int) =~~= a@.rows);
        assert(r@ =~~= spec_star(a@));
        r.lemma_wf_inv();
    }
    r
}

/// Relies on char_stream::CharStream::from: a stream made from a string
/// yields exactly the characters of that string, in order.
#[verifier::external_body]
fn chars_of(string: &String) -> (r: Vec<char>)
    ensures
        r@ == string@,
{
    char_stream::CharStream::from(string).collect()
}

impl NFA {
    /// Whether the representation is well formed.  Every automaton built
    /// by the construction algebra is; this check confirms it at run time.
    pub fn is_valid(&self) -> (r: bool)
        ensures
            r == self.wf(),
    {
        if self.starting.len() != self.states {
            return false;
        }
        if self.finished.len() != self.states {
            return false;
        }
        let mut i: usize = 0;
        while i < self.rows.len()
            invariant
                i <= self.rows@.len(),
                self.starting@.len() == self.states,
                self.finished@.len() == self.states,
                forall|k: int|
                    0 <= k < i ==> (#[trigger] self.rows@[k]).from < self.states
                        && self.rows@[k].targets@.len() == self.states,
            decreases self.rows@.len() - i,
        {
            let row = &self.rows[i];
            if row.from >= self.states || row.targets.len() != self.states {
                return false;
            }
            i += 1;
        }
        true
    }

    /// Decides whether the automaton accepts the string, by subset
    /// simulation: the set of occupied states is carried across the input
    /// one character at a time, and the string matches exactly when a
    /// finished state is occupied at the end.
    pub fn is_match(&self, string: &String) -> (r: bool)
        requires
            self.wf(),
        ensures
            r == accepts(self@, string@),
    {
        let chars = chars_of(string);
        let mut active = copy_bits(&self.starting);
        let mut k: usize = 0;
        while k < chars.len()
            invariant
                self.wf(),
                chars@ == string@,
                k <= chars@.len(),
                active@.len() == self.states,
                bits(active@) == run(self@, self@.starting, chars@.take(k as int)),
            decreases chars@.len() - k,
        {
            let ch = chars[k];
            let mut next = falses(self.states);
            let ghost cur = bits(active@);
            proof {
                assert(bits(next@) =~= step_upto(self@, cur, ch, 0));
            }
            let mut j: usize = 0;
            while j < self.rows.len()
                invariant
                    self.wf(),
                    j <= self.rows@.len(),
                    active@.len() == self.states,
                    next@.len() == self.states,
                    cur == bits(active@),
                    bits(next@) == step_upto(self@, cur, ch, j as int),
                decreases self.rows@.len() - j,
            {
                let row = &self.rows[j];
                let m = match row.symbol {
                    Symbol::Wild => true,
                    Symbol::Char(c) => c == ch,
                };
                proof {
                    assert(self@.rows[j as int] == self.rows@[j as int]@);
                    assert(m == sym_matches(self@.rows[j as int].symbol, ch));
                }
                if m && active[row.from] {
                    next = or_bits(&next, &row.targets);
                    proof {
                        assert(cur.contains(self@.rows[j as int].from));
                        assert forall|t: int| #[trigger]
                            bits(next@).contains(t) implies step_upto(
                            self@,
                            cur,
                            ch,
                            j + 1 as int,
                        ).contains(t) by {
                            if bits(self.rows@[j as int].targets@).contains(t) {
                                assert(row_sends(self@, cur, ch, j as int, t));
                            } else {
                                let i0 = choose|i0: int|
                                    i0 < j && #[trigger] row_sends(self@, cur, ch, i0, t);
                                assert(row_sends(self@, cur, ch, i0, t));
                            }
                        };
                        assert forall|t: int| #[trigger]
                            step_upto(self@, cur, ch, j + 1 as int).contains(t) implies bits(
                            next@,
                        ).contains(t) by {
                            let i0 = choose|i0: int|
                                i0 < j + 1 && #[trigger] row_sends(self@, cur, ch, i0, t);
                            if i0 == j {
                                assert(bits(self.rows@[j as int].targets@).contains(t));
                            } else {
                                assert(step_upto(self@, cur, ch, j as int).contains(t));
                            }
                        };
                        assert(bits(next@) =~= step_upto(self@, cur, ch, j + 1 as int));
                    }
                } else {
                    proof {
                        assert forall|t: int| #[trigger]
                            step_upto(self@, cur, ch, j + 1 as int).contains(t) implies step_upto(
                            self@,
                            cur,
                            ch,
                            j as int,
                        ).contains(t) by {
                            let i0 = choose|i0: int|
                                i0 < j + 1 && #[trigger] row_sends(self@, cur, ch, i0, t);
                            assert(i0 < j);
                        };
                        assert(step_upto(self@, cur, ch, j + 1 as int) =~= step_upto(
                            self@,
                            cur,
                            ch,
                            j as int,
                        ));
                    }
                }
                j += 1;
            }
            proof {
                assert forall|t: int| #[trigger]
                    step(self@, cur, ch).contains(t) implies step_upto(
                    self@,
                    cur,
                    ch,
                    self.rows@.len() as int,
                ).contains(t) by {
                    let i0 = choose|i0: int| #[trigger] row_sends(self@, cur, ch, i0, t);
                    assert(i0 < self.rows@.len());
                };
                assert(step_upto(self@, cur, ch, self.rows@.len() as int) =~= step(
                    self@,
                    cur,
                    ch,
                ));
                assert(chars@.take(k + 1 as int).drop_last() =~= chars@.take(k as int));
                assert(chars@.take(k + 1 as int).last() == ch);
                assert(run(self@, self@.starting, chars@.take(k + 1 as int)) == step(
                    self@,
                    run(self@, self@.starting, chars@.take(k as int)),
                    ch,
                ));
            }
            active = next;
            k += 1;
        }
        proof {
            assert(chars@.take(chars@.len() as int) =~= chars@);
        }
        overlap_bits(&active, &self.finished)
    }
}

} // verus!
