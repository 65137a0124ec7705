//! Supporting lemmas about the subset simulation.
//!
//! The central facts: a simulation step on a renumbered disjoint union
//! decomposes into the two operands' steps, runs stay within the state
//! count, and overlap of disjointly renumbered sets decomposes likewise.

use vstd::prelude::*;

use crate::model::{
    accepts, augment_row, in_range, inv, overlaps, row_inv, row_sends, run, shift_row, shift_set, spec_plus,
    in_star, spec_star, spec_times, star_tail, step, times_tail, SpecNfa,
};

verus! {

/// Consuming one more character steps the simulation once.
pub proof fn lemma_run_push(a: SpecNfa, cur: Set<int>, w: Seq<char>, ch: char)
    ensures
        run(a, cur, w.push(ch)) == step(a, run(a, cur, w), ch),
{
    assert(w.push(ch).drop_last() =~= w);
    assert(w.push(ch).last() == ch);
}

/// One simulation step only reaches real states.
pub proof fn lemma_step_in_range(a: SpecNfa, cur: Set<int>, ch: char)
    requires
        inv(a),
    ensures
        in_range(a.states, step(a, cur, ch)),
{
    assert forall|t: int| #[trigger] step(a, cur, ch).contains(t) implies 0 <= t < a.states by {
        let i = choose|i: int| #[trigger] row_sends(a, cur, ch, i, t);
        assert(row_inv(a.states, a.rows[i]));
    }
}

/// A simulation that begins on real states stays on real states.
pub proof fn lemma_run_in_range(a: SpecNfa, cur: Set<int>, w: Seq<char>)
    requires
        inv(a),
        in_range(a.states, cur),
    ensures
        in_range(a.states, run(a, cur, w)),
    decreases w.len(),
{
    if w.len() > 0 {
        lemma_run_in_range(a, cur, w.drop_last());
        lemma_step_in_range(a, run(a, cur, w.drop_last()), w.last());
    }
}

/// From no occupied states, the simulation never reaches any state.
pub proof fn lemma_run_from_empty(a: SpecNfa, w: Seq<char>)
    ensures
        run(a, Set::<int>::empty(), w) == Set::<int>::empty(),
    decreases w.len(),
{
    if w.len() > 0 {
        lemma_run_from_empty(a, w.drop_last());
        assert forall|t: int| !(#[trigger] step(a, Set::<int>::empty(), w.last()).contains(
            t,
        )) by {
            if step(a, Set::<int>::empty(), w.last()).contains(t) {
                let i = choose|i: int|
                    #[trigger] row_sends(a, Set::<int>::empty(), w.last(), i, t);
            }
        }
        assert(step(a, Set::<int>::empty(), w.last()) =~= Set::<int>::empty());
    }
}

/// Shifting two sets by the same offset keeps whether they meet.
pub proof fn lemma_overlaps_shift(x: Set<int>, y: Set<int>, off: int)
    ensures
        overlaps(shift_set(x, off), shift_set(y, off)) == overlaps(x, y),
{
    if overlaps(x, y) {
        let t = choose|t: int|
            #![trigger x.contains(t), y.contains(t)]
            x.contains(t) && y.contains(t);
        assert(shift_set(x, off).contains(t + off) && shift_set(y, off).contains(t + off));
    }
    if overlaps(shift_set(x, off), shift_set(y, off)) {
        let t = choose|t: int|
            #![trigger shift_set(x, off).contains(t), shift_set(y, off).contains(t)]
            shift_set(x, off).contains(t) && shift_set(y, off).contains(t);
        assert(x.contains(t - off) && y.contains(t - off));
    }
}

/// A set of states below `n` cannot meet a set shifted up by `n`.
pub proof fn lemma_no_cross(n: int, m: int, x: Set<int>, y: Set<int>)
    requires
        in_range(n, x),
        in_range(m, y),
    ensures
        !overlaps(x, shift_set(y, n)),
        !overlaps(shift_set(y, n), x),
{
    if overlaps(x, shift_set(y, n)) {
        let t = choose|t: int|
            #![trigger x.contains(t), shift_set(y, n).contains(t)]
            x.contains(t) && shift_set(y, n).contains(t);
        assert(y.contains(t - n));
    }
    if overlaps(shift_set(y, n), x) {
        let t = choose|t: int|
            #![trigger shift_set(y, n).contains(t), x.contains(t)]
            shift_set(y, n).contains(t) && x.contains(t);
        assert(y.contains(t - n));
    }
}

/// Overlap across a disjoint renumbered union decomposes into overlap of
/// the low parts or overlap of the high parts.
pub proof fn lemma_overlaps_disjoint_union(
    n: int,
    m: int,
    xa: Set<int>,
    xb: Set<int>,
    ya: Set<int>,
    yb: Set<int>,
)
    requires
        in_range(n, xa),
        in_range(n, ya),
        in_range(m, xb),
        in_range(m, yb),
    ensures
        overlaps(xa.union(shift_set(xb, n)), ya.union(shift_set(yb, n))) == (overlaps(xa, ya)
            || overlaps(xb, yb)),
{
    let u = xa.union(shift_set(xb, n));
    let v = ya.union(shift_set(yb, n));
    if overlaps(u, v) {
        let t = choose|t: int|
            #![trigger u.contains(t), v.contains(t)]
            u.contains(t) && v.contains(t);
        if xa.contains(t) {
            if shift_set(yb, n).contains(t) {
                assert(yb.contains(t - n));
                assert(false);
            }
            assert(xa.contains(t) && ya.contains(t));
        } else {
            assert(xb.contains(t - n));
            if ya.contains(t) {
                assert(false);
            }
            assert(yb.contains(t - n));
            assert(xb.contains(t - n) && yb.contains(t - n));
        }
    }
    if overlaps(xa, ya) {
        let t = choose|t: int|
            #![trigger xa.contains(t), ya.contains(t)]
            xa.contains(t) && ya.contains(t);
        assert(u.contains(t) && v.contains(t));
    }
    if overlaps(xb, yb) {
        let t = choose|t: int|
            #![trigger xb.contains(t), yb.contains(t)]
            xb.contains(t) && yb.contains(t);
        assert(u.contains(t + n) && v.contains(t + n));
    }
}

/// Overlap with a union splits into the two overlaps.
pub proof fn lemma_overlaps_union_left(x: Set<int>, y: Set<int>, z: Set<int>)
    ensures
        overlaps(x.union(y), z) == (overlaps(x, z) || overlaps(y, z)),
{
    if overlaps(x.union(y), z) {
        let t = choose|t: int|
            #![trigger x.union(y).contains(t), z.contains(t)]
            x.union(y).contains(t) && z.contains(t);
        if x.contains(t) {
            assert(x.contains(t) && z.contains(t));
        } else {
            assert(y.contains(t) && z.contains(t));
        }
    }
    if overlaps(x, z) {
        let t = choose|t: int|
            #![trigger x.contains(t), z.contains(t)]
            x.contains(t) && z.contains(t);
        assert(x.union(y).contains(t) && z.contains(t));
    }
    if overlaps(y, z) {
        let t = choose|t: int|
            #![trigger y.contains(t), z.contains(t)]
            y.contains(t) && z.contains(t);
        assert(x.union(y).contains(t) && z.contains(t));
    }
}

/// Shifting a set of states below `m` up by `n` lands below `n + m`.
pub proof fn lemma_in_range_shift(n: int, m: int, s: Set<int>)
    requires
        n >= 0,
        in_range(m, s),
    ensures
        in_range(n + m, shift_set(s, n)),
{
    assert forall|t: int| #[trigger] shift_set(s, n).contains(t) implies 0 <= t < n + m by {
        assert(s.contains(t - n));
    }
}

/// The disjoint union of two valid automata is valid.
pub proof fn lemma_inv_plus(a: SpecNfa, b: SpecNfa)
    requires
        inv(a),
        inv(b),
    ensures
        inv(spec_plus(a, b)),
{
    let p = spec_plus(a, b);
    lemma_in_range_shift(a.states, b.states, b.starting);
    lemma_in_range_shift(a.states, b.states, b.finished);
    assert forall|i: int| 0 <= i < p.rows.len() implies row_inv(p.states, #[trigger] p.rows[i]) by {
        if i < a.rows.len() {
            assert(p.rows[i] == a.rows[i]);
            assert(row_inv(a.states, a.rows[i]));
        } else {
            let k = i - a.rows.len();
            assert(p.rows[i] == shift_row(b.rows[k], a.states));
            assert(row_inv(b.states, b.rows[k]));
            lemma_in_range_shift(a.states, b.states, b.rows[k].targets);
        }
    }
}

/// The concatenation of two valid automata is valid.
pub proof fn lemma_inv_times(a: SpecNfa, b: SpecNfa)
    requires
        inv(a),
        inv(b),
    ensures
        inv(spec_times(a, b)),
{
    let p = spec_times(a, b);
    let bstart = shift_set(b.starting, a.states);
    lemma_in_range_shift(a.states, b.states, b.starting);
    lemma_in_range_shift(a.states, b.states, b.finished);
    assert forall|i: int| 0 <= i < p.rows.len() implies row_inv(p.states, #[trigger] p.rows[i]) by {
        if i < a.rows.len() {
            assert(p.rows[i] == augment_row(a.rows[i], a.finished, bstart));
            assert(row_inv(a.states, a.rows[i]));
        } else {
            let k = i - a.rows.len();
            assert(p.rows[i] == shift_row(b.rows[k], a.states));
            assert(row_inv(b.states, b.rows[k]));
            lemma_in_range_shift(a.states, b.states, b.rows[k].targets);
        }
    }
}

/// The Kleene closure of a valid automaton is valid.
pub proof fn lemma_inv_star(a: SpecNfa)
    requires
        inv(a),
    ensures
        inv(spec_star(a)),
{
    let p = spec_star(a);
    assert forall|i: int| 0 <= i < p.rows.len() implies row_inv(p.states, #[trigger] p.rows[i]) by {
        assert(p.rows[i] == augment_row(a.rows[i], a.finished, a.starting));
        assert(row_inv(a.states, a.rows[i]));
    }
}

/// One step of the disjoint union is the union of the operands' steps,
/// with the second operand's step renumbered.
pub proof fn lemma_plus_step(a: SpecNfa, b: SpecNfa, sa: Set<int>, sb: Set<int>, ch: char)
    requires
        inv(a),
        inv(b),
        in_range(a.states, sa),
        in_range(b.states, sb),
    ensures
        step(spec_plus(a, b), sa.union(shift_set(sb, a.states)), ch) == step(a, sa, ch).union(
            shift_set(step(b, sb, ch), a.states),
        ),
{
    let p = spec_plus(a, b);
    let n = a.states;
    let cur = sa.union(shift_set(sb, n));
    assert forall|t: int| #[trigger] step(p, cur, ch).contains(t) implies step(a, sa, ch).union(
        shift_set(step(b, sb, ch), n),
    ).contains(t) by {
        let i = choose|i: int| #[trigger] row_sends(p, cur, ch, i, t);
        if i < a.rows.len() {
            assert(p.rows[i] == a.rows[i]);
            assert(row_inv(a.states, a.rows[i]));
            if shift_set(sb, n).contains(a.rows[i].from) {
                assert(sb.contains(a.rows[i].from - n));
                assert(false);
            }
            assert(row_sends(a, sa, ch, i, t));
        } else {
            let k = i - a.rows.len();
            assert(p.rows[i] == shift_row(b.rows[k], n));
            assert(row_inv(b.states, b.rows[k]));
            if sa.contains(b.rows[k].from + n) {
                assert(false);
            }
            assert(sb.contains(b.rows[k].from));
            assert(b.rows[k].targets.contains(t - n));
            assert(row_sends(b, sb, ch, k, t - n));
            assert(step(b, sb, ch).contains(t - n));
        }
    }
    assert forall|t: int| #[trigger] step(a, sa, ch).contains(t) implies step(
        p,
        cur,
        ch,
    ).contains(t) by {
        let i = choose|i: int| #[trigger] row_sends(a, sa, ch, i, t);
        assert(p.rows[i] == a.rows[i]);
        assert(cur.contains(a.rows[i].from));
        assert(row_sends(p, cur, ch, i, t));
    }
    assert forall|t: int| #[trigger] step(b, sb, ch).contains(t) implies step(p, cur, ch).contains(
        t + n,
    ) by {
        let k = choose|k: int| #[trigger] row_sends(b, sb, ch, k, t);
        let i = k + a.rows.len();
        assert(p.rows[i] == shift_row(b.rows[k], n));
        assert(shift_set(sb, n).contains(b.rows[k].from + n));
        assert(cur.contains(b.rows[k].from + n));
        assert(p.rows[i].targets.contains(t + n));
        assert(row_sends(p, cur, ch, i, t + n));
    }
    assert forall|t: int| #[trigger] shift_set(step(b, sb, ch), n).contains(t) implies step(
        p,
        cur,
        ch,
    ).contains(t) by {
        assert(step(b, sb, ch).contains(t - n));
        assert(step(p, cur, ch).contains((t - n) + n));
    }
    assert(step(p, cur, ch) =~= step(a, sa, ch).union(shift_set(step(b, sb, ch), n)));
}

/// The whole simulation of the disjoint union is the union of the
/// operands' simulations, the second renumbered.
pub proof fn lemma_plus_run(a: SpecNfa, b: SpecNfa, sa: Set<int>, sb: Set<int>, w: Seq<char>)
    requires
        inv(a),
        inv(b),
        in_range(a.states, sa),
        in_range(b.states, sb),
    ensures
        run(spec_plus(a, b), sa.union(shift_set(sb, a.states)), w) == run(a, sa, w).union(
            shift_set(run(b, sb, w), a.states),
        ),
    decreases w.len(),
{
    if w.len() > 0 {
        let w0 = w.drop_last();
        lemma_plus_run(a, b, sa, sb, w0);
        lemma_run_in_range(a, sa, w0);
        lemma_run_in_range(b, sb, w0);
        lemma_plus_step(a, b, run(a, sa, w0), run(b, sb, w0), w.last());
    }
}

/// One step of the concatenation, from an occupied set split into `a`'s
/// part and `b`'s renumbered part: `a`'s step, plus `b`'s starting states
/// whenever `a`'s step lands on a finished state of `a`, plus `b`'s step.
pub proof fn lemma_times_step(a: SpecNfa, b: SpecNfa, sa: Set<int>, sb: Set<int>, ch: char)
    requires
        inv(a),
        inv(b),
        in_range(a.states, sa),
        in_range(b.states, sb),
    ensures
        step(spec_times(a, b), sa.union(shift_set(sb, a.states)), ch) == step(a, sa, ch).union(
            if overlaps(step(a, sa, ch), a.finished) {
                shift_set(b.starting, a.states)
            } else {
                Set::<int>::empty()
            },
        ).union(shift_set(step(b, sb, ch), a.states)),
{
    let p = spec_times(a, b);
    let n = a.states;
    let bst = shift_set(b.starting, n);
    let cur = sa.union(shift_set(sb, n));
    let mid: Set<int> = if overlaps(step(a, sa, ch), a.finished) {
        bst
    } else {
        Set::<int>::empty()
    };
    let rhs = step(a, sa, ch).union(mid).union(shift_set(step(b, sb, ch), n));
    assert forall|t: int| #[trigger] step(p, cur, ch).contains(t) implies rhs.contains(t) by {
        let i = choose|i: int| #[trigger] row_sends(p, cur, ch, i, t);
        if i < a.rows.len() {
            assert(p.rows[i] == augment_row(a.rows[i], a.finished, bst));
            assert(row_inv(a.states, a.rows[i]));
            if shift_set(sb, n).contains(a.rows[i].from) {
                assert(sb.contains(a.rows[i].from - n));
                assert(false);
            }
            assert(sa.contains(a.rows[i].from));
            if a.rows[i].targets.contains(t) {
                assert(row_sends(a, sa, ch, i, t));
            } else {
                assert(overlaps(a.rows[i].targets, a.finished));
                assert(bst.contains(t));
                let f = choose|f: int|
                    #![trigger a.rows[i].targets.contains(f), a.finished.contains(f)]
                    a.rows[i].targets.contains(f) && a.finished.contains(f);
                assert(row_sends(a, sa, ch, i, f));
                assert(step(a, sa, ch).contains(f));
                assert(overlaps(step(a, sa, ch), a.finished));
            }
        } else {
            let k = i - a.rows.len();
            assert(p.rows[i] == shift_row(b.rows[k], n));
            assert(row_inv(b.states, b.rows[k]));
            if sa.contains(b.rows[k].from + n) {
                assert(false);
            }
            assert(sb.contains(b.rows[k].from));
            assert(b.rows[k].targets.contains(t - n));
            assert(row_sends(b, sb, ch, k, t - n));
            assert(step(b, sb, ch).contains(t - n));
        }
    }
    assert forall|t: int| #[trigger] rhs.contains(t) implies step(p, cur, ch).contains(t) by {
        if step(a, sa, ch).contains(t) {
            let i = choose|i: int| #[trigger] row_sends(a, sa, ch, i, t);
            assert(p.rows[i] == augment_row(a.rows[i], a.finished, bst));
            assert(cur.contains(a.rows[i].from));
            assert(p.rows[i].targets.contains(t));
            assert(row_sends(p, cur, ch, i, t));
        } else if mid.contains(t) {
            assert(overlaps(step(a, sa, ch), a.finished));
            let f = choose|f: int|
                #![trigger step(a, sa, ch).contains(f), a.finished.contains(f)]
                step(a, sa, ch).contains(f) && a.finished.contains(f);
            let i = choose|i: int| #[trigger] row_sends(a, sa, ch, i, f);
            assert(overlaps(a.rows[i].targets, a.finished));
            assert(p.rows[i] == augment_row(a.rows[i], a.finished, bst));
            assert(p.rows[i].targets.contains(t));
            assert(cur.contains(a.rows[i].from));
            assert(row_sends(p, cur, ch, i, t));
        } else {
            assert(shift_set(step(b, sb, ch), n).contains(t));
            assert(step(b, sb, ch).contains(t - n));
            let k = choose|k: int| #[trigger] row_sends(b, sb, ch, k, t - n);
            let i = k + a.rows.len();
            assert(p.rows[i] == shift_row(b.rows[k], n));
            assert(shift_set(sb, n).contains(b.rows[k].from + n));
            assert(cur.contains(b.rows[k].from + n));
            assert(p.rows[i].targets.contains((t - n) + n));
            assert(row_sends(p, cur, ch, i, t));
        }
    }
    assert(step(p, cur, ch) =~= rhs);
}

/// Every state that the concatenation occupies on `b`'s side is a real
/// state of `b`.
pub proof fn lemma_times_tail_in_range(a: SpecNfa, b: SpecNfa, w: Seq<char>)
    requires
        inv(b),
    ensures
        in_range(b.states, times_tail(a, b, w)),
{
    assert forall|t: int| #[trigger] times_tail(a, b, w).contains(t) implies 0 <= t
        < b.states by {
        let i = choose|i: int|
            0 <= i <= w.len() && #[trigger] accepts(a, w.take(i)) && run(
                b,
                b.starting,
                w.skip(i),
            ).contains(t);
        lemma_run_in_range(b, b.starting, w.skip(i));
    }
}

/// How the tail occupancy of a concatenation grows by one character:
/// every tracked run of `b` steps once, and a fresh run of `b` starts
/// exactly when `a` accepts the whole input read so far.
proof fn lemma_times_tail_push(a: SpecNfa, b: SpecNfa, w: Seq<char>)
    requires
        inv(a),
        inv(b),
        w.len() > 0,
    ensures
        times_tail(a, b, w) == step(b, times_tail(a, b, w.drop_last()), w.last()).union(
            if accepts(a, w) {
                b.starting
            } else {
                Set::<int>::empty()
            },
        ),
{
    let w0 = w.drop_last();
    let ch = w.last();
    let t0 = times_tail(a, b, w0);
    let fresh: Set<int> = if accepts(a, w) {
        b.starting
    } else {
        Set::<int>::empty()
    };
    assert forall|t: int| #[trigger] times_tail(a, b, w).contains(t) implies step(
        b,
        t0,
        ch,
    ).union(fresh).contains(t) by {
        let i = choose|i: int|
            0 <= i <= w.len() && #[trigger] accepts(a, w.take(i)) && run(
                b,
                b.starting,
                w.skip(i),
            ).contains(t);
        if i == w.len() {
            assert(w.take(i) =~= w);
            assert(w.skip(i) =~= Seq::<char>::empty());
            assert(fresh.contains(t));
        } else {
            assert(w.take(i) =~= w0.take(i));
            assert(w.skip(i) =~= w0.skip(i).push(ch));
            lemma_run_push(b, b.starting, w0.skip(i), ch);
            assert(step(b, run(b, b.starting, w0.skip(i)), ch).contains(t));
            let k = choose|k: int| #[trigger] row_sends(b, run(b, b.starting, w0.skip(i)), ch, k, t);
            assert(accepts(a, w0.take(i)));
            assert(t0.contains(b.rows[k].from));
            assert(row_sends(b, t0, ch, k, t));
            assert(step(b, t0, ch).contains(t));
        }
    }
    assert forall|t: int| #[trigger] step(b, t0, ch).union(fresh).contains(t) implies times_tail(
        a,
        b,
        w,
    ).contains(t) by {
        if step(b, t0, ch).contains(t) {
            let k = choose|k: int| #[trigger] row_sends(b, t0, ch, k, t);
            let i = choose|i: int|
                0 <= i <= w0.len() && #[trigger] accepts(a, w0.take(i)) && run(
                    b,
                    b.starting,
                    w0.skip(i),
                ).contains(b.rows[k].from);
            assert(row_sends(b, run(b, b.starting, w0.skip(i)), ch, k, t));
            assert(step(b, run(b, b.starting, w0.skip(i)), ch).contains(t));
            lemma_run_push(b, b.starting, w0.skip(i), ch);
            assert(w.skip(i) =~= w0.skip(i).push(ch));
            assert(run(b, b.starting, w.skip(i)).contains(t));
            assert(w.take(i) =~= w0.take(i));
            assert(accepts(a, w.take(i)));
        } else {
            assert(accepts(a, w) && b.starting.contains(t));
            let i = w.len() as int;
            assert(w.take(i) =~= w);
            assert(w.skip(i) =~= Seq::<char>::empty());
            assert(accepts(a, w.take(i)));
            assert(run(b, b.starting, w.skip(i)).contains(t));
        }
    }
    assert(times_tail(a, b, w) =~= step(b, t0, ch).union(fresh));
}

/// The simulation of a concatenation decomposes: `a`'s own simulation,
/// together with the tracked runs of `b` started at every split that `a`
/// accepts.
pub proof fn lemma_times_run(a: SpecNfa, b: SpecNfa, w: Seq<char>)
    requires
        inv(a),
        inv(b),
    ensures
        run(spec_times(a, b), spec_times(a, b).starting, w) == run(a, a.starting, w).union(
            shift_set(times_tail(a, b, w), a.states),
        ),
    decreases w.len(),
{
    let p = spec_times(a, b);
    let n = a.states;
    if w.len() == 0 {
        assert(w.take(0) =~= w);
        assert(w.skip(0) =~= w);
        if overlaps(a.starting, a.finished) {
            assert(accepts(a, w.take(0)));
            assert forall|t: int| #[trigger] times_tail(a, b, w).contains(t) implies b
                .starting
                .contains(t) by {
                let i = choose|i: int|
                    0 <= i <= w.len() && #[trigger] accepts(a, w.take(i)) && run(
                        b,
                        b.starting,
                        w.skip(i),
                    ).contains(t);
            }
            assert forall|t: int| #[trigger] b.starting.contains(t) implies times_tail(
                a,
                b,
                w,
            ).contains(t) by {
                assert(run(b, b.starting, w.skip(0)).contains(t));
            }
            assert(times_tail(a, b, w) =~= b.starting);
            assert(p.starting =~= run(a, a.starting, w).union(shift_set(times_tail(a, b, w), n)));
        } else {
            assert forall|t: int| !(#[trigger] times_tail(a, b, w).contains(t)) by {
                if times_tail(a, b, w).contains(t) {
                    let i = choose|i: int|
                        0 <= i <= w.len() && #[trigger] accepts(a, w.take(i)) && run(
                            b,
                            b.starting,
                            w.skip(i),
                        ).contains(t);
                    assert(accepts(a, w));
                }
            }
            assert(times_tail(a, b, w) =~= Set::<int>::empty());
            assert(p.starting =~= run(a, a.starting, w).union(shift_set(times_tail(a, b, w), n)));
        }
    } else {
        let w0 = w.drop_last();
        let ch = w.last();
        lemma_times_run(a, b, w0);
        lemma_run_in_range(a, a.starting, w0);
        lemma_times_tail_in_range(a, b, w0);
        lemma_times_step(a, b, run(a, a.starting, w0), times_tail(a, b, w0), ch);
        lemma_times_tail_push(a, b, w);
        assert(run(p, p.starting, w) == step(p, run(p, p.starting, w0), ch));
        assert(run(a, a.starting, w) == step(a, run(a, a.starting, w0), ch));
        assert(overlaps(run(a, a.starting, w), a.finished) == accepts(a, w));
        assert(shift_set(times_tail(a, b, w), n) =~= shift_set(
            step(b, times_tail(a, b, w0), ch),
            n,
        ).union(
            if accepts(a, w) {
                shift_set(b.starting, n)
            } else {
                Set::<int>::empty()
            },
        ));
        assert(run(p, p.starting, w) =~= run(a, a.starting, w).union(
            shift_set(times_tail(a, b, w), n),
        ));
    }
}

/// One step of the Kleene closure: the operand's step, plus the starting
/// states whenever that step lands on a finished state.
pub proof fn lemma_star_step(a: SpecNfa, s: Set<int>, ch: char)
    ensures
        step(spec_star(a), s, ch) == step(a, s, ch).union(
            if overlaps(step(a, s, ch), a.finished) {
                a.starting
            } else {
                Set::<int>::empty()
            },
        ),
{
    let p = spec_star(a);
    let mid: Set<int> = if overlaps(step(a, s, ch), a.finished) {
        a.starting
    } else {
        Set::<int>::empty()
    };
    let rhs = step(a, s, ch).union(mid);
    assert forall|t: int| #[trigger] step(p, s, ch).contains(t) implies rhs.contains(t) by {
        let i = choose|i: int| #[trigger] row_sends(p, s, ch, i, t);
        assert(p.rows[i] == augment_row(a.rows[i], a.finished, a.starting));
        if a.rows[i].targets.contains(t) {
            assert(row_sends(a, s, ch, i, t));
        } else {
            assert(overlaps(a.rows[i].targets, a.finished));
            let f = choose|f: int|
                #![trigger a.rows[i].targets.contains(f), a.finished.contains(f)]
                a.rows[i].targets.contains(f) && a.finished.contains(f);
            assert(row_sends(a, s, ch, i, f));
            assert(step(a, s, ch).contains(f));
            assert(overlaps(step(a, s, ch), a.finished));
        }
    }
    assert forall|t: int| #[trigger] rhs.contains(t) implies step(p, s, ch).contains(t) by {
        if step(a, s, ch).contains(t) {
            let i = choose|i: int| #[trigger] row_sends(a, s, ch, i, t);
            assert(p.rows[i] == augment_row(a.rows[i], a.finished, a.starting));
            assert(p.rows[i].targets.contains(t));
            assert(row_sends(p, s, ch, i, t));
        } else {
            assert(overlaps(step(a, s, ch), a.finished) && a.starting.contains(t));
            let f = choose|f: int|
                #![trigger step(a, s, ch).contains(f), a.finished.contains(f)]
                step(a, s, ch).contains(f) && a.finished.contains(f);
            let i = choose|i: int| #[trigger] row_sends(a, s, ch, i, f);
            assert(overlaps(a.rows[i].targets, a.finished));
            assert(p.rows[i] == augment_row(a.rows[i], a.finished, a.starting));
            assert(p.rows[i].targets.contains(t));
            assert(row_sends(p, s, ch, i, t));
        }
    }
    assert(step(p, s, ch) =~= rhs);
}

/// How the closure's occupancy grows by one character: every tracked run
/// of the operand steps once, and a fresh run starts exactly when the
/// input read so far lies in the iterated language.
proof fn lemma_star_tail_push(a: SpecNfa, w: Seq<char>)
    requires
        w.len() > 0,
    ensures
        star_tail(a, w) == step(a, star_tail(a, w.drop_last()), w.last()).union(
            if in_star(a, w) {
                a.starting
            } else {
                Set::<int>::empty()
            },
        ),
{
    let w0 = w.drop_last();
    let ch = w.last();
    let t0 = star_tail(a, w0);
    let fresh: Set<int> = if in_star(a, w) {
        a.starting
    } else {
        Set::<int>::empty()
    };
    assert forall|t: int| #[trigger] star_tail(a, w).contains(t) implies step(a, t0, ch).union(
        fresh,
    ).contains(t) by {
        let i = choose|i: int|
            0 <= i <= w.len() && #[trigger] in_star(a, w.take(i)) && run(
                a,
                a.starting,
                w.skip(i),
            ).contains(t);
        if i == w.len() {
            assert(w.take(i) =~= w);
            assert(w.skip(i) =~= Seq::<char>::empty());
            assert(in_star(a, w));
            assert(fresh.contains(t));
        } else {
            assert(w.take(i) =~= w0.take(i));
            assert(w.skip(i) =~= w0.skip(i).push(ch));
            lemma_run_push(a, a.starting, w0.skip(i), ch);
            assert(step(a, run(a, a.starting, w0.skip(i)), ch).contains(t));
            let k = choose|k: int| #[trigger] row_sends(a, run(a, a.starting, w0.skip(i)), ch, k, t);
            assert(in_star(a, w0.take(i)));
            assert(t0.contains(a.rows[k].from));
            assert(row_sends(a, t0, ch, k, t));
            assert(step(a, t0, ch).contains(t));
        }
    }
    assert forall|t: int| #[trigger] step(a, t0, ch).union(fresh).contains(t) implies star_tail(
        a,
        w,
    ).contains(t) by {
        if step(a, t0, ch).contains(t) {
            let k = choose|k: int| #[trigger] row_sends(a, t0, ch, k, t);
            let i = choose|i: int|
                0 <= i <= w0.len() && #[trigger] in_star(a, w0.take(i)) && run(
                    a,
                    a.starting,
                    w0.skip(i),
                ).contains(a.rows[k].from);
            assert(row_sends(a, run(a, a.starting, w0.skip(i)), ch, k, t));
            assert(step(a, run(a, a.starting, w0.skip(i)), ch).contains(t));
            lemma_run_push(a, a.starting, w0.skip(i), ch);
            assert(w.skip(i) =~= w0.skip(i).push(ch));
            assert(run(a, a.starting, w.skip(i)).contains(t));
            assert(w.take(i) =~= w0.take(i));
            assert(in_star(a, w.take(i)));
        } else {
            assert(in_star(a, w) && a.starting.contains(t));
            let i = w.len() as int;
            assert(w.take(i) =~= w);
            assert(w.skip(i) =~= Seq::<char>::empty());
            assert(in_star(a, w.take(i)));
            assert(run(a, a.starting, w.skip(i)).contains(t));
        }
    }
    assert(star_tail(a, w) =~= step(a, t0, ch).union(fresh));
}

/// The two conditions that extend the closure's occupancy agree: the
/// operand's step out of the tracked runs lands on a finished state
/// exactly when the whole input read so far lies in the iterated
/// language.
proof fn lemma_star_condition(a: SpecNfa, w: Seq<char>)
    requires
        w.len() > 0,
    ensures
        overlaps(step(a, star_tail(a, w.drop_last()), w.last()), a.finished) == in_star(a, w),
{
    let w0 = w.drop_last();
    let ch = w.last();
    let t0 = star_tail(a, w0);
    if overlaps(step(a, t0, ch), a.finished) {
        let f = choose|f: int|
            #![trigger step(a, t0, ch).contains(f), a.finished.contains(f)]
            step(a, t0, ch).contains(f) && a.finished.contains(f);
        let k = choose|k: int| #[trigger] row_sends(a, t0, ch, k, f);
        let i = choose|i: int|
            0 <= i <= w0.len() && #[trigger] in_star(a, w0.take(i)) && run(
                a,
                a.starting,
                w0.skip(i),
            ).contains(a.rows[k].from);
        assert(row_sends(a, run(a, a.starting, w0.skip(i)), ch, k, f));
        assert(step(a, run(a, a.starting, w0.skip(i)), ch).contains(f));
        lemma_run_push(a, a.starting, w0.skip(i), ch);
        assert(w.skip(i) =~= w0.skip(i).push(ch));
        assert(run(a, a.starting, w.skip(i)).contains(f) && a.finished.contains(f));
        assert(accepts(a, w.skip(i)));
        assert(w.take(i) =~= w0.take(i));
        assert(in_star(a, w.take(i)));
        assert(in_star(a, w));
    }
    if in_star(a, w) {
        let i = choose|i: int|
            0 <= i < w.len() && in_star(a, #[trigger] w.take(i)) && accepts(a, w.skip(i));
        let f = choose|f: int|
            #![trigger run(a, a.starting, w.skip(i)).contains(f), a.finished.contains(f)]
            run(a, a.starting, w.skip(i)).contains(f) && a.finished.contains(f);
        assert(w.skip(i) =~= w0.skip(i).push(ch));
        lemma_run_push(a, a.starting, w0.skip(i), ch);
        assert(step(a, run(a, a.starting, w0.skip(i)), ch).contains(f));
        let k = choose|k: int| #[trigger] row_sends(a, run(a, a.starting, w0.skip(i)), ch, k, f);
        assert(w.take(i) =~= w0.take(i));
        assert(in_star(a, w0.take(i)));
        assert(t0.contains(a.rows[k].from));
        assert(row_sends(a, t0, ch, k, f));
        assert(step(a, t0, ch).contains(f) && a.finished.contains(f));
    }
}

/// The simulation of a Kleene closure decomposes into the operand's runs
/// started at every split whose first part lies in the iterated language.
pub proof fn lemma_star_run(a: SpecNfa, w: Seq<char>)
    ensures
        run(spec_star(a), a.starting, w) == star_tail(a, w),
    decreases w.len(),
{
    let p = spec_star(a);
    if w.len() == 0 {
        assert(w.take(0) =~= w);
        assert(w.skip(0) =~= w);
        assert(in_star(a, w.take(0)));
        assert forall|t: int| #[trigger] star_tail(a, w).contains(t) implies a.starting.contains(
            t,
        ) by {
            let i = choose|i: int|
                0 <= i <= w.len() && #[trigger] in_star(a, w.take(i)) && run(
                    a,
                    a.starting,
                    w.skip(i),
                ).contains(t);
        }
        assert forall|t: int| #[trigger] a.starting.contains(t) implies star_tail(a, w).contains(
            t,
        ) by {
            assert(run(a, a.starting, w.skip(0)).contains(t));
        }
        assert(run(p, a.starting, w) =~= star_tail(a, w));
    } else {
        let w0 = w.drop_last();
        let ch = w.last();
        lemma_star_run(a, w0);
        lemma_star_step(a, star_tail(a, w0), ch);
        lemma_star_condition(a, w);
        lemma_star_tail_push(a, w);
        assert(run(p, a.starting, w) == step(p, star_tail(a, w0), ch));
        assert(run(p, a.starting, w) =~= star_tail(a, w));
    }
}

} // verus!
