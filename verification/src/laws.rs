//! Laws of the construction algebra, stated over the model and proved
//! once for all automata and all inputs.

use vstd::prelude::*;

use crate::lemmas::{
    lemma_inv_plus, lemma_inv_star, lemma_inv_times, lemma_no_cross, lemma_overlaps_disjoint_union,
    lemma_overlaps_shift, lemma_overlaps_union_left, lemma_plus_run, lemma_run_in_range,
    lemma_run_from_empty, lemma_star_run, lemma_times_run, lemma_times_tail_in_range,
};
use crate::model::{
    accepts, in_star, inv, overlaps, row_inv, row_sends, run, safe_reentry, shift_set, spec_empty,
    spec_plus, spec_star, spec_times, spec_unit, star_tail, step, sym_matches, times_tail, SpecNfa,
    Symbol,
};

verus! {

/// Every automaton the algebra describes is valid: the two primitives
/// satisfy the invariant, and each combinator preserves it.  The
/// executable constructors restate this of their results.
pub proof fn lemma_algebra_valid(a: SpecNfa, b: SpecNfa, sym: Symbol)
    requires
        inv(a),
        inv(b),
    ensures
        inv(spec_empty()),
        inv(spec_unit(sym)),
        inv(spec_plus(a, b)),
        inv(spec_times(a, b)),
        inv(spec_star(a)),
{
    lemma_inv_plus(a, b);
    lemma_inv_times(a, b);
    lemma_inv_star(a);
    assert(row_inv(2, spec_unit(sym).rows[0]));
}

/// An automaton accepts the empty input exactly when some starting state
/// is already finished.
pub proof fn lemma_empty_input(a: SpecNfa)
    ensures
        accepts(a, Seq::<char>::empty()) == overlaps(a.starting, a.finished),
{
}

/// One step of the single-symbol automaton: from a set containing its
/// starting state, a matching character reaches exactly its finished
/// state; anything else reaches nothing.
proof fn lemma_unit_step(sym: Symbol, s: Set<int>, ch: char)
    ensures
        step(spec_unit(sym), s, ch) == if s.contains(0) && sym_matches(sym, ch) {
            set![1int]
        } else {
            Set::<int>::empty()
        },
{
    let u = spec_unit(sym);
    if s.contains(0) && sym_matches(sym, ch) {
        assert(row_sends(u, s, ch, 0, 1));
        assert forall|t: int| #[trigger] step(u, s, ch).contains(t) implies t == 1 by {
            let i = choose|i: int| #[trigger] row_sends(u, s, ch, i, t);
            assert(u.rows[i].targets.contains(t));
        }
        assert(step(u, s, ch) =~= set![1int]);
    } else {
        assert forall|t: int| !(#[trigger] step(u, s, ch).contains(t)) by {
            if step(u, s, ch).contains(t) {
                let i = choose|i: int| #[trigger] row_sends(u, s, ch, i, t);
                assert(s.contains(u.rows[0].from));
            }
        }
        assert(step(u, s, ch) =~= Set::<int>::empty());
    }
}

/// After two or more characters the single-symbol automaton occupies no
/// state at all.
proof fn lemma_unit_run_long(sym: Symbol, w: Seq<char>)
    requires
        w.len() >= 2,
    ensures
        run(spec_unit(sym), spec_unit(sym).starting, w) == Set::<int>::empty(),
    decreases w.len(),
{
    let u = spec_unit(sym);
    let w0 = w.drop_last();
    if w0.len() == 1 {
        assert(w0.drop_last() =~= Seq::<char>::empty());
        lemma_unit_step(sym, u.starting, w0.last());
        assert(!run(u, u.starting, w0).contains(0));
        lemma_unit_step(sym, run(u, u.starting, w0), w.last());
    } else {
        lemma_unit_run_long(sym, w0);
        lemma_unit_step(sym, Set::<int>::empty(), w.last());
    }
}

/// The single-symbol automaton accepts exactly the one-character inputs
/// whose character the symbol matches.
pub proof fn lemma_unit_language(sym: Symbol, w: Seq<char>)
    ensures
        accepts(spec_unit(sym), w) == (w.len() == 1 && sym_matches(sym, w[0])),
{
    let u = spec_unit(sym);
    if w.len() == 0 {
        if overlaps(u.starting, u.finished) {
            let t = choose|t: int|
                #![trigger u.starting.contains(t), u.finished.contains(t)]
                u.starting.contains(t) && u.finished.contains(t);
            assert(false);
        }
    } else if w.len() == 1 {
        assert(w.drop_last() =~= Seq::<char>::empty());
        assert(w.last() == w[0]);
        assert(run(u, u.starting, w.drop_last()) == u.starting);
        assert(run(u, u.starting, w) == step(u, u.starting, w[0]));
        lemma_unit_step(sym, u.starting, w[0]);
        if sym_matches(sym, w[0]) {
            assert(u.starting.contains(0));
            assert(run(u, u.starting, w).contains(1) && u.finished.contains(1));
        } else {
            if overlaps(run(u, u.starting, w), u.finished) {
                let t = choose|t: int|
                    #![trigger run(u, u.starting, w).contains(t), u.finished.contains(t)]
                    run(u, u.starting, w).contains(t) && u.finished.contains(t);
                assert(false);
            }
        }
    } else {
        lemma_unit_run_long(sym, w);
        if overlaps(run(u, u.starting, w), u.finished) {
            let t = choose|t: int|
                #![trigger run(u, u.starting, w).contains(t), u.finished.contains(t)]
                run(u, u.starting, w).contains(t) && u.finished.contains(t);
            assert(false);
        }
    }
}

/// The disjoint union recognises exactly the union of the two languages.
pub proof fn lemma_plus_language(a: SpecNfa, b: SpecNfa, w: Seq<char>)
    requires
        inv(a),
        inv(b),
    ensures
        accepts(spec_plus(a, b), w) == (accepts(a, w) || accepts(b, w)),
{
    lemma_plus_run(a, b, a.starting, b.starting, w);
    lemma_run_in_range(a, a.starting, w);
    lemma_run_in_range(b, b.starting, w);
    lemma_overlaps_disjoint_union(
        a.states,
        b.states,
        run(a, a.starting, w),
        run(b, b.starting, w),
        a.finished,
        b.finished,
    );
}

/// The concatenation recognises exactly the inputs that split into a part
/// accepted by `a` followed by a part accepted by `b`.
pub proof fn lemma_times_language(a: SpecNfa, b: SpecNfa, w: Seq<char>)
    requires
        inv(a),
        inv(b),
    ensures
        accepts(spec_times(a, b), w) == exists|i: int|
            0 <= i <= w.len() && #[trigger] accepts(a, w.take(i)) && accepts(b, w.skip(i)),
{
    let n = a.states;
    lemma_times_run(a, b, w);
    lemma_run_in_range(a, a.starting, w);
    lemma_times_tail_in_range(a, b, w);
    lemma_no_cross(n, b.states, run(a, a.starting, w), b.finished);
    lemma_overlaps_union_left(
        run(a, a.starting, w),
        shift_set(times_tail(a, b, w), n),
        shift_set(b.finished, n),
    );
    lemma_overlaps_shift(times_tail(a, b, w), b.finished, n);
    if overlaps(times_tail(a, b, w), b.finished) {
        let t = choose|t: int|
            #![trigger times_tail(a, b, w).contains(t), b.finished.contains(t)]
            times_tail(a, b, w).contains(t) && b.finished.contains(t);
        let i = choose|i: int|
            0 <= i <= w.len() && #[trigger] accepts(a, w.take(i)) && run(
                b,
                b.starting,
                w.skip(i),
            ).contains(t);
        assert(run(b, b.starting, w.skip(i)).contains(t) && b.finished.contains(t));
        assert(accepts(b, w.skip(i)));
    }
    if exists|i: int| 0 <= i <= w.len() && #[trigger] accepts(a, w.take(i)) && accepts(
        b,
        w.skip(i),
    ) {
        let i = choose|i: int|
            0 <= i <= w.len() && #[trigger] accepts(a, w.take(i)) && accepts(b, w.skip(i));
        let t = choose|t: int|
            #![trigger run(b, b.starting, w.skip(i)).contains(t), b.finished.contains(t)]
            run(b, b.starting, w.skip(i)).contains(t) && b.finished.contains(t);
        assert(times_tail(a, b, w).contains(t));
        assert(overlaps(times_tail(a, b, w), b.finished));
    }
}

/// Concatenation is associative at the language level: however a chain of
/// three patterns is bracketed, the same inputs are accepted.
pub proof fn lemma_times_associative(a: SpecNfa, b: SpecNfa, c: SpecNfa, w: Seq<char>)
    requires
        inv(a),
        inv(b),
        inv(c),
    ensures
        accepts(spec_times(spec_times(a, b), c), w) == accepts(
            spec_times(a, spec_times(b, c)),
            w,
        ),
{
    lemma_inv_times(a, b);
    lemma_inv_times(b, c);
    lemma_times_language(spec_times(a, b), c, w);
    lemma_times_language(a, spec_times(b, c), w);
    if accepts(spec_times(spec_times(a, b), c), w) {
        let i = choose|i: int|
            0 <= i <= w.len() && #[trigger] accepts(spec_times(a, b), w.take(i)) && accepts(
                c,
                w.skip(i),
            );
        lemma_times_language(a, b, w.take(i));
        let j = choose|j: int|
            0 <= j <= w.take(i).len() && #[trigger] accepts(a, w.take(i).take(j)) && accepts(
                b,
                w.take(i).skip(j),
            );
        assert(w.take(i).take(j) =~= w.take(j));
        assert(w.take(i).skip(j) =~= w.skip(j).take(i - j));
        assert(w.skip(j).skip(i - j) =~= w.skip(i));
        lemma_times_language(b, c, w.skip(j));
        assert(accepts(b, w.skip(j).take(i - j)) && accepts(c, w.skip(j).skip(i - j)));
        assert(accepts(a, w.take(j)) && accepts(spec_times(b, c), w.skip(j)));
    }
    if accepts(spec_times(a, spec_times(b, c)), w) {
        let j = choose|j: int|
            0 <= j <= w.len() && #[trigger] accepts(a, w.take(j)) && accepts(
                spec_times(b, c),
                w.skip(j),
            );
        lemma_times_language(b, c, w.skip(j));
        let k = choose|k: int|
            0 <= k <= w.skip(j).len() && #[trigger] accepts(b, w.skip(j).take(k)) && accepts(
                c,
                w.skip(j).skip(k),
            );
        let i = j + k;
        assert(w.take(i).take(j) =~= w.take(j));
        assert(w.take(i).skip(j) =~= w.skip(j).take(k));
        assert(w.skip(j).skip(k) =~= w.skip(i));
        lemma_times_language(a, b, w.take(i));
        assert(accepts(a, w.take(i).take(j)) && accepts(b, w.take(i).skip(j)));
        assert(accepts(spec_times(a, b), w.take(i)) && accepts(c, w.skip(i)));
    }
}

/// Under `safe_reentry`, the Kleene closure accepts exactly the iterated
/// language: the inputs that split into zero or more pieces, each
/// accepted by the operand.
pub proof fn lemma_star_language(a: SpecNfa, w: Seq<char>)
    requires
        inv(a),
        safe_reentry(a),
        exists|t: int| a.starting.contains(t),
    ensures
        accepts(spec_star(a), w) == in_star(a, w),
{
    let p = spec_star(a);
    lemma_star_run(a, w);
    if accepts(p, w) {
        let t = choose|t: int|
            #![trigger star_tail(a, w).contains(t), p.finished.contains(t)]
            star_tail(a, w).contains(t) && p.finished.contains(t);
        let i = choose|i: int|
            0 <= i <= w.len() && #[trigger] in_star(a, w.take(i)) && run(
                a,
                a.starting,
                w.skip(i),
            ).contains(t);
        if i == w.len() {
            assert(w.take(i) =~= w);
            assert(in_star(a, w));
        } else {
            if a.finished.contains(t) {
                assert(run(a, a.starting, w.skip(i)).contains(t) && a.finished.contains(t));
                assert(accepts(a, w.skip(i)));
            } else {
                assert(a.starting.contains(t));
                assert(w.skip(i).len() > 0);
                assert(run(a, a.starting, w.skip(i)).contains(t) && a.starting.contains(t));
                assert(overlaps(run(a, a.starting, w.skip(i)), a.starting));
                assert(accepts(a, w.skip(i)));
            }
            assert(in_star(a, w));
        }
    }
    if in_star(a, w) {
        if w.len() == 0 {
            let t = choose|t: int| a.starting.contains(t);
            assert(w.take(0) =~= w);
            assert(w.skip(0) =~= w);
            assert(in_star(a, w.take(0)));
            assert(run(a, a.starting, w.skip(0)).contains(t));
            assert(star_tail(a, w).contains(t) && p.finished.contains(t));
            assert(overlaps(star_tail(a, w), p.finished));
        } else {
            let i = choose|i: int|
                0 <= i < w.len() && in_star(a, #[trigger] w.take(i)) && accepts(a, w.skip(i));
            let t = choose|t: int|
                #![trigger run(a, a.starting, w.skip(i)).contains(t), a.finished.contains(t)]
                run(a, a.starting, w.skip(i)).contains(t) && a.finished.contains(t);
            assert(star_tail(a, w).contains(t) && p.finished.contains(t));
            assert(overlaps(star_tail(a, w), p.finished));
        }
    }
}

/// The iterated language is closed under concatenation.
proof fn lemma_in_star_concat(a: SpecNfa, u: Seq<char>, v: Seq<char>)
    requires
        in_star(a, u),
        in_star(a, v),
    ensures
        in_star(a, u + v),
    decreases v.len(),
{
    if v.len() == 0 {
        assert(u + v =~= u);
    } else {
        let i = choose|i: int|
            0 <= i < v.len() && in_star(a, #[trigger] v.take(i)) && accepts(a, v.skip(i));
        lemma_in_star_concat(a, u, v.take(i));
        let j = u.len() + i;
        assert((u + v).take(j) =~= u + v.take(i));
        assert((u + v).skip(j) =~= v.skip(i));
        assert(in_star(a, (u + v).take(j)) && accepts(a, (u + v).skip(j)));
    }
}

/// The empty-input automaton re-enters safely: it has no transitions at
/// all.
pub proof fn lemma_safe_reentry_empty()
    ensures
        safe_reentry(spec_empty()),
{
    let a = spec_empty();
    assert forall|v: Seq<char>|
        v.len() > 0 && overlaps(#[trigger] run(a, a.starting, v), a.starting) implies accepts(
        a,
        v,
    ) by {
        let t = choose|t: int|
            #![trigger run(a, a.starting, v).contains(t), a.starting.contains(t)]
            run(a, a.starting, v).contains(t) && a.starting.contains(t);
        assert(run(a, a.starting, v) == step(a, run(a, a.starting, v.drop_last()), v.last()));
        let i = choose|i: int|
            #[trigger] row_sends(a, run(a, a.starting, v.drop_last()), v.last(), i, t);
        assert(false);
    }
}

/// The single-symbol automaton re-enters safely: no transition leads back
/// to its starting state.
pub proof fn lemma_safe_reentry_unit(sym: Symbol)
    ensures
        safe_reentry(spec_unit(sym)),
{
    let a = spec_unit(sym);
    assert forall|v: Seq<char>|
        v.len() > 0 && overlaps(#[trigger] run(a, a.starting, v), a.starting) implies accepts(
        a,
        v,
    ) by {
        let t = choose|t: int|
            #![trigger run(a, a.starting, v).contains(t), a.starting.contains(t)]
            run(a, a.starting, v).contains(t) && a.starting.contains(t);
        assert(run(a, a.starting, v) == step(a, run(a, a.starting, v.drop_last()), v.last()));
        lemma_unit_step(sym, run(a, a.starting, v.drop_last()), v.last());
        assert(false);
    }
}

/// The disjoint union of two safely re-entering automata re-enters safely.
pub proof fn lemma_safe_reentry_plus(a: SpecNfa, b: SpecNfa)
    requires
        inv(a),
        inv(b),
        safe_reentry(a),
        safe_reentry(b),
    ensures
        safe_reentry(spec_plus(a, b)),
{
    let p = spec_plus(a, b);
    assert forall|v: Seq<char>|
        v.len() > 0 && overlaps(#[trigger] run(p, p.starting, v), p.starting) implies accepts(
        p,
        v,
    ) by {
        lemma_plus_run(a, b, a.starting, b.starting, v);
        lemma_run_in_range(a, a.starting, v);
        lemma_run_in_range(b, b.starting, v);
        lemma_overlaps_disjoint_union(
            a.states,
            b.states,
            run(a, a.starting, v),
            run(b, b.starting, v),
            a.starting,
            b.starting,
        );
        lemma_plus_language(a, b, v);
    }
}

/// The closure of a safely re-entering automaton re-enters safely too.
pub proof fn lemma_safe_reentry_star(a: SpecNfa)
    requires
        inv(a),
        safe_reentry(a),
        exists|t: int| a.starting.contains(t),
    ensures
        safe_reentry(spec_star(a)),
{
    let p = spec_star(a);
    assert forall|v: Seq<char>|
        v.len() > 0 && overlaps(#[trigger] run(p, p.starting, v), p.starting) implies accepts(
        p,
        v,
    ) by {
        lemma_star_run(a, v);
        let t = choose|t: int|
            #![trigger star_tail(a, v).contains(t), p.starting.contains(t)]
            star_tail(a, v).contains(t) && p.starting.contains(t);
        let i = choose|i: int|
            0 <= i <= v.len() && #[trigger] in_star(a, v.take(i)) && run(
                a,
                a.starting,
                v.skip(i),
            ).contains(t);
        if i == v.len() {
            assert(v.take(i) =~= v);
            assert(in_star(a, v));
        } else {
            assert(run(a, a.starting, v.skip(i)).contains(t) && a.starting.contains(t));
            assert(overlaps(run(a, a.starting, v.skip(i)), a.starting));
            assert(accepts(a, v.skip(i)));
            assert(in_star(a, v));
        }
        lemma_star_language(a, v);
    }
}

/// Iterating the closure's language iterates nothing new.
proof fn lemma_in_star_star(a: SpecNfa, w: Seq<char>)
    requires
        inv(a),
        safe_reentry(a),
        exists|t: int| a.starting.contains(t),
    ensures
        in_star(spec_star(a), w) == in_star(a, w),
    decreases w.len(),
{
    let p = spec_star(a);
    if w.len() > 0 {
        if in_star(a, w) {
            lemma_star_language(a, w);
            assert(w.take(0) =~= Seq::<char>::empty());
            assert(w.skip(0) =~= w);
            assert(in_star(p, w.take(0)) && accepts(p, w.skip(0)));
        }
        if in_star(p, w) {
            let i = choose|i: int|
                0 <= i < w.len() && in_star(p, #[trigger] w.take(i)) && accepts(p, w.skip(i));
            lemma_in_star_star(a, w.take(i));
            lemma_star_language(a, w.skip(i));
            lemma_in_star_concat(a, w.take(i), w.skip(i));
            assert(w.take(i) + w.skip(i) =~= w);
        }
    }
}

/// Applying the Kleene closure twice accepts the same inputs as applying
/// it once, for every automaton whose runs re-enter the starting states
/// only by closing an accepted round trip.
pub proof fn lemma_star_idempotent(a: SpecNfa, w: Seq<char>)
    requires
        inv(a),
        safe_reentry(a),
    ensures
        accepts(spec_star(spec_star(a)), w) == accepts(spec_star(a), w),
{
    let p = spec_star(a);
    lemma_inv_star(a);
    if exists|t: int| a.starting.contains(t) {
        lemma_safe_reentry_star(a);
        lemma_star_language(p, w);
        lemma_in_star_star(a, w);
        lemma_star_language(a, w);
    } else {
        assert(a.starting =~= Set::<int>::empty());
        lemma_run_from_empty(p, w);
        lemma_run_from_empty(spec_star(p), w);
        if overlaps(run(p, p.starting, w), p.finished) {
            let t = choose|t: int|
                #![trigger run(p, p.starting, w).contains(t), p.finished.contains(t)]
                run(p, p.starting, w).contains(t) && p.finished.contains(t);
            assert(false);
        }
        if overlaps(run(spec_star(p), spec_star(p).starting, w), spec_star(p).finished) {
            let t = choose|t: int|
                #![trigger
                    run(spec_star(p), spec_star(p).starting, w).contains(t),
                    spec_star(p).finished.contains(t)
                ]
                run(spec_star(p), spec_star(p).starting, w).contains(t) && spec_star(
                    p,
                ).finished.contains(t);
            assert(false);
        }
    }
}

/// Union of patterns is commutative at the language level.
pub proof fn lemma_plus_commutative(a: SpecNfa, b: SpecNfa, w: Seq<char>)
    requires
        inv(a),
        inv(b),
    ensures
        accepts(spec_plus(a, b), w) == accepts(spec_plus(b, a), w),
{
    lemma_plus_language(a, b, w);
    lemma_plus_language(b, a, w);
}

} // verus!
