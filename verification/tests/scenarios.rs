use nfa::empty;
use nfa::plus;
use nfa::star;
use nfa::times;
use nfa::unit;
use nfa::Symbol;

fn ch(c: char) -> nfa::NFA {
    unit(Symbol::Char(c))
}

#[test]
fn literal_matches_only_itself() {
    let a = ch('a');
    assert!(a.is_match(&String::from("a")));
    assert!(!a.is_match(&String::from("aa")));
    assert!(!a.is_match(&String::from("")));
    assert!(!a.is_match(&String::from("b")));
}

#[test]
fn concat_of_two_literals() {
    let ab = times(&ch('a'), &ch('b'));
    assert!(ab.is_match(&String::from("ab")));
    assert!(!ab.is_match(&String::from("ba")));
}

#[test]
fn union_of_two_concats() {
    let p = plus(&times(&ch('a'), &ch('b')), &times(&ch('c'), &ch('d')));
    assert!(p.is_match(&String::from("ab")));
    assert!(p.is_match(&String::from("cd")));
    assert!(!p.is_match(&String::from("ac")));
    assert!(!p.is_match(&String::from("cb")));
}

#[test]
fn star_of_literal() {
    let s = star(&ch('a'));
    assert!(s.is_match(&String::from("")));
    assert!(s.is_match(&String::from("a")));
    assert!(s.is_match(&String::from("aa")));
    assert!(!s.is_match(&String::from("aba")));
}

#[test]
fn concat_of_two_stars() {
    let p = times(&star(&times(&ch('a'), &ch('b'))), &star(&ch('c')));
    assert!(p.is_match(&String::from("ababab")));
    assert!(p.is_match(&String::from("ababccc")));
    assert!(!p.is_match(&String::from("abb")));
}

#[test]
fn wildcard_matches_any_single_element() {
    let any2 = times(&unit(Symbol::Wild), &unit(Symbol::Wild));
    assert!(!any2.is_match(&String::from("a")));
    assert!(any2.is_match(&String::from("ab")));
    assert!(any2.is_match(&String::from("xy")));
    assert!(!any2.is_match(&String::from("abc")));
    let anyb = times(&unit(Symbol::Wild), &ch('b'));
    assert!(anyb.is_match(&String::from("ab")));
    assert!(anyb.is_match(&String::from("zb")));
    assert!(!anyb.is_match(&String::from("ba")));
}

#[test]
fn empty_input_needs_starting_and_finished_overlap() {
    assert!(empty().is_match(&String::from("")));
    assert!(star(&ch('a')).is_match(&String::from("")));
    assert!(!ch('a').is_match(&String::from("")));
    assert!(!times(&ch('a'), &star(&ch('b'))).is_match(&String::from("")));
    assert!(times(&star(&ch('a')), &star(&ch('b'))).is_match(&String::from("")));
}

#[test]
fn concat_is_associative_on_samples() {
    let left = times(&times(&ch('a'), &ch('b')), &ch('c'));
    let right = times(&ch('a'), &times(&ch('b'), &ch('c')));
    for s in ["abc", "ab", "abcc", "", "cba"] {
        let s = String::from(s);
        assert_eq!(left.is_match(&s), right.is_match(&s));
    }
    let left = times(&times(&star(&ch('a')), &ch('b')), &star(&ch('c')));
    let right = times(&star(&ch('a')), &times(&ch('b'), &star(&ch('c'))));
    for s in ["b", "aab", "bcc", "aabcc", "aacc", ""] {
        let s = String::from(s);
        assert_eq!(left.is_match(&s), right.is_match(&s));
    }
}

#[test]
fn union_is_commutative_on_samples() {
    let x = times(&ch('a'), &ch('b'));
    let y = star(&ch('c'));
    let xy = plus(&x, &y);
    let yx = plus(&y, &x);
    for s in ["ab", "", "c", "ccc", "abc", "ba"] {
        let s = String::from(s);
        assert_eq!(xy.is_match(&s), yx.is_match(&s));
    }
}

#[test]
fn star_is_idempotent_on_samples() {
    let a = times(&ch('a'), &ch('b'));
    let once = star(&a);
    let twice = star(&star(&a));
    for s in ["", "ab", "abab", "a", "ba", "aab"] {
        let s = String::from(s);
        assert_eq!(once.is_match(&s), twice.is_match(&s));
    }
}

// A run of this operand re-enters a starting state on an input it does not
// accept, so its closure already accepts more than the iterated language,
// and closing it twice accepts yet more.  This pins down the construction's
// behaviour on such operands.
#[test]
fn star_of_star_differs_without_safe_reentry() {
    let c = times(&star(&unit(Symbol::Char('a'))), &unit(Symbol::Char('b')));
    let d = plus(&star(&c), &unit(Symbol::Char('c')));
    let e = times(&d, &unit(Symbol::Char('d')));
    let once = star(&e);
    let twice = star(&star(&e));
    let s = String::from("acd");
    assert!(!once.is_match(&s));
    assert!(twice.is_match(&s));
}
