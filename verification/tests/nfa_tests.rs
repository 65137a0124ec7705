use nfa::empty;
use nfa::plus;
use nfa::star;
use nfa::times;
use nfa::unit;
use nfa::Symbol;
use nfa::NFA;

fn test_within_bounds(nfa: &NFA) {
    assert!(nfa.is_valid());
}

#[test]
fn test_empty() {
    let nfa = empty();
    test_within_bounds(&nfa);
    let stream = String::from("");
    assert!(nfa.is_match(&stream));
}

#[test]
fn test_nonempty_rejects() {
    let nfa = empty();
    test_within_bounds(&nfa);
    let stream = String::from("a");
    assert!(!nfa.is_match(&stream));
}

#[test]
fn test_single_char() {
    let nfa = unit(Symbol::Char('a'));
    test_within_bounds(&nfa);
    let stream = String::from("a");
    assert!(nfa.is_match(&stream));
}

#[test]
fn test_nonsinglechar_rejects() {
    let nfa = unit(Symbol::Char('a'));
    test_within_bounds(&nfa);
    let stream = String::from("aa");
    assert!(!nfa.is_match(&stream));
    let stream = String::from("");
    assert!(!nfa.is_match(&stream));
}

#[test]
fn test_times() {
    let nfa = times(&unit(Symbol::Char('a')), &unit(Symbol::Char('b')));
    test_within_bounds(&nfa);
    println!("NFA ab is {:?}", nfa);
    let mut stream = String::from("ab");
    assert!(nfa.is_match(&stream));
    stream = String::from("ba");
    assert!(!nfa.is_match(&stream));
    let another_nfa = times(&empty(), &nfa);
    stream = String::from("ab");
    println!("Another nfa is {:?}", another_nfa);
    assert!(another_nfa.is_match(&mut stream));
}

#[test]
fn test_plus() {
    let nfa = plus(
        &times(&unit(Symbol::Char('a')), &unit(Symbol::Char('b'))),
        &times(&unit(Symbol::Char('c')), &unit(Symbol::Char('d'))),
    );
    let stream1 = String::from("ab");
    let stream2 = String::from("cd");
    let stream3 = String::from("ac");
    let stream4 = String::from("cb");
    println!("The nfa is {:?}", nfa);
    assert!(nfa.is_match(&stream1));
    assert!(nfa.is_match(&stream2));
    assert!(!nfa.is_match(&stream3));
    assert!(!nfa.is_match(&stream4));
}

#[test]
fn test_star_simple() {
    let nfa = star(&unit(Symbol::Char('a')));
    test_within_bounds(&nfa);
    println!("NFA a* is {:?}", nfa);
    let stream = String::from("");
    assert!(nfa.is_match(&stream));
    let stream = String::from("a");
    assert!(nfa.is_match(&stream));
    let stream = String::from("aa");
    assert!(nfa.is_match(&stream));
    let stream = String::from("aba");
    assert!(!nfa.is_match(&stream));
    let nfa2 = times(
        &star(&times(&unit(Symbol::Char('a')), &unit(Symbol::Char('b')))),
        &unit(Symbol::Char('c')),
    );
    println!("NFA2 is {:?}", nfa2);
}

#[test]
fn test_star_with_plus_and_times() {
    let nfa = times(
        &star(&plus(&unit(Symbol::Char('a')), &unit(Symbol::Char('b')))),
        &star(&unit(Symbol::Char('c'))),
    );
    let nfa2 = star(&times(&unit(Symbol::Char('a')), &unit(Symbol::Char('b'))));
    println!("NFA (ab)* is {:?}", nfa2);
    println!("NFA (ab)*c is {:?}", times(&nfa2, &unit(Symbol::Char('c'))));
    let stream = String::from("ab");
    assert!(!times(&nfa2, &unit(Symbol::Char('c'))).is_match(&stream));
    let stream = String::from("ababababc");
    assert!(times(&nfa2, &unit(Symbol::Char('c'))).is_match(&stream));
    println!("The nfa is {:?}", nfa);
    test_within_bounds(&nfa);
    test_within_bounds(&nfa2);
    let stream1 = String::from("a");
    let stream2 = String::from("abababbbaba");
    let stream3 = String::from("abababbbabaccc");
    let stream4 = String::from("ababaaaababbaccbc");
    assert!(nfa.is_match(&stream1));
    assert!(nfa.is_match(&stream2));
    assert!(nfa.is_match(&stream3));
    assert!(!nfa.is_match(&stream4));
}
