use dnfa::automaton::Automaton;
use dnfa::nfa::NFA;

static BASIC_DICTIONARY: &'static [&'static str] = &["a", "ab", "bab", "bc", "bca", "c", "caa"];

fn dictionary(words: &[&str]) -> Vec<Vec<u8>> {
    words.iter().map(|w| w.as_bytes().to_vec()).collect()
}

fn haystack_same(letter: char) -> String {
    std::iter::repeat(letter).take(10000).collect()
}

#[test]
fn basic() {
    let nfa = NFA::from_dictionary(dictionary(BASIC_DICTIONARY));
    for (patt_no, &word) in BASIC_DICTIONARY.iter().enumerate() {
        assert!(nfa.apply(word.as_bytes()).contains(&patt_no));
    }
    assert!(nfa.apply("bbc".as_bytes()).is_empty());
    assert!(nfa.apply("abb".as_bytes()).is_empty());
}

#[test]
fn nfa_basic_ignore_prefixes() {
    let mut nfa = NFA::from_dictionary(dictionary(BASIC_DICTIONARY));
    nfa.ignore_prefixes();
    for (patt_no, &word) in BASIC_DICTIONARY.iter().enumerate() {
        assert!(nfa.apply(word.as_bytes()).contains(&patt_no));
    }
    assert!(!nfa.apply("bbc".as_bytes()).is_empty());
    assert!(nfa.apply("abb".as_bytes()).is_empty());
}

#[test]
fn nfa_basic_ignore_postfixes() {
    let mut nfa = NFA::from_dictionary(dictionary(BASIC_DICTIONARY));
    nfa.ignore_postfixes();
    for (patt_no, &word) in BASIC_DICTIONARY.iter().enumerate() {
        assert!(nfa.apply(word.as_bytes()).contains(&patt_no));
    }
    assert!(nfa.apply("bbc".as_bytes()).is_empty());
    assert!(!nfa.apply("abb".as_bytes()).is_empty());
}

#[test]
fn nfa_basic_ignore_pre_postfixes() {
    let mut nfa = NFA::from_dictionary(dictionary(BASIC_DICTIONARY));
    nfa.ignore_prefixes();
    nfa.ignore_postfixes();
    for (patt_no, &word) in BASIC_DICTIONARY.iter().enumerate() {
        assert!(nfa.apply(word.as_bytes()).contains(&patt_no));
    }
    assert!(!nfa.apply("bbc".as_bytes()).is_empty());
    assert!(!nfa.apply("abb".as_bytes()).is_empty());
}

#[test]
fn nfa_basic_ignore_pre_postfixes_order() {
    let mut nfa = NFA::from_dictionary(dictionary(BASIC_DICTIONARY));
    nfa.ignore_postfixes();
    nfa.ignore_prefixes();
    for (patt_no, &word) in BASIC_DICTIONARY.iter().enumerate() {
        assert!(nfa.apply(word.as_bytes()).contains(&patt_no));
    }
    assert!(!nfa.apply("bbc".as_bytes()).is_empty());
    assert!(!nfa.apply("abb".as_bytes()).is_empty());
}

#[test]
fn basic_powerset() {
    let nfa = NFA::from_dictionary(dictionary(BASIC_DICTIONARY)).powerset_construction();
    for (patt_no, &word) in BASIC_DICTIONARY.iter().enumerate() {
        assert!(nfa.apply(word.as_bytes()).contains(&patt_no));
    }
    assert!(nfa.apply("bbc".as_bytes()).is_empty());
    assert!(nfa.apply("abb".as_bytes()).is_empty());
}

#[test]
fn basic_powerset_ignore_prefixes() {
    let mut nfa = NFA::from_dictionary(dictionary(BASIC_DICTIONARY)).powerset_construction();
    nfa.ignore_prefixes();
    for (patt_no, &word) in BASIC_DICTIONARY.iter().enumerate() {
        assert!(nfa.apply(word.as_bytes()).contains(&patt_no));
    }
    assert!(!nfa.apply("bbc".as_bytes()).is_empty());
    assert!(nfa.apply("abb".as_bytes()).is_empty());
}

#[test]
fn basic_powerset_ignore_postfixes() {
    let mut nfa = NFA::from_dictionary(dictionary(BASIC_DICTIONARY)).powerset_construction();
    nfa.ignore_postfixes();
    for (patt_no, &word) in BASIC_DICTIONARY.iter().enumerate() {
        assert!(nfa.apply(word.as_bytes()).contains(&patt_no));
    }
    assert!(nfa.apply("bbc".as_bytes()).is_empty());
    assert!(!nfa.apply("abb".as_bytes()).is_empty());
}

#[test]
fn basic_powerset_ignore_pre_postfixes() {
    let mut nfa = NFA::from_dictionary(dictionary(BASIC_DICTIONARY)).powerset_construction();
    nfa.ignore_prefixes();
    nfa.ignore_postfixes();
    for (patt_no, &word) in BASIC_DICTIONARY.iter().enumerate() {
        assert!(nfa.apply(word.as_bytes()).contains(&patt_no));
    }
    assert!(!nfa.apply("bbc".as_bytes()).is_empty());
    assert!(!nfa.apply("abb".as_bytes()).is_empty());
}

#[test]
fn basic_powerset_ignore_pre_postfixes_order() {
    let mut nfa = NFA::from_dictionary(dictionary(BASIC_DICTIONARY)).powerset_construction();
    nfa.ignore_postfixes();
    nfa.ignore_prefixes();
    for (patt_no, &word) in BASIC_DICTIONARY.iter().enumerate() {
        assert!(nfa.apply(word.as_bytes()).contains(&patt_no));
    }
    assert!(!nfa.apply("bbc".as_bytes()).is_empty());
    assert!(!nfa.apply("abb".as_bytes()).is_empty());
}

#[test]
fn nfa_from_bench_basic_one_byte() {
    let needles = vec!["a"];
    let haystack = &haystack_same('z');

    let mut nfa = NFA::from_dictionary(dictionary(&needles));
    nfa.ignore_prefixes();
    let dnfa: &NFA = &nfa.powerset_construction();

    assert!(Automaton::find(dnfa, haystack.as_bytes()).next().is_none());
}
