use wabble::dict::{is_valid_word_chars, normalize_word, FstDictionary};
use wabble::gaddag::{Gaddag, SEPARATOR};

#[test]
fn normalize() {
    assert_eq!(normalize_word("  hello  "), "HELLO");
    assert_eq!(normalize_word("World"), "WORLD");
}

#[test]
fn valid_chars() {
    assert!(is_valid_word_chars("hello"));
    assert!(is_valid_word_chars("WORLD"));
    assert!(!is_valid_word_chars(""));
    assert!(!is_valid_word_chars("hello world"));
    assert!(!is_valid_word_chars("test123"));
    assert!(!is_valid_word_chars("hyphen-ated"));
}

#[test]
fn build_and_query() {
    let words = vec!["hello", "world", "HELLO", "test"];
    let bytes = FstDictionary::build(&words).unwrap();
    let dict = FstDictionary::from_bytes(bytes).unwrap();

    assert!(dict.contains("hello"));
    assert!(dict.contains("HELLO"));
    assert!(dict.contains("Hello"));
    assert!(dict.contains("world"));
    assert!(dict.contains("test"));
    assert!(!dict.contains("missing"));
    assert_eq!(dict.len(), 3); // hello, test, world (deduped)
}

#[test]
fn empty_and_whitespace_filtered() {
    let words = vec!["", "  ", "valid", " spaced "];
    let bytes = FstDictionary::build(&words).unwrap();
    let dict = FstDictionary::from_bytes(bytes).unwrap();

    assert!(dict.contains("valid"));
    assert!(dict.contains("spaced"));
    assert_eq!(dict.len(), 2);
}

#[test]
fn non_alpha_filtered() {
    let words = vec!["good", "bad-word", "also.bad", "fine"];
    let bytes = FstDictionary::build(&words).unwrap();
    let dict = FstDictionary::from_bytes(bytes).unwrap();

    assert!(dict.contains("good"));
    assert!(dict.contains("fine"));
    assert!(!dict.contains("bad-word"));
    assert_eq!(dict.len(), 2);
}

#[test]
fn build_and_traverse() {
    let words = vec!["CAT", "CAR", "CARE"];
    let bytes = Gaddag::build(&words).unwrap();
    let gaddag = Gaddag::from_bytes(bytes).unwrap();

    let c_node = gaddag.root().follow(b'C').unwrap();
    let sep_node = c_node.follow(SEPARATOR).unwrap();
    let a_node = sep_node.follow(b'A').unwrap();
    let t_node = a_node.follow(b'T').unwrap();
    assert!(t_node.is_terminal());
    let r_node = a_node.follow(b'R').unwrap();
    assert!(r_node.is_terminal());
    let e_node = r_node.follow(b'E').unwrap();
    assert!(e_node.is_terminal());
}

#[test]
fn reversed_prefix_traversal() {
    let words = vec!["CAT"];
    let bytes = Gaddag::build(&words).unwrap();
    let gaddag = Gaddag::from_bytes(bytes).unwrap();

    let node = gaddag.follow_path(&[b'T', b'A', b'C', SEPARATOR]);
    assert!(node.is_some());
    assert!(node.unwrap().is_terminal());

    let node = gaddag.follow_path(&[b'A', b'C', SEPARATOR, b'T']);
    assert!(node.is_some());
    assert!(node.unwrap().is_terminal());
}

#[test]
fn transitions_enumeration() {
    let words = vec!["CAT", "COT", "CUT"];
    let bytes = Gaddag::build(&words).unwrap();
    let gaddag = Gaddag::from_bytes(bytes).unwrap();

    let root_transitions = gaddag.root().transitions();
    assert!(!root_transitions.is_empty());

    let c_node = gaddag.root().follow(b'C').unwrap();
    let sep_node = c_node.follow(SEPARATOR).unwrap();
    let children: Vec<u8> = sep_node.transitions().iter().map(|(b, _)| *b).collect();
    assert!(children.contains(&b'A'));
    assert!(children.contains(&b'O'));
    assert!(children.contains(&b'U'));
}

#[test]
fn case_insensitive_build() {
    let words = vec!["cat", "Cat", "CAT"];
    let bytes = Gaddag::build(&words).unwrap();
    let gaddag = Gaddag::from_bytes(bytes).unwrap();

    let node = gaddag.follow_path(&[b'C', SEPARATOR, b'A', b'T']);
    assert!(node.is_some());
    assert!(node.unwrap().is_terminal());
}

#[test]
fn dictionary_rejects_short_bytes() {
    assert!(FstDictionary::from_bytes(vec![1, 2, 3]).is_err());
    assert!(Gaddag::from_bytes(vec![0; 10]).is_err());
}

#[test]
fn dictionary_counts_distinct_words() {
    let words = vec!["b", "a", "B", " a ", "c"];
    let dict = FstDictionary::from_bytes(FstDictionary::build(&words).unwrap()).unwrap();
    assert_eq!(dict.len(), 3);
    assert!(!dict.is_empty());
    let empty = FstDictionary::from_bytes(FstDictionary::build(&[]).unwrap()).unwrap();
    assert_eq!(empty.len(), 0);
    assert!(empty.is_empty());
    assert!(!empty.contains("a"));
}

#[test]
fn gaddag_transitions_are_sorted_and_lead_on() {
    let words = vec!["CARE"];
    let gaddag = Gaddag::from_bytes(Gaddag::build(&words).unwrap()).unwrap();
    let root: Vec<u8> = gaddag.root().transitions().iter().map(|(b, _)| *b).collect();
    assert_eq!(root, vec![b'A', b'C', b'E', b'R']);
    assert!(gaddag.root().has_edge(b'E'));
    assert!(!gaddag.root().has_edge(b'Z'));
    assert!(gaddag.follow_path(&[b'E', b'R', b'A', b'C', SEPARATOR]).unwrap().is_terminal());
    assert!(gaddag.follow_path(&[b'R', b'A', b'C', SEPARATOR, b'E']).unwrap().is_terminal());
    assert!(!gaddag.follow_path(&[b'R', b'A']).unwrap().is_terminal());
    assert!(gaddag.follow_path(&[b'C', b'A']).is_none());
    let single = Gaddag::from_bytes(Gaddag::build(&["A", "I"]).unwrap()).unwrap();
    assert!(single.root().transitions().is_empty());
}
