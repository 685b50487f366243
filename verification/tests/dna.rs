//! Tests of the symbol sequence: front edits, clamped slicing and the
//! naive substring search.

use endo::DNA;
use endo::Base;

#[test]
fn test_drop() {
    let mut dna = DNA::from_str("ICFP");
    dna.drop(2);
    assert_eq!(dna, DNA::from_str("FP"));
    dna.drop(0);
    assert_eq!(dna, DNA::from_str("FP"));
    dna.drop(3);
    assert_eq!(dna, DNA::from_str(""));
}

#[test]
fn test_subseq() {
    let dna = DNA::from_str("ICFP");
    assert_eq!(dna.subseq(0, 1), DNA::from_str("I"));
    assert_eq!(dna.subseq(1, 3), DNA::from_str("CF"));
    assert_eq!(dna.subseq(3, 5), DNA::from_str("P"));
    assert_eq!(dna.subseq(5, 3), DNA::from_str(""));
    assert_eq!(dna.subseq(3, 3), DNA::from_str(""));
    assert_eq!(dna.subseq(3, 0), DNA::from_str(""));
}

#[test]
fn test_find_first() {
    let dna = DNA::from_str("I IC ICF ICF");
    assert_eq!(dna.find_first(&DNA::from_str(""), 0), Some(0));

    assert_eq!(dna.find_first(&DNA::from_str("C"), 0), Some(3));
    assert_eq!(dna.find_first(&DNA::from_str("C"), 2), Some(3));
    assert_eq!(dna.find_first(&DNA::from_str("C"), 3), Some(5));
    assert_eq!(dna.find_first(&DNA::from_str("P"), 0), None);

    assert_eq!(dna.find_first(&DNA::from_str("IC"), 0), Some(3));
    assert_eq!(dna.find_first(&DNA::from_str("IC"), 1), Some(3));
    assert_eq!(dna.find_first(&DNA::from_str("IC"), 2), Some(5));

    assert_eq!(dna.find_first(&DNA::from_str("ICF"), 0), Some(6));
    assert_eq!(dna.find_first(&DNA::from_str("ICF"), 4), Some(9));
    assert_eq!(dna.find_first(&DNA::from_str("F"), 6), Some(9));
    assert_eq!(dna.find_first(&DNA::from_str("CF"), 6), Some(9));
    assert_eq!(dna.find_first(&DNA::from_str("FICF"), 0), Some(9));
    assert_eq!(dna.find_first(&DNA::from_str("F"), 8), Some(9));
    assert_eq!(dna.find_first(&DNA::from_str("F"), 9), None);
    assert_eq!(dna.find_first(&DNA::from_str("F"), 10), None);
}

#[test]
fn test_from_str_drops_unknown() {
    // Characters outside the alphabet are dropped silently during ingestion.
    assert_eq!(DNA::from_str("xI9C\nF P!"), DNA::from_str("ICFP"));
    assert_eq!(DNA::from_str("hello"), DNA::from_str(""));
    assert_eq!(DNA::from_str("").len(), 0);
}

#[test]
fn test_to_ascii_round_trip() {
    assert_eq!(DNA::from_str("ICFP").to_ascii(), b"ICFP".to_vec());
    assert_eq!(DNA::from_str("").to_ascii(), Vec::<u8>::new());
}

#[test]
fn test_sequence_edits() {
    // Front and back edits, concatenation, element access.
    let mut dna = DNA::from_str("CF");
    dna.prepend(Base::I);
    dna.append(Base::P);
    assert_eq!(dna, DNA::from_str("ICFP"));
    assert_eq!(dna.len(), 4);
    assert_eq!(dna.at(0), Some(Base::I));
    assert_eq!(dna.at(3), Some(Base::P));
    assert_eq!(dna.at(4), None);
    assert_eq!(dna.peek(), Some(Base::I));
    assert_eq!(dna.pop(), Some(Base::I));
    assert_eq!(dna, DNA::from_str("CFP"));

    let mut lhs = DNA::from_str("IC");
    lhs.concat(DNA::from_str("FP"));
    assert_eq!(lhs, DNA::from_str("ICFP"));

    let mut empty = DNA::from_str("");
    assert_eq!(empty.pop(), None);
    assert_eq!(empty.peek(), None);

    // A copy shares structure but edits never alias.
    let original = DNA::from_str("ICF");
    let mut copy = original.dup();
    copy.append(Base::P);
    assert_eq!(original, DNA::from_str("ICF"));
    assert_eq!(copy, DNA::from_str("ICFP"));

    let mut assigned = DNA::from_str("PPP");
    assigned.assign(DNA::from_str("IC"));
    assert_eq!(assigned, DNA::from_str("IC"));
}

#[test]
fn test_base_chars() {
    assert_eq!(Base::from_char('I'), Some(Base::I));
    assert_eq!(Base::from_char('C'), Some(Base::C));
    assert_eq!(Base::from_char('F'), Some(Base::F));
    assert_eq!(Base::from_char('P'), Some(Base::P));
    assert_eq!(Base::from_char('x'), None);
    assert_eq!(Base::I.to_char(), 'I');
    assert_eq!(Base::P.to_char(), 'P');
}
