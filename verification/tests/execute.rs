//! Tests of the encodings, the parsers and the match-replace engine,
//! including the literal scenarios of the rewriting language.

use endo::{asnat, consts, decode_nat, matchreplace, pattern, protect, quote, replace, step,
    template, Base, Finish, PItem, TItem, DNA};

#[test]
fn test_nat() {
    assert_eq!(decode_nat(&mut DNA::from_str("P")), Ok(0));
    assert_eq!(decode_nat(&mut DNA::from_str("IP")), Ok(0));
    assert_eq!(decode_nat(&mut DNA::from_str("CP")), Ok(1));
    assert_eq!(decode_nat(&mut DNA::from_str("ICFCP")), Ok(2 | 8));
    assert_eq!(decode_nat(&mut DNA::from_str("ICFCIIIIP")), Ok(2 | 8));
    assert_eq!(decode_nat(&mut DNA::from_str("CIICICP")), Ok(1 | 8 | 32));
}

#[test]
fn test_nat_finish() {
    // Running out of symbols before the terminator is the termination
    // signal; the sequence is consumed entirely.
    let mut dna = DNA::from_str("ICFC");
    assert_eq!(decode_nat(&mut dna), Err(Finish));
    assert_eq!(dna, DNA::from_str(""));
    assert_eq!(decode_nat(&mut DNA::from_str("")), Err(Finish));
}

#[test]
fn test_consts() {
    assert_eq!(consts(&mut DNA::from_str("")), DNA::from_str(""));

    let mut dna = DNA::from_str("CFPIC");
    assert_eq!(consts(&mut dna), DNA::from_str("ICFP"));
    assert_eq!(dna, DNA::from_str(""));

    // Restoration of one symbol
    let mut dna = DNA::from_str("CFI");
    assert_eq!(consts(&mut dna), DNA::from_str("IC"));
    assert_eq!(dna, DNA::from_str("I"));

    // Restoration of two symbols at the end of the sequence
    let mut dna = DNA::from_str("CFIF");
    assert_eq!(consts(&mut dna), DNA::from_str("IC"));
    assert_eq!(dna, DNA::from_str("IF"));

    // Restoration of two symbols before the end of the sequence
    let mut dna = DNA::from_str("CFIPC");
    assert_eq!(consts(&mut dna), DNA::from_str("IC"));
    assert_eq!(dna, DNA::from_str("IPC"));
}

#[test]
fn test_pattern() {
    let mut rna: Vec<DNA> = Vec::new();

    // A single literal, consuming exactly the four symbols.
    assert_eq!(
        pattern(&mut DNA::from_str("CIIC"), &mut rna),
        Ok(vec![PItem::Base(Base::I)])
    );

    assert_eq!(
        pattern(&mut DNA::from_str("IIP IPICP IIC IC IIF"), &mut rna),
        Ok(vec![
            PItem::Open(),
            PItem::Skip(2),
            PItem::Close(),
            PItem::Base(Base::P)
        ])
    );

    // The search form is always followed by one ignored symbol.  Then come
    // escaped literal symbols, ended by a two-symbol form that doubles as
    // the start of the next pattern item.
    assert_eq!(
        pattern(&mut DNA::from_str("IFC() IP(P) IIF"), &mut rna),
        Ok(vec![PItem::Search(DNA::from_str("")), PItem::Skip(0)])
    );

    // The same with a non-trivial literal needle.
    assert_eq!(
        pattern(&mut DNA::from_str("IFI(C F P IC) IP(CP) IIF"), &mut rna),
        Ok(vec![PItem::Search(DNA::from_str("ICFP")), PItem::Skip(1)])
    );
    assert!(rna.is_empty());

    // The escape form delivers exactly one seven-symbol chunk, in order.
    let t = pattern(&mut DNA::from_str("P III(ICFPICF) IC IIC"), &mut rna);
    assert_eq!(t, Ok(vec![PItem::Base(Base::F), PItem::Base(Base::P)]));
    assert_eq!(rna, vec![DNA::from_str("ICFPICF")]);
}

#[test]
fn test_pattern_finish() {
    let mut rna: Vec<DNA> = Vec::new();
    assert_eq!(pattern(&mut DNA::from_str(""), &mut rna), Err(Finish));
    assert_eq!(pattern(&mut DNA::from_str("C F P"), &mut rna), Err(Finish));
    assert!(rna.is_empty());
}

#[test]
fn test_template() {
    let mut rna: Vec<DNA> = Vec::new();
    assert_eq!(template(&mut DNA::from_str(""), &mut rna), Err(Finish));

    assert_eq!(
        template(&mut DNA::from_str("IF(P,CP) IIP(ICP) IIF"), &mut rna),
        Ok(vec![TItem::Ref { l: 0, n: 1 }, TItem::RefLen(2)])
    );
    assert!(rna.is_empty());

    let t = template(&mut DNA::from_str("C III(ICFPICF) F IIC"), &mut rna);
    assert_eq!(t, Ok(vec![TItem::Base(Base::I), TItem::Base(Base::C)]));
    assert_eq!(rna, vec![DNA::from_str("ICFPICF")]);
}

#[test]
fn test_asnat() {
    assert_eq!(decode_nat(&mut asnat(0)), Ok(0));
    assert_eq!(decode_nat(&mut asnat(1)), Ok(1));
    assert_eq!(decode_nat(&mut asnat(2)), Ok(2));
    assert_eq!(decode_nat(&mut asnat(9)), Ok(9));
    assert_eq!(decode_nat(&mut asnat(9384)), Ok(9384));
}

#[test]
fn test_asnat_exact() {
    // Bits from least significant up, then the terminator.
    assert_eq!(asnat(0), DNA::from_str("P"));
    assert_eq!(asnat(1), DNA::from_str("CP"));
    assert_eq!(asnat(2), DNA::from_str("ICP"));
    assert_eq!(asnat(5), DNA::from_str("CICP"));
}

#[test]
fn test_quote() {
    assert_eq!(quote(DNA::from_str("ICFP")), DNA::from_str("CFPIC"));
    assert_eq!(quote(DNA::from_str("IICCFFPP")), DNA::from_str("CCFFPPICIC"));
}

#[test]
fn test_protect() {
    assert_eq!(protect(0, DNA::from_str("ICFP")), DNA::from_str("ICFP"));
    let l1 = protect(1, DNA::from_str("ICFP"));
    assert_eq!(l1, DNA::from_str("CFPIC"));
    assert_eq!(protect(2, DNA::from_str("ICFP")), protect(1, l1));
    assert_eq!(protect(2, DNA::from_str("ICFP")), DNA::from_str("FPICCF"));
}

#[test]
fn test_protect_levels_add() {
    // Protecting twice is protecting once by the sum of the levels.
    let s = "IIPICFPCC";
    assert_eq!(
        protect(1, protect(2, DNA::from_str(s))),
        protect(3, DNA::from_str(s))
    );
    assert_eq!(
        protect(4, protect(0, DNA::from_str(s))),
        protect(4, DNA::from_str(s))
    );
}

#[test]
fn test_step() {
    let mut dna = DNA::from_str("IIPIPICPIICICIIFICCIFPPIICCFPC");
    let mut rna_sink: Vec<DNA> = Vec::new();
    let _ = step(&mut dna, &mut rna_sink);
    assert_eq!(dna, DNA::from_str("PICFC"));

    let mut dna = DNA::from_str("IIPIPICPIICICIIFICCIFCCCPPIICCFPC");
    let mut rna_sink: Vec<DNA> = Vec::new();
    let _ = step(&mut dna, &mut rna_sink);
    assert_eq!(dna, DNA::from_str("PIICCFCFFPC"));

    let mut dna = DNA::from_str("IIPIPIICPIICIICCIICFCFC");
    let mut rna_sink: Vec<DNA> = Vec::new();
    let _ = step(&mut dna, &mut rna_sink);
    assert_eq!(dna, DNA::from_str("I"));
}

#[test]
fn test_halt_without_rna() {
    // An input with no decodable pattern/template at all halts the whole
    // interpreter immediately, with zero chunks emitted.
    for garbage in ["", "F", "CFP", "IIC", "CIICIF"] {
        let mut dna = DNA::from_str(garbage);
        let mut rna: Vec<DNA> = Vec::new();
        let mut steps: u32 = 0;
        while step(&mut dna, &mut rna).is_ok() {
            steps += 1;
        }
        assert_eq!(steps, 0, "input {:?} should halt at once", garbage);
        assert!(rna.is_empty());
    }
}

#[test]
fn test_emission_before_halt_is_kept() {
    // A chunk emitted by the escape form is delivered even when the same
    // parse then runs off the end and halts the program.
    let mut dna = DNA::from_str("III ICFPICF");
    let mut rna: Vec<DNA> = Vec::new();
    assert_eq!(step(&mut dna, &mut rna), Err(Finish));
    assert_eq!(rna, vec![DNA::from_str("ICFPICF")]);
}

#[test]
fn test_run_until_halt() {
    // The first governing example rewrites once, then the next parse runs
    // off the end: one successful step, no chunks.
    let mut dna = DNA::from_str("IIPIPICPIICICIIFICCIFPPIICCFPC");
    let mut rna: Vec<DNA> = Vec::new();
    let mut steps: u32 = 0;
    while step(&mut dna, &mut rna).is_ok() {
        steps += 1;
    }
    assert_eq!(steps, 1);
    assert!(rna.is_empty());
}

#[test]
fn test_matchreplace_abort_keeps_sequence() {
    // A literal mismatch aborts the cycle with no mutation.
    let mut dna = DNA::from_str("ICFP");
    matchreplace(&mut dna, vec![PItem::Base(Base::C)], vec![TItem::Base(Base::P)]);
    assert_eq!(dna, DNA::from_str("ICFP"));

    // A skip past the end aborts too.
    let mut dna = DNA::from_str("IC");
    matchreplace(&mut dna, vec![PItem::Skip(3)], vec![]);
    assert_eq!(dna, DNA::from_str("IC"));
}

#[test]
fn test_replace_builds_from_environment() {
    // Group 0, protected once, then the encoded length of group 1.
    let env = vec![DNA::from_str("ICF"), DNA::from_str("PP")];
    let built = replace(
        vec![
            TItem::Ref { n: 0, l: 1 },
            TItem::Base(Base::I),
            TItem::RefLen(1),
        ],
        env,
    );
    assert_eq!(built, Some(DNA::from_str("CFP I ICP")));
}
