//! The pattern and template parsers.
//!
//! Both parsers consume symbols destructively from the front of the
//! sequence, build an instruction list, and emit a seven-symbol chunk on
//! the side channel whenever the escape form is decoded.  Running out of
//! symbols mid-parse is the termination signal of the whole program; the
//! sequence is then left in whatever partially consumed state it reached.

use vstd::prelude::*;
use crate::dna::{Base, DNA};
use crate::codec::{decode_nat, nat_clamp, nat_has_term, nat_used, Finish};

verus! {

/// One pattern instruction.
#[derive(PartialEq, Debug)]
pub enum PItem {
    /// Match one literal symbol.
    Base(Base),
    /// Advance the cursor by a fixed count.
    Skip(usize),
    /// Advance the cursor past the next occurrence of a constant needle.
    Search(DNA),
    /// Open a capture group at the cursor.
    Open(),
    /// Close the most recently opened group, capturing it.
    Close(),
}

/// A parsed pattern.
pub type Pattern = Vec<PItem>;

/// One template instruction.
#[derive(Clone, Copy, PartialEq, Debug)]
pub enum TItem {
    /// Emit one literal symbol.
    Base(Base),
    /// Emit captured group `n`, protected `l` times.
    Ref { n: usize, l: usize },
    /// Emit the encoded length of captured group `n`.
    RefLen(usize),
}

/// A parsed template.
pub type Template = Vec<TItem>;

/// The mathematical form of a pattern instruction.
#[verifier::ext_equal]
pub enum SpecPItem {
    Base(Base),
    Skip(nat),
    Search(Seq<Base>),
    Open,
    Close,
}

/// The mathematical form of a template instruction.
#[verifier::ext_equal]
pub enum SpecTItem {
    Base(Base),
    Ref { n: nat, l: nat },
    RefLen(nat),
}

impl View for PItem {
    type V = SpecPItem;

    open spec fn view(&self) -> SpecPItem {
        match self {
            PItem::Base(b) => SpecPItem::Base(*b),
            PItem::Skip(n) => SpecPItem::Skip(*n as nat),
            PItem::Search(d) => SpecPItem::Search(d@),
            PItem::Open() => SpecPItem::Open,
            PItem::Close() => SpecPItem::Close,
        }
    }
}

impl View for TItem {
    type V = SpecTItem;

    open spec fn view(&self) -> SpecTItem {
        match self {
            TItem::Base(b) => SpecTItem::Base(*b),
            TItem::Ref { n, l } => SpecTItem::Ref { n: *n as nat, l: *l as nat },
            TItem::RefLen(n) => SpecTItem::RefLen(*n as nat),
        }
    }
}

/// The instructions a pattern denotes.
pub open spec fn pattern_model(p: Seq<PItem>) -> Seq<SpecPItem> {
    p.map_values(|x: PItem| x@)
}

/// The instructions a template denotes.
pub open spec fn template_model(t: Seq<TItem>) -> Seq<SpecTItem> {
    t.map_values(|x: TItem| x@)
}

/// The symbol sequences a chunk list denotes.
pub open spec fn chunks(v: Seq<DNA>) -> Seq<Seq<Base>> {
    v.map_values(|d: DNA| d@)
}

/// What the constant-sequence sub-decoder returns: literal rotations as in
/// the pattern parser, stopping at the first `I` not followed by `C`.
pub open spec fn consts_result(s: Seq<Base>) -> Seq<Base>
    decreases s.len(),
{
    if s.len() == 0 {
        Seq::empty()
    } else {
        match s[0] {
            Base::C => seq![Base::I] + consts_result(s.skip(1)),
            Base::F => seq![Base::C] + consts_result(s.skip(1)),
            Base::P => seq![Base::F] + consts_result(s.skip(1)),
            Base::I => if s.len() >= 2 && s[1] == Base::C {
                seq![Base::P] + consts_result(s.skip(2))
            } else {
                Seq::empty()
            },
        }
    }
}

/// What the constant-sequence sub-decoder leaves of the sequence: the
/// stopping `I` and whatever follows it are restored exactly.
pub open spec fn consts_rest(s: Seq<Base>) -> Seq<Base>
    decreases s.len(),
{
    if s.len() == 0 {
        Seq::empty()
    } else {
        match s[0] {
            Base::I => if s.len() >= 2 && s[1] == Base::C {
                consts_rest(s.skip(2))
            } else {
                s
            },
            _ => consts_rest(s.skip(1)),
        }
    }
}

/// The sub-decoder never leaves more symbols than it was given.
pub proof fn lemma_consts_rest_len(s: Seq<Base>)
    ensures
        consts_rest(s).len() <= s.len(),
    decreases s.len(),
{
    if s.len() > 0 {
        match s[0] {
            Base::I => {
                if s.len() >= 2 && s[1] == Base::C {
                    lemma_consts_rest_len(s.skip(2));
                }
            },
            _ => {
                lemma_consts_rest_len(s.skip(1));
            },
        }
    }
}

/// The decode consumes at least the terminator and at most everything;
/// without a terminator it consumes everything.
pub proof fn lemma_nat_used_len(s: Seq<Base>)
    ensures
        nat_used(s) <= s.len(),
        nat_has_term(s) ==> nat_used(s) >= 1,
        !nat_has_term(s) ==> nat_used(s) == s.len(),
    decreases s.len(),
{
    if s.len() > 0 && s[0] != Base::P {
        lemma_nat_used_len(s.skip(1));
    }
}

/// Decode a constant symbol sequence (the needle of a search instruction).
/// The decoder reads one symbol ahead past the end of the constant; the
/// lookahead is pushed back onto the front of the sequence in its original
/// order before returning.
pub fn consts(dna: &mut DNA) -> (r: DNA)
    ensures
        r@ == consts_result(old(dna)@),
        final(dna)@ == consts_rest(old(dna)@),
        final(dna)@.len() <= old(dna)@.len(),
{
    let ghost orig = dna@;
    let cap = dna.len();
    let mut acc = DNA::default();
    proof {
        assert(orig.len() == cap as nat);
    }
    proof {
        assert(Seq::<Base>::empty() + consts_result(orig) =~= consts_result(orig));
    }
    loop
        invariant
            orig.len() <= usize::MAX,
            acc@.len() + dna@.len() <= orig.len(),
            consts_result(orig) == acc@ + consts_result(dna@),
            consts_rest(orig) == consts_rest(dna@),
        decreases dna@.len(),
    {
        let ghost pre = dna@;
        let ghost pre_acc = acc@;
        match dna.pop() {
            None => {
                proof {
                    assert(pre.len() == 0);
                    assert(consts_result(orig) =~= acc@);
                }
                return acc;
            },
            Some(Base::C) => {
                acc.append(Base::I);
                proof {
                    assert(pre_acc + (seq![Base::I] + consts_result(dna@)) =~= acc@
                        + consts_result(dna@));
                }
            },
            Some(Base::F) => {
                acc.append(Base::C);
                proof {
                    assert(pre_acc + (seq![Base::C] + consts_result(dna@)) =~= acc@
                        + consts_result(dna@));
                }
            },
            Some(Base::P) => {
                acc.append(Base::F);
                proof {
                    assert(pre_acc + (seq![Base::F] + consts_result(dna@)) =~= acc@
                        + consts_result(dna@));
                }
            },
            Some(Base::I) => {
                let ghost mid = dna@;
                match dna.pop() {
                    Some(Base::C) => {
                        acc.append(Base::P);
                        proof {
                            assert(pre.skip(1).skip(1) =~= pre.skip(2));
                            assert(pre_acc + (seq![Base::P] + consts_result(dna@)) =~= acc@
                                + consts_result(dna@));
                        }
                    },
                    Some(b) => {
                        // Read two symbols too far: restore both.
                        dna.prepend(b);
                        dna.prepend(Base::I);
                        proof {
                            assert(seq![Base::I] + (seq![b] + pre.skip(2)) =~= pre);
                            assert(consts_result(pre) =~= Seq::<Base>::empty());
                            assert(consts_result(orig) =~= acc@);
                        }
                        return acc;
                    },
                    None => {
                        // Read one symbol too far at the end: restore it.
                        dna.prepend(Base::I);
                        proof {
                            assert(mid.len() == 0);
                            assert(seq![Base::I] + mid =~= pre);
                            assert(pre.len() == 1);
                            assert(consts_result(pre) =~= Seq::<Base>::empty());
                            assert(consts_result(orig) =~= acc@);
                        }
                        return acc;
                    },
                }
            },
        }
    }
}

/// How many symbols an RNA escape takes from the remaining sequence:
/// seven, clamped to what is left.
pub open spec fn rna_cut(s: Seq<Base>) -> int {
    if s.len() < 7 {
        s.len() as int
    } else {
        7
    }
}

/// The outcome of parsing a pattern: either the program halts (the sequence
/// ran out mid-parse), or a pattern was read.  Either way the parse may have
/// emitted chunks on the side channel, in order.
#[verifier::ext_equal]
pub enum PatParse {
    Halt { rna: Seq<Seq<Base>> },
    Done { items: Seq<SpecPItem>, rest: Seq<Base>, rna: Seq<Seq<Base>> },
}

/// Prefix one instruction onto a parse outcome.
pub open spec fn pat_cons(it: SpecPItem, r: PatParse) -> PatParse {
    match r {
        PatParse::Halt { rna } => PatParse::Halt { rna },
        PatParse::Done { items, rest, rna } => PatParse::Done {
            items: seq![it] + items,
            rest,
            rna,
        },
    }
}

/// Prefix one emitted chunk onto a parse outcome.
pub open spec fn pat_emit(chunk: Seq<Base>, r: PatParse) -> PatParse {
    match r {
        PatParse::Halt { rna } => PatParse::Halt { rna: seq![chunk] + rna },
        PatParse::Done { items, rest, rna } => PatParse::Done {
            items,
            rest,
            rna: seq![chunk] + rna,
        },
    }
}

/// Prefix already-accumulated instructions and chunks onto a parse outcome.
pub open spec fn pat_prepend(items0: Seq<SpecPItem>, rna0: Seq<Seq<Base>>, r: PatParse) -> PatParse {
    match r {
        PatParse::Halt { rna } => PatParse::Halt { rna: rna0 + rna },
        PatParse::Done { items, rest, rna } => PatParse::Done {
            items: items0 + items,
            rest,
            rna: rna0 + rna,
        },
    }
}

/// The pattern language, as a recursive decoder over the mathematical
/// sequence.  `lvl` is the group nesting depth: at depth zero the
/// end-of-pattern form returns, at positive depth it closes a group.
pub open spec fn parse_pattern(s: Seq<Base>, lvl: nat) -> PatParse
    decreases s.len(),
        via parse_pattern_dec
{
    if s.len() == 0 {
        PatParse::Halt { rna: Seq::empty() }
    } else {
        match s[0] {
            Base::C => pat_cons(SpecPItem::Base(Base::I), parse_pattern(s.skip(1), lvl)),
            Base::F => pat_cons(SpecPItem::Base(Base::C), parse_pattern(s.skip(1), lvl)),
            Base::P => pat_cons(SpecPItem::Base(Base::F), parse_pattern(s.skip(1), lvl)),
            Base::I => if s.len() < 2 {
                PatParse::Halt { rna: Seq::empty() }
            } else {
                match s[1] {
                    Base::C => pat_cons(SpecPItem::Base(Base::P), parse_pattern(s.skip(2), lvl)),
                    Base::P => {
                        let t = s.skip(2);
                        if nat_has_term(t) {
                            pat_cons(
                                SpecPItem::Skip(nat_clamp(t)),
                                parse_pattern(t.skip(nat_used(t) as int), lvl),
                            )
                        } else {
                            PatParse::Halt { rna: Seq::empty() }
                        }
                    },
                    Base::F => {
                        // One symbol after the two-symbol form is discarded:
                        // a quirk of the encoding.
                        let t = if s.len() >= 3 {
                            s.skip(3)
                        } else {
                            Seq::empty()
                        };
                        pat_cons(
                            SpecPItem::Search(consts_result(t)),
                            parse_pattern(consts_rest(t), lvl),
                        )
                    },
                    Base::I => if s.len() < 3 {
                        PatParse::Halt { rna: Seq::empty() }
                    } else {
                        match s[2] {
                            Base::P => pat_cons(SpecPItem::Open, parse_pattern(s.skip(3), lvl + 1)),
                            Base::C | Base::F => if lvl == 0 {
                                PatParse::Done {
                                    items: Seq::empty(),
                                    rest: s.skip(3),
                                    rna: Seq::empty(),
                                }
                            } else {
                                pat_cons(
                                    SpecPItem::Close,
                                    parse_pattern(s.skip(3), (lvl - 1) as nat),
                                )
                            },
                            Base::I => {
                                let t = s.skip(3);
                                pat_emit(
                                    t.take(rna_cut(t)),
                                    parse_pattern(t.skip(rna_cut(t)), lvl),
                                )
                            },
                        }
                    },
                }
            },
        }
    }
}

#[via_fn]
proof fn parse_pattern_dec(s: Seq<Base>, lvl: nat) {
    if s.len() >= 2 && s[0] == Base::I {
        if s[1] == Base::P {
            lemma_nat_used_len(s.skip(2));
        }
        if s[1] == Base::F {
            if s.len() >= 3 {
                lemma_consts_rest_len(s.skip(3));
            } else {
                lemma_consts_rest_len(Seq::empty());
            }
        }
    }
}

/// The outcome of parsing a template.
#[verifier::ext_equal]
pub enum TplParse {
    Halt { rna: Seq<Seq<Base>> },
    Done { items: Seq<SpecTItem>, rest: Seq<Base>, rna: Seq<Seq<Base>> },
}

/// Prefix one instruction onto a parse outcome.
pub open spec fn tpl_cons(it: SpecTItem, r: TplParse) -> TplParse {
    match r {
        TplParse::Halt { rna } => TplParse::Halt { rna },
        TplParse::Done { items, rest, rna } => TplParse::Done {
            items: seq![it] + items,
            rest,
            rna,
        },
    }
}

/// Prefix one emitted chunk onto a parse outcome.
pub open spec fn tpl_emit(chunk: Seq<Base>, r: TplParse) -> TplParse {
    match r {
        TplParse::Halt { rna } => TplParse::Halt { rna: seq![chunk] + rna },
        TplParse::Done { items, rest, rna } => TplParse::Done {
            items,
            rest,
            rna: seq![chunk] + rna,
        },
    }
}

/// Prefix already-accumulated instructions and chunks onto a parse outcome.
pub open spec fn tpl_prepend(items0: Seq<SpecTItem>, rna0: Seq<Seq<Base>>, r: TplParse) -> TplParse {
    match r {
        TplParse::Halt { rna } => TplParse::Halt { rna: rna0 + rna },
        TplParse::Done { items, rest, rna } => TplParse::Done {
            items: items0 + items,
            rest,
            rna: rna0 + rna,
        },
    }
}

/// The template language, as a recursive decoder over the mathematical
/// sequence.  A group reference decodes the protection level first, then
/// the group index.
pub open spec fn parse_template(s: Seq<Base>) -> TplParse
    decreases s.len(),
        via parse_template_dec
{
    if s.len() == 0 {
        TplParse::Halt { rna: Seq::empty() }
    } else {
        match s[0] {
            Base::C => tpl_cons(SpecTItem::Base(Base::I), parse_template(s.skip(1))),
            Base::F => tpl_cons(SpecTItem::Base(Base::C), parse_template(s.skip(1))),
            Base::P => tpl_cons(SpecTItem::Base(Base::F), parse_template(s.skip(1))),
            Base::I => if s.len() < 2 {
                TplParse::Halt { rna: Seq::empty() }
            } else {
                match s[1] {
                    Base::C => tpl_cons(SpecTItem::Base(Base::P), parse_template(s.skip(2))),
                    Base::F | Base::P => {
                        let t = s.skip(2);
                        if nat_has_term(t) {
                            let t2 = t.skip(nat_used(t) as int);
                            if nat_has_term(t2) {
                                tpl_cons(
                                    SpecTItem::Ref { n: nat_clamp(t2), l: nat_clamp(t) },
                                    parse_template(t2.skip(nat_used(t2) as int)),
                                )
                            } else {
                                TplParse::Halt { rna: Seq::empty() }
                            }
                        } else {
                            TplParse::Halt { rna: Seq::empty() }
                        }
                    },
                    Base::I => if s.len() < 3 {
                        TplParse::Halt { rna: Seq::empty() }
                    } else {
                        match s[2] {
                            Base::C | Base::F => TplParse::Done {
                                items: Seq::empty(),
                                rest: s.skip(3),
                                rna: Seq::empty(),
                            },
                            Base::P => {
                                let t = s.skip(3);
                                if nat_has_term(t) {
                                    tpl_cons(
                                        SpecTItem::RefLen(nat_clamp(t)),
                                        parse_template(t.skip(nat_used(t) as int)),
                                    )
                                } else {
                                    TplParse::Halt { rna: Seq::empty() }
                                }
                            },
                            Base::I => {
                                let t = s.skip(3);
                                tpl_emit(
                                    t.take(rna_cut(t)),
                                    parse_template(t.skip(rna_cut(t))),
                                )
                            },
                        }
                    },
                }
            },
        }
    }
}

proof fn lemma_pat_prepend_cons(
    items0: Seq<SpecPItem>,
    rna0: Seq<Seq<Base>>,
    it: SpecPItem,
    r: PatParse,
)
    ensures
        pat_prepend(items0, rna0, pat_cons(it, r)) == pat_prepend(items0.push(it), rna0, r),
{
    match r {
        PatParse::Halt { rna } => {},
        PatParse::Done { items, rest, rna } => {
            assert(items0 + (seq![it] + items) =~= items0.push(it) + items);
        },
    }
}

proof fn lemma_pat_prepend_emit(
    items0: Seq<SpecPItem>,
    rna0: Seq<Seq<Base>>,
    chunk: Seq<Base>,
    r: PatParse,
)
    ensures
        pat_prepend(items0, rna0, pat_emit(chunk, r)) == pat_prepend(items0, rna0.push(chunk), r),
{
    match r {
        PatParse::Halt { rna } => {
            assert(rna0 + (seq![chunk] + rna) =~= rna0.push(chunk) + rna);
        },
        PatParse::Done { items, rest, rna } => {
            assert(rna0 + (seq![chunk] + rna) =~= rna0.push(chunk) + rna);
        },
    }
}

/// Parse a pattern from the front of the sequence, appending any chunks the
/// escape form emits onto the sink in emission order.  The result, the
/// consumed symbols and the emitted chunks are exactly those of the
/// decoder `parse_pattern`; the termination signal is returned exactly when
/// the decoder halts, and the sequence is then left partially consumed.
pub fn pattern(dna: &mut DNA, rna_sink: &mut Vec<DNA>) -> (r: Result<Pattern, Finish>)
    ensures
        old(rna_sink)@.is_prefix_of(final(rna_sink)@),
        match parse_pattern(old(dna)@, 0) {
            PatParse::Halt { rna } => (r matches Err(f) && f == Finish) && chunks(
                final(rna_sink)@,
            ) == chunks(old(rna_sink)@) + rna,
            PatParse::Done { items, rest, rna } => (r matches Ok(p) && pattern_model(p@) == items)
                && final(dna)@ == rest && chunks(final(rna_sink)@) == chunks(old(rna_sink)@) + rna,
        },
{
    let ghost orig = dna@;
    let ghost rna0 = rna_sink@;
    let cap = dna.len();
    let mut p: Vec<PItem> = Vec::new();
    let mut lvl: usize = 0;
    let ghost mut emitted: Seq<Seq<Base>> = Seq::empty();
    proof {
        assert(orig.len() == cap as nat);
        assert(pat_prepend(pattern_model(p@), emitted, parse_pattern(orig, 0)) =~= parse_pattern(
            orig,
            0,
        )) by {
            match parse_pattern(orig, 0) {
                PatParse::Halt { rna } => {
                    assert(emitted + rna =~= rna);
                },
                PatParse::Done { items, rest, rna } => {
                    assert(pattern_model(p@) + items =~= items);
                    assert(emitted + rna =~= rna);
                },
            }
        }
        assert(chunks(rna_sink@) =~= chunks(rna0) + emitted);
    }
    loop
        invariant
            orig.len() <= usize::MAX,
            dna@.len() <= orig.len(),
            3 * (lvl as int) <= orig.len() - dna@.len(),
            parse_pattern(orig, 0) == pat_prepend(
                pattern_model(p@),
                emitted,
                parse_pattern(dna@, lvl as nat),
            ),
            chunks(rna_sink@) == chunks(rna0) + emitted,
            rna0.is_prefix_of(rna_sink@),
        decreases dna@.len(),
    {
        let ghost pre = dna@;
        let ghost items0 = pattern_model(p@);
        match dna.pop() {
            None => {
                proof {
                    assert(pre.len() == 0);
                    assert(emitted + Seq::<Seq<Base>>::empty() =~= emitted);
                }
                return Err(Finish);
            },
            Some(Base::C) => {
                p.push(PItem::Base(Base::I));
                proof {
                    lemma_pat_prepend_cons(
                        items0,
                        emitted,
                        SpecPItem::Base(Base::I),
                        parse_pattern(dna@, lvl as nat),
                    );
                    assert(pattern_model(p@) =~= items0.push(SpecPItem::Base(Base::I)));
                }
            },
            Some(Base::F) => {
                p.push(PItem::Base(Base::C));
                proof {
                    lemma_pat_prepend_cons(
                        items0,
                        emitted,
                        SpecPItem::Base(Base::C),
                        parse_pattern(dna@, lvl as nat),
                    );
                    assert(pattern_model(p@) =~= items0.push(SpecPItem::Base(Base::C)));
                }
            },
            Some(Base::P) => {
                p.push(PItem::Base(Base::F));
                proof {
                    lemma_pat_prepend_cons(
                        items0,
                        emitted,
                        SpecPItem::Base(Base::F),
                        parse_pattern(dna@, lvl as nat),
                    );
                    assert(pattern_model(p@) =~= items0.push(SpecPItem::Base(Base::F)));
                }
            },
            Some(Base::I) => {
                proof {
                    if pre.len() >= 2 {
                        assert(pre.skip(1)[0] == pre[1]);
                    }
                }
                match dna.pop() {
                    None => {
                        proof {
                            assert(pre.len() == 1);
                            assert(emitted + Seq::<Seq<Base>>::empty() =~= emitted);
                        }
                        return Err(Finish);
                    },
                    Some(Base::C) => {
                        p.push(PItem::Base(Base::P));
                        proof {
                            assert(pre.skip(1).skip(1) =~= pre.skip(2));
                            lemma_pat_prepend_cons(
                                items0,
                                emitted,
                                SpecPItem::Base(Base::P),
                                parse_pattern(dna@, lvl as nat),
                            );
                            assert(pattern_model(p@) =~= items0.push(SpecPItem::Base(Base::P)));
                        }
                    },
                    Some(Base::P) => {
                        let ghost t = dna@;
                        proof {
                            assert(pre.skip(1).skip(1) =~= pre.skip(2));
                            lemma_nat_used_len(t);
                        }
                        match decode_nat(dna) {
                            Err(_) => {
                                proof {
                                    assert(emitted + Seq::<Seq<Base>>::empty() =~= emitted);
                                }
                                return Err(Finish);
                            },
                            Ok(n) => {
                                p.push(PItem::Skip(n));
                                proof {
                                    lemma_pat_prepend_cons(
                                        items0,
                                        emitted,
                                        SpecPItem::Skip(n as nat),
                                        parse_pattern(dna@, lvl as nat),
                                    );
                                    assert(pattern_model(p@) =~= items0.push(
                                        SpecPItem::Skip(n as nat),
                                    ));
                                }
                            },
                        }
                    },
                    Some(Base::F) => {
                        let ghost mid = dna@;
                        dna.pop();  // a quirk of the encoding: this symbol is ignored
                        let ghost t = dna@;
                        proof {
                            assert(pre.skip(1).skip(1) =~= pre.skip(2));
                            if pre.len() >= 3 {
                                assert(pre.skip(2).skip(1) =~= pre.skip(3));
                                assert(t =~= pre.skip(3));
                            } else {
                                assert(mid.len() == 0);
                                assert(t =~= Seq::<Base>::empty());
                            }
                        }
                        let s = consts(dna);
                        p.push(PItem::Search(s));
                        proof {
                            lemma_consts_rest_len(t);
                            lemma_pat_prepend_cons(
                                items0,
                                emitted,
                                SpecPItem::Search(consts_result(t)),
                                parse_pattern(dna@, lvl as nat),
                            );
                            assert(pattern_model(p@) =~= items0.push(
                                SpecPItem::Search(consts_result(t)),
                            ));
                        }
                    },
                    Some(Base::I) => {
                        let ghost mid2 = dna@;
                        proof {
                            assert(pre.skip(1).skip(1) =~= pre.skip(2));
                            if pre.len() >= 3 {
                                assert(pre.skip(2)[0] == pre[2]);
                            }
                        }
                        match dna.pop() {
                            None => {
                                proof {
                                    assert(pre.len() == 2);
                                    assert(emitted + Seq::<Seq<Base>>::empty() =~= emitted);
                                }
                                return Err(Finish);
                            },
                            Some(Base::P) => {
                                lvl = lvl + 1;
                                p.push(PItem::Open());
                                proof {
                                    assert(pre.skip(2).skip(1) =~= pre.skip(3));
                                    lemma_pat_prepend_cons(
                                        items0,
                                        emitted,
                                        SpecPItem::Open,
                                        parse_pattern(dna@, lvl as nat),
                                    );
                                    assert(pattern_model(p@) =~= items0.push(SpecPItem::Open));
                                }
                            },
                            Some(Base::C) | Some(Base::F) => {
                                proof {
                                    assert(pre.skip(2).skip(1) =~= pre.skip(3));
                                }
                                if lvl == 0 {
                                    proof {
                                        assert(items0 + Seq::<SpecPItem>::empty() =~= items0);
                                        assert(emitted + Seq::<Seq<Base>>::empty() =~= emitted);
                                    }
                                    return Ok(p);
                                } else {
                                    lvl = lvl - 1;
                                    p.push(PItem::Close());
                                    proof {
                                        lemma_pat_prepend_cons(
                                            items0,
                                            emitted,
                                            SpecPItem::Close,
                                            parse_pattern(dna@, lvl as nat),
                                        );
                                        assert(pattern_model(p@) =~= items0.push(
                                            SpecPItem::Close,
                                        ));
                                    }
                                }
                            },
                            Some(Base::I) => {
                                let ghost t = dna@;
                                proof {
                                    assert(pre.skip(2).skip(1) =~= pre.skip(3));
                                }
                                let chunk = dna.subseq(0, 7);
                                rna_sink.push(chunk);
                                dna.drop(7);
                                proof {
                                    assert(chunk@ =~= t.take(rna_cut(t)));
                                    if t.len() < 7 {
                                        assert(dna@ =~= t.skip(rna_cut(t)));
                                    }
                                    lemma_pat_prepend_emit(
                                        items0,
                                        emitted,
                                        chunk@,
                                        parse_pattern(dna@, lvl as nat),
                                    );
                                    assert(chunks(rna_sink@) =~= (chunks(rna0) + emitted).push(
                                        chunk@,
                                    ));
                                    emitted = emitted.push(chunk@);
                                    assert(chunks(rna0) + emitted =~= (chunks(rna0)
                                        + emitted.drop_last()).push(chunk@));
                                }
                            },
                        }
                    },
                }
            },
        }
    }
}

#[via_fn]
proof fn parse_template_dec(s: Seq<Base>) {
    if s.len() >= 2 && s[0] == Base::I {
        if s[1] == Base::F || s[1] == Base::P {
            let t = s.skip(2);
            lemma_nat_used_len(t);
            if nat_has_term(t) {
                lemma_nat_used_len(t.skip(nat_used(t) as int));
            }
        }
        if s.len() >= 3 && s[1] == Base::I && s[2] == Base::P {
            lemma_nat_used_len(s.skip(3));
        }
    }
}

proof fn lemma_tpl_prepend_cons(
    items0: Seq<SpecTItem>,
    rna0: Seq<Seq<Base>>,
    it: SpecTItem,
    r: TplParse,
)
    ensures
        tpl_prepend(items0, rna0, tpl_cons(it, r)) == tpl_prepend(items0.push(it), rna0, r),
{
    match r {
        TplParse::Halt { rna } => {},
        TplParse::Done { items, rest, rna } => {
            assert(items0 + (seq![it] + items) =~= items0.push(it) + items);
        },
    }
}

proof fn lemma_tpl_prepend_emit(
    items0: Seq<SpecTItem>,
    rna0: Seq<Seq<Base>>,
    chunk: Seq<Base>,
    r: TplParse,
)
    ensures
        tpl_prepend(items0, rna0, tpl_emit(chunk, r)) == tpl_prepend(items0, rna0.push(chunk), r),
{
    match r {
        TplParse::Halt { rna } => {
            assert(rna0 + (seq![chunk] + rna) =~= rna0.push(chunk) + rna);
        },
        TplParse::Done { items, rest, rna } => {
            assert(rna0 + (seq![chunk] + rna) =~= rna0.push(chunk) + rna);
        },
    }
}

/// Parse a template from the front of the sequence, appending any chunks the
/// escape form emits onto the sink in emission order.  The result, the
/// consumed symbols and the emitted chunks are exactly those of the decoder
/// `parse_template`; the termination signal is returned exactly when the
/// decoder halts, and the sequence is then left partially consumed.
pub fn template(dna: &mut DNA, rna_sink: &mut Vec<DNA>) -> (r: Result<Template, Finish>)
    ensures
        old(rna_sink)@.is_prefix_of(final(rna_sink)@),
        match parse_template(old(dna)@) {
            TplParse::Halt { rna } => (r matches Err(f) && f == Finish) && chunks(
                final(rna_sink)@,
            ) == chunks(old(rna_sink)@) + rna,
            TplParse::Done { items, rest, rna } => (r matches Ok(t) && template_model(t@) == items)
                && final(dna)@ == rest && chunks(final(rna_sink)@) == chunks(old(rna_sink)@) + rna,
        },
{
    let ghost orig = dna@;
    let ghost rna0 = rna_sink@;
    let mut t: Vec<TItem> = Vec::new();
    let ghost mut emitted: Seq<Seq<Base>> = Seq::empty();
    proof {
        assert(tpl_prepend(template_model(t@), emitted, parse_template(orig)) =~= parse_template(
            orig,
        )) by {
            match parse_template(orig) {
                TplParse::Halt { rna } => {
                    assert(emitted + rna =~= rna);
                },
                TplParse::Done { items, rest, rna } => {
                    assert(template_model(t@) + items =~= items);
                    assert(emitted + rna =~= rna);
                },
            }
        }
        assert(chunks(rna_sink@) =~= chunks(rna0) + emitted);
    }
    loop
        invariant
            parse_template(orig) == tpl_prepend(template_model(t@), emitted, parse_template(dna@)),
            chunks(rna_sink@) == chunks(rna0) + emitted,
            rna0.is_prefix_of(rna_sink@),
        decreases dna@.len(),
    {
        let ghost pre = dna@;
        let ghost items0 = template_model(t@);
        match dna.pop() {
            None => {
                proof {
                    assert(pre.len() == 0);
                    assert(emitted + Seq::<Seq<Base>>::empty() =~= emitted);
                }
                return Err(Finish);
            },
            Some(Base::C) => {
                t.push(TItem::Base(Base::I));
                proof {
                    lemma_tpl_prepend_cons(
                        items0,
                        emitted,
                        SpecTItem::Base(Base::I),
                        parse_template(dna@),
                    );
                    assert(template_model(t@) =~= items0.push(SpecTItem::Base(Base::I)));
                }
            },
            Some(Base::F) => {
                t.push(TItem::Base(Base::C));
                proof {
                    lemma_tpl_prepend_cons(
                        items0,
                        emitted,
                        SpecTItem::Base(Base::C),
                        parse_template(dna@),
                    );
                    assert(template_model(t@) =~= items0.push(SpecTItem::Base(Base::C)));
                }
            },
            Some(Base::P) => {
                t.push(TItem::Base(Base::F));
                proof {
                    lemma_tpl_prepend_cons(
                        items0,
                        emitted,
                        SpecTItem::Base(Base::F),
                        parse_template(dna@),
                    );
                    assert(template_model(t@) =~= items0.push(SpecTItem::Base(Base::F)));
                }
            },
            Some(Base::I) => {
                proof {
                    if pre.len() >= 2 {
                        assert(pre.skip(1)[0] == pre[1]);
                    }
                }
                match dna.pop() {
                    None => {
                        proof {
                            assert(pre.len() == 1);
                            assert(emitted + Seq::<Seq<Base>>::empty() =~= emitted);
                        }
                        return Err(Finish);
                    },
                    Some(Base::C) => {
                        t.push(TItem::Base(Base::P));
                        proof {
                            assert(pre.skip(1).skip(1) =~= pre.skip(2));
                            lemma_tpl_prepend_cons(
                                items0,
                                emitted,
                                SpecTItem::Base(Base::P),
                                parse_template(dna@),
                            );
                            assert(template_model(t@) =~= items0.push(SpecTItem::Base(Base::P)));
                        }
                    },
                    Some(Base::F) | Some(Base::P) => {
                        let ghost lt = dna@;
                        proof {
                            assert(pre.skip(1).skip(1) =~= pre.skip(2));
                        }
                        let l = match decode_nat(dna) {
                            Err(_) => {
                                proof {
                                    assert(emitted + Seq::<Seq<Base>>::empty() =~= emitted);
                                }
                                return Err(Finish);
                            },
                            Ok(l) => l,
                        };
                        let ghost nt = dna@;
                        let n = match decode_nat(dna) {
                            Err(_) => {
                                proof {
                                    assert(emitted + Seq::<Seq<Base>>::empty() =~= emitted);
                                }
                                return Err(Finish);
                            },
                            Ok(n) => n,
                        };
                        t.push(TItem::Ref { n, l });
                        proof {
                            lemma_tpl_prepend_cons(
                                items0,
                                emitted,
                                SpecTItem::Ref { n: n as nat, l: l as nat },
                                parse_template(dna@),
                            );
                            assert(template_model(t@) =~= items0.push(
                                SpecTItem::Ref { n: n as nat, l: l as nat },
                            ));
                            lemma_nat_used_len(lt);
                            lemma_nat_used_len(nt);
                        }
                    },
                    Some(Base::I) => {
                        let ghost mid2 = dna@;
                        proof {
                            assert(pre.skip(1).skip(1) =~= pre.skip(2));
                            if pre.len() >= 3 {
                                assert(pre.skip(2)[0] == pre[2]);
                            }
                        }
                        match dna.pop() {
                            None => {
                                proof {
                                    assert(pre.len() == 2);
                                    assert(emitted + Seq::<Seq<Base>>::empty() =~= emitted);
                                }
                                return Err(Finish);
                            },
                            Some(Base::C) | Some(Base::F) => {
                                proof {
                                    assert(pre.skip(2).skip(1) =~= pre.skip(3));
                                    assert(items0 + Seq::<SpecTItem>::empty() =~= items0);
                                    assert(emitted + Seq::<Seq<Base>>::empty() =~= emitted);
                                }
                                return Ok(t);
                            },
                            Some(Base::P) => {
                                let ghost nt = dna@;
                                proof {
                                    assert(pre.skip(2).skip(1) =~= pre.skip(3));
                                }
                                match decode_nat(dna) {
                                    Err(_) => {
                                        proof {
                                            assert(emitted + Seq::<Seq<Base>>::empty()
                                                =~= emitted);
                                        }
                                        return Err(Finish);
                                    },
                                    Ok(n) => {
                                        t.push(TItem::RefLen(n));
                                        proof {
                                            lemma_tpl_prepend_cons(
                                                items0,
                                                emitted,
                                                SpecTItem::RefLen(n as nat),
                                                parse_template(dna@),
                                            );
                                            assert(template_model(t@) =~= items0.push(
                                                SpecTItem::RefLen(n as nat),
                                            ));
                                            lemma_nat_used_len(nt);
                                        }
                                    },
                                }
                            },
                            Some(Base::I) => {
                                let ghost rt = dna@;
                                proof {
                                    assert(pre.skip(2).skip(1) =~= pre.skip(3));
                                }
                                let chunk = dna.subseq(0, 7);
                                rna_sink.push(chunk);
                                dna.drop(7);
                                proof {
                                    assert(chunk@ =~= rt.take(rna_cut(rt)));
                                    if rt.len() < 7 {
                                        assert(dna@ =~= rt.skip(rna_cut(rt)));
                                    }
                                    lemma_tpl_prepend_emit(
                                        items0,
                                        emitted,
                                        chunk@,
                                        parse_template(dna@),
                                    );
                                    assert(chunks(rna_sink@) =~= (chunks(rna0) + emitted).push(
                                        chunk@,
                                    ));
                                    emitted = emitted.push(chunk@);
                                    assert(chunks(rna0) + emitted =~= (chunks(rna0)
                                        + emitted.drop_last()).push(chunk@));
                                }
                            },
                        }
                    },
                }
            },
        }
    }
}

} // verus!
