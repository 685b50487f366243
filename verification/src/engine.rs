//! The match-replace engine and the per-cycle driver step.
//!
//! A pattern is executed against the sequence to build an environment of
//! captured sub-sequences; a template is then executed against that
//! environment to build a replacement, which is spliced in over the matched
//! prefix.  A failed match aborts the cycle silently: the sequence is left
//! unchanged, and the driver goes on to the next parse.

use vstd::prelude::*;
use crate::dna::{find_first_spec, subseq_spec, Base, DNA};
use crate::codec::{asnat, asnat_spec, protect_spec, try_protect, Finish};
use crate::parse::{chunks, parse_pattern, parse_template, pattern, pattern_model, template,
    template_model, PatParse, Pattern, PItem, SpecPItem, SpecTItem, Template, TItem, TplParse};

verus! {

/// Execute pattern instructions against the sequence: the cursor `i` walks
/// forward, `starts` stacks the cursor positions of open groups, `env`
/// collects captures in the order the groups close.  `None` means the match
/// aborted: a literal mismatched, a skip ran off the end, a search missed,
/// or a close had no matching open.
pub open spec fn pmatch(
    items: Seq<SpecPItem>,
    s: Seq<Base>,
    i: nat,
    starts: Seq<nat>,
    env: Seq<Seq<Base>>,
) -> Option<(nat, Seq<Seq<Base>>)>
    decreases items.len(),
{
    if items.len() == 0 {
        Some((i, env))
    } else {
        let rest = items.skip(1);
        match items[0] {
            SpecPItem::Base(b) => if i < s.len() && s[i as int] == b {
                pmatch(rest, s, i + 1, starts, env)
            } else {
                None
            },
            SpecPItem::Skip(n) => if i + n <= s.len() {
                pmatch(rest, s, (i + n) as nat, starts, env)
            } else {
                None
            },
            SpecPItem::Search(needle) => match find_first_spec(s, needle, i) {
                Some(e) => pmatch(rest, s, e, starts, env),
                None => None,
            },
            SpecPItem::Open => pmatch(rest, s, i, starts.push(i), env),
            SpecPItem::Close => if starts.len() > 0 {
                pmatch(
                    rest,
                    s,
                    i,
                    starts.drop_last(),
                    env.push(subseq_spec(s, starts.last(), i)),
                )
            } else {
                None
            },
        }
    }
}

/// The capture a template reference reads: a reference to a group that
/// never closed reads as an empty capture.
pub open spec fn env_group(env: Seq<Seq<Base>>, n: nat) -> Seq<Base> {
    if n < env.len() {
        env[n as int]
    } else {
        Seq::empty()
    }
}

/// What one template instruction contributes to the replacement.
pub open spec fn replace_item(it: SpecTItem, env: Seq<Seq<Base>>) -> Seq<Base> {
    match it {
        SpecTItem::Base(b) => seq![b],
        SpecTItem::Ref { n, l } => protect_spec(l, env_group(env, n)),
        SpecTItem::RefLen(n) => asnat_spec(env_group(env, n).len()),
    }
}

/// The replacement a template builds from an environment.
pub open spec fn replace_spec(items: Seq<SpecTItem>, env: Seq<Seq<Base>>) -> Seq<Base>
    decreases items.len(),
{
    if items.len() == 0 {
        Seq::empty()
    } else {
        replace_item(items[0], env) + replace_spec(items.skip(1), env)
    }
}

/// What one match-replace cycle makes of the sequence: unchanged when the
/// match aborts or when the spliced result would not fit the machine word,
/// else the replacement followed by the unmatched tail.
pub open spec fn matchreplace_spec(
    p: Seq<SpecPItem>,
    t: Seq<SpecTItem>,
    s: Seq<Base>,
) -> Seq<Base> {
    match pmatch(p, s, 0, Seq::empty(), Seq::empty()) {
        None => s,
        Some((i, env)) => {
            let r = replace_spec(t, env);
            if r.len() + (s.len() - i) <= usize::MAX {
                r + s.skip(i as int)
            } else {
                s
            }
        },
    }
}

/// Build the replacement a template denotes from a captured environment.
/// `None` exactly when the replacement would not fit the machine word; the
/// result is then discarded by the caller and the rewrite is dropped.
pub fn replace(template: Template, env: Vec<DNA>) -> (r: Option<DNA>)
    ensures
        (replace_spec(template_model(template@), chunks(env@)).len() <= usize::MAX) <==> (
        r is Some),
        r matches Some(d) ==> d@ == replace_spec(template_model(template@), chunks(env@)),
{
    let ghost tm = template_model(template@);
    let ghost em = chunks(env@);
    let ghost total = replace_spec(tm, em);
    let mut r = DNA::default();
    let mut idx: usize = 0;
    proof {
        assert(tm.skip(0) =~= tm);
        assert(Seq::<Base>::empty() + total =~= total);
    }
    while idx < template.len()
        invariant
            idx <= template@.len(),
            tm.len() == template@.len(),
            total == r@ + replace_spec(tm.skip(idx as int), em),
        decreases template@.len() - idx,
    {
        let ghost rem = tm.skip(idx as int);
        let ghost pre = r@;
        proof {
            assert(rem[0] == tm[idx as int]);
            assert(rem.skip(1) =~= tm.skip(idx as int + 1));
        }
        let it = template[idx];
        match it {
            TItem::Base(b) => {
                let n0 = r.len();
                if n0 == usize::MAX {
                    // Even one more symbol would not fit.
                    return None;
                }
                r.append(b);
                proof {
                    assert(pre + (seq![b] + replace_spec(rem.skip(1), em)) =~= r@ + replace_spec(
                        rem.skip(1),
                        em,
                    ));
                }
            },
            TItem::Ref { n, l } => {
                let g = if n < env.len() {
                    env[n].dup()
                } else {
                    DNA::default()
                };
                proof {
                    assert(g@ == env_group(em, n as nat));
                }
                match try_protect(l, g) {
                    None => {
                        // The protected group alone would not fit.
                        return None;
                    },
                    Some(piece) => {
                        let pn = piece.len();
                        let n0 = r.len();
                        if pn > usize::MAX - n0 {
                            return None;
                        }
                        r.concat(piece);
                        proof {
                            assert(pre + (protect_spec(l as nat, env_group(em, n as nat))
                                + replace_spec(rem.skip(1), em)) =~= r@ + replace_spec(
                                rem.skip(1),
                                em,
                            ));
                        }
                    },
                }
            },
            TItem::RefLen(n) => {
                let g_len = if n < env.len() {
                    env[n].len()
                } else {
                    0
                };
                proof {
                    assert(env_group(em, n as nat).len() == g_len as nat);
                }
                let piece = asnat(g_len);
                let pn = piece.len();
                let n0 = r.len();
                if pn > usize::MAX - n0 {
                    return None;
                }
                r.concat(piece);
                proof {
                    assert(pre + (asnat_spec(env_group(em, n as nat).len()) + replace_spec(
                        rem.skip(1),
                        em,
                    )) =~= r@ + replace_spec(rem.skip(1), em));
                }
            },
        }
        idx = idx + 1;
    }
    proof {
        assert(tm.skip(tm.len() as int) =~= Seq::<SpecTItem>::empty());
        assert(total =~= r@);
    }
    // The machine holds the result, so its length is representable.
    let fits = r.len();
    proof {
        assert(total.len() == fits as nat);
    }
    Some(r)
}

/// Execute one match-replace cycle.  On a successful match of end position
/// `i`, the matched prefix `[0, i)` is discarded in favour of the built
/// replacement and the tail from `i` on is kept; on an aborted match, or
/// when the spliced result would not fit the machine word, the sequence is
/// left untouched.
pub fn matchreplace(dna: &mut DNA, pattern: Pattern, template: Template)
    ensures
        final(dna)@ == matchreplace_spec(
            pattern_model(pattern@),
            template_model(template@),
            old(dna)@,
        ),
{
    let ghost pm = pattern_model(pattern@);
    let ghost s = dna@;
    let n = dna.len();
    let mut i: usize = 0;
    let mut env: Vec<DNA> = Vec::new();
    let mut c_rev: Vec<usize> = Vec::new();
    let mut k: usize = 0;
    proof {
        assert(pm.skip(0) =~= pm);
        assert(c_rev@.map_values(|u: usize| u as nat) =~= Seq::<nat>::empty());
        assert(chunks(env@) =~= Seq::<Seq<Base>>::empty());
    }
    while k < pattern.len()
        invariant
            k <= pattern@.len(),
            pm.len() == pattern@.len(),
            dna@ == s,
            n == s.len(),
            i <= n,
            pmatch(pm, s, 0, Seq::empty(), Seq::empty()) == pmatch(
                pm.skip(k as int),
                s,
                i as nat,
                c_rev@.map_values(|u: usize| u as nat),
                chunks(env@),
            ),
        decreases pattern@.len() - k,
    {
        let ghost rem = pm.skip(k as int);
        let ghost starts0 = c_rev@.map_values(|u: usize| u as nat);
        let ghost env0 = chunks(env@);
        proof {
            assert(rem[0] == pm[k as int]);
            assert(rem.skip(1) =~= pm.skip(k as int + 1));
        }
        match &pattern[k] {
            PItem::Base(b) => {
                let ok = match dna.at(i) {
                    Some(hb) => hb == *b,
                    None => false,
                };
                if !ok {
                    return ;
                }
                i = i + 1;
            },
            PItem::Skip(count) => {
                if *count > n - i {
                    return ;
                }
                i = i + *count;
            },
            PItem::Search(needle) => {
                match dna.find_first(needle, i) {
                    None => {
                        return ;
                    },
                    Some(e) => {
                        i = e;
                    },
                }
            },
            PItem::Open() => {
                c_rev.push(i);
                proof {
                    assert(c_rev@.map_values(|u: usize| u as nat) =~= starts0.push(i as nat));
                }
            },
            PItem::Close() => {
                match c_rev.pop() {
                    None => {
                        // A close with no matching open aborts the cycle.
                        return ;
                    },
                    Some(from) => {
                        env.push(dna.subseq(from, i));
                        proof {
                            assert(c_rev@.map_values(|u: usize| u as nat) =~= starts0.drop_last());
                            assert(starts0.last() == from as nat);
                            assert(chunks(env@) =~= env0.push(
                                subseq_spec(s, from as nat, i as nat),
                            ));
                        }
                    },
                }
            },
        }
        k = k + 1;
    }
    proof {
        assert(pm.skip(pm.len() as int) =~= Seq::<SpecPItem>::empty());
    }
    let rep = match replace(template, env) {
        None => {
            // The replacement would not fit the machine word: the rewrite
            // is dropped and the sequence stands.
            return ;
        },
        Some(rep) => rep,
    };
    let tail = dna.subseq(i, n);
    let rl = rep.len();
    if rl > usize::MAX - tail.len() {
        // The splice would not fit the machine word: the rewrite is dropped.
        return ;
    }
    proof {
        assert(tail@ =~= s.skip(i as int));
    }
    dna.assign(rep);
    dna.concat(tail);
}

/// Whether the program halts on this sequence during its very first parse
/// cycle, without emitting any chunk: no pattern/template pair is decodable
/// at all.
pub open spec fn halts_silently(s: Seq<Base>) -> bool {
    match parse_pattern(s, 0) {
        PatParse::Halt { rna } => rna.len() == 0,
        PatParse::Done { items, rest, rna } => rna.len() == 0 && (parse_template(rest)
            matches TplParse::Halt { rna: rna2 } && rna2.len() == 0),
    }
}

/// One driver iteration: parse a pattern, parse a template, execute the
/// match-replace cycle.  The termination signal is returned exactly when
/// one of the parsers halts; a failed match is absorbed silently.  On an
/// input where nothing is decodable at all the sequence halts immediately
/// with no chunk emitted.
pub fn step(dna: &mut DNA, rna_sink: &mut Vec<DNA>) -> (r: Result<(), Finish>)
    ensures
        old(rna_sink)@.is_prefix_of(final(rna_sink)@),
        match parse_pattern(old(dna)@, 0) {
            PatParse::Halt { rna } => (r matches Err(f) && f == Finish) && chunks(
                final(rna_sink)@,
            ) == chunks(old(rna_sink)@) + rna,
            PatParse::Done { items: p, rest: s1, rna: c1 } => match parse_template(s1) {
                TplParse::Halt { rna: c2 } => (r matches Err(f) && f == Finish) && chunks(
                    final(rna_sink)@,
                ) == chunks(old(rna_sink)@) + c1 + c2,
                TplParse::Done { items: t, rest: s2, rna: c2 } => r matches Ok(u) && chunks(
                    final(rna_sink)@,
                ) == chunks(old(rna_sink)@) + c1 + c2 && final(dna)@ == matchreplace_spec(
                    p,
                    t,
                    s2,
                ),
            },
        },
        halts_silently(old(dna)@) ==> (r matches Err(f) && f == Finish) && final(rna_sink)@ == old(
            rna_sink,
        )@,
{
    let ghost rna0 = rna_sink@;
    let p = match pattern(dna, rna_sink) {
        Err(f) => {
            proof {
                if halts_silently(old(dna)@) {
                    assert(chunks(rna_sink@) =~= chunks(rna0));
                    lemma_silent_halt(rna0, rna_sink@);
                }
            }
            return Err(f);
        },
        Ok(p) => p,
    };
    let t = match template(dna, rna_sink) {
        Err(f) => {
            proof {
                if halts_silently(old(dna)@) {
                    assert(chunks(rna_sink@) =~= chunks(rna0));
                    lemma_silent_halt(rna0, rna_sink@);
                }
                match parse_pattern(old(dna)@, 0) {
                    PatParse::Done { items, rest, rna: c1 } => {
                        match parse_template(rest) {
                            TplParse::Halt { rna: c2 } => {
                                assert(chunks(rna_sink@) =~= chunks(rna0) + c1 + c2);
                            },
                            TplParse::Done { .. } => {},
                        }
                    },
                    PatParse::Halt { .. } => {},
                }
            }
            return Err(f);
        },
        Ok(t) => t,
    };
    proof {
        match parse_pattern(old(dna)@, 0) {
            PatParse::Done { items, rest, rna: c1 } => {
                match parse_template(rest) {
                    TplParse::Done { items: ti, rest: s2, rna: c2 } => {
                        assert(chunks(rna_sink@) =~= chunks(rna0) + c1 + c2);
                    },
                    TplParse::Halt { .. } => {},
                }
            },
            PatParse::Halt { .. } => {},
        }
    }
    matchreplace(dna, p, t);
    Ok(())
}

/// A chunk list that gained nothing is unchanged: prefix plus equal view
/// lists means equal lists.
proof fn lemma_silent_halt(rna0: Seq<DNA>, rna1: Seq<DNA>)
    requires
        rna0.is_prefix_of(rna1),
        chunks(rna1) == chunks(rna0),
    ensures
        rna1 == rna0,
{
    assert(chunks(rna1).len() == rna1.len());
    assert(chunks(rna0).len() == rna0.len());
    assert(rna1 =~= rna0);
}

} // verus!
