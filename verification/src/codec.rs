//! Encodings shared by the parsers and the rewrite engine: the little-endian
//! natural-number encoding and the `quote`/`protect` symbol transforms.

use vstd::prelude::*;
use vstd::arithmetic::power2::{pow2, lemma_pow2_adds, lemma_pow2_strictly_increases, lemma2_to64,
    lemma2_to64_rest};
use crate::dna::{Base, DNA};

verus! {

/// The termination signal: a parser ran out of symbols before completing a
/// well-formed instruction list.  This is the normal end-of-program
/// condition, not a failure.
#[derive(Clone, Copy, PartialEq, Eq, Debug)]
pub struct Finish;

/// Whether a natural-number encoding is terminated: some symbol ahead is the
/// terminator `P`.
pub open spec fn nat_has_term(s: Seq<Base>) -> bool
    decreases s.len(),
{
    s.len() > 0 && (s[0] == Base::P || nat_has_term(s.skip(1)))
}

/// The value of a natural-number encoding: a little-endian run of digits
/// (`C` means the bit is set, `I` and `F` mean it is clear) up to the first
/// `P` or the end.
pub open spec fn nat_value(s: Seq<Base>) -> nat
    decreases s.len(),
{
    if s.len() == 0 || s[0] == Base::P {
        0
    } else {
        (if s[0] == Base::C {
            1nat
        } else {
            0nat
        }) + 2 * nat_value(s.skip(1))
    }
}

/// How many symbols a natural-number decode consumes: everything up to and
/// including the first `P`, or the whole sequence when no `P` follows.
pub open spec fn nat_used(s: Seq<Base>) -> nat
    decreases s.len(),
{
    if s.len() == 0 {
        0
    } else if s[0] == Base::P {
        1
    } else {
        1 + nat_used(s.skip(1))
    }
}

/// The value the machine keeps of a decoded natural: clamped to the word
/// size.  A decoded count beyond `usize::MAX` could never index or skip
/// within a representable sequence anyway.
pub open spec fn nat_clamp(s: Seq<Base>) -> nat {
    if nat_value(s) <= usize::MAX as nat {
        nat_value(s)
    } else {
        usize::MAX as nat
    }
}

/// Decode a natural number from the front of the sequence, consuming the
/// digits and their terminator.  Values beyond the word size saturate to
/// `usize::MAX`.  When the sequence runs out before a terminator, the whole
/// sequence is consumed and the termination signal is returned.
pub fn decode_nat(dna: &mut DNA) -> (r: Result<usize, Finish>)
    ensures
        final(dna)@ == old(dna)@.skip(nat_used(old(dna)@) as int),
        nat_has_term(old(dna)@) ==> (r matches Ok(v) && v == nat_clamp(old(dna)@)),
        !nat_has_term(old(dna)@) ==> (r matches Err(f) && f == Finish),
{
    let ghost orig = dna@;
    let mut acc: u64 = 0;
    let mut place: u64 = 1;
    let mut sat_place: bool = false;
    let mut sat_val: bool = false;
    let ghost mut g: nat = 0;
    let ghost mut k: nat = 0;
    proof {
        lemma2_to64();
        lemma2_to64_rest();
        assert(orig.skip(0) =~= orig);
    }
    loop
        invariant
            dna@ == orig.skip(k as int),
            k <= orig.len(),
            nat_has_term(orig) == nat_has_term(dna@),
            nat_used(orig) == k + nat_used(dna@),
            nat_value(orig) == g + pow2(k) * nat_value(dna@),
            !sat_place ==> k < 64 && place == pow2(k),
            sat_place ==> k >= 64,
            !sat_val ==> acc == g && g < pow2(if k < 64 {
                k
            } else {
                64
            }),
            sat_val ==> g >= pow2(64),
            sat_val ==> sat_place,
        decreases dna@.len(),
    {
        let ghost pre = dna@;
        match dna.pop() {
            None => {
                proof {
                    assert(pre.len() == 0);
                    assert(nat_used(pre) == 0);
                    assert(!nat_has_term(pre));
                }
                return Err(Finish);
            },
            Some(b) => {
                proof {
                    assert(orig.skip(k as int).skip(1) =~= orig.skip(k as int + 1));
                    lemma2_to64();
                    lemma2_to64_rest();
                }
                if matches!(b, Base::P) {
                    proof {
                        assert(nat_value(pre) == 0);
                        assert(nat_value(orig) == g + pow2(k) * 0);
                        assert(pow2(k) * 0 == 0) by (nonlinear_arith);
                        if sat_val {
                            assert(pow2(64) > u64::MAX as nat);
                            assert(usize::MAX as nat <= u64::MAX as nat);
                        } else {
                            if k < 64 {
                                lemma_pow2_strictly_increases(k, 64);
                            }
                            assert(g < pow2(64));
                        }
                    }
                    if sat_val {
                        return Ok(usize::MAX);
                    } else if acc > usize::MAX as u64 {
                        return Ok(usize::MAX);
                    } else {
                        return Ok(acc as usize);
                    }
                }
                // A digit: C sets the bit at the current place, I and F
                // leave it clear.
                let ghost bit: nat = if b == Base::C {
                    1nat
                } else {
                    0nat
                };
                proof {
                    assert(nat_value(pre) == bit + 2 * nat_value(dna@));
                    assert(nat_used(pre) == 1 + nat_used(dna@));
                    assert(nat_has_term(pre) == nat_has_term(dna@));
                    assert(pow2(k) * nat_value(pre) == pow2(k) * bit + (2 * pow2(k)) * nat_value(
                        dna@,
                    )) by (nonlinear_arith)
                        requires
                            nat_value(pre) == bit + 2 * nat_value(dna@),
                    ;
                    lemma_pow2_adds(k, 1);
                    assert(pow2(1) == 2);
                }
                if matches!(b, Base::C) {
                    if sat_place {
                        proof {
                            if k > 64 {
                                lemma_pow2_strictly_increases(64, k);
                            }
                            if !sat_val {
                                assert(g + pow2(k) >= pow2(64));
                            }
                        }
                        sat_val = true;
                    } else {
                        proof {
                            if k + 1 < 64 {
                                lemma_pow2_strictly_increases(k, 64);
                            }
                            assert(acc + place < pow2(k) + pow2(k));
                            assert(pow2(k) + pow2(k) == pow2(k + 1));
                            if k + 1 < 64 {
                                lemma_pow2_strictly_increases(k + 1, 64);
                            }
                            assert(pow2(64) == 0x10000000000000000nat);
                            assert(acc + place <= u64::MAX);
                        }
                        acc = acc + place;
                    }
                    proof {
                        g = g + pow2(k);
                    }
                }
                // Advance to the next place, saturating once the place
                // leaves the word.
                if !sat_place {
                    if place > u64::MAX / 2 {
                        proof {
                            if k < 63 {
                                lemma_pow2_strictly_increases(k, 63);
                                assert(pow2(63) == 0x8000000000000000nat);
                                assert(false);
                            }
                        }
                        sat_place = true;
                    } else {
                        place = place * 2;
                        proof {
                            assert(pow2(k) + pow2(k) == pow2(k + 1));
                            if k + 1 >= 64 {
                                assert(k == 63);
                                assert(pow2(63) == 0x8000000000000000nat);
                                assert(false);
                            }
                        }
                    }
                }
                proof {
                    k = k + 1;
                    if !sat_val {
                        assert(g < pow2(if k < 64 {
                            k
                        } else {
                            64
                        }));
                    }
                }
            },
        }
    }
}

/// The encoding of a natural number: its bits from least significant up
/// (`C` set, `I` clear), then the terminator `P`.
pub open spec fn asnat_spec(n: nat) -> Seq<Base>
    decreases n,
{
    if n == 0 {
        seq![Base::P]
    } else {
        seq![
            if n % 2 == 1 {
                Base::C
            } else {
                Base::I
            },
        ] + asnat_spec(n / 2)
    }
}

/// The encoding of a value below `pow2(w)` takes at most `w + 1` symbols.
pub proof fn lemma_asnat_len(n: nat, w: nat)
    requires
        n < pow2(w),
    ensures
        asnat_spec(n).len() <= w + 1,
    decreases n,
{
    if n == 0 {
    } else {
        assert(w > 0) by {
            if w == 0 {
                assert(pow2(0) == 1) by {
                    lemma2_to64();
                }
            }
        }
        assert(n / 2 < pow2((w - 1) as nat)) by {
            lemma_pow2_adds((w - 1) as nat, 1);
            lemma2_to64();
        }
        lemma_asnat_len(n / 2, (w - 1) as nat);
    }
}

/// Law: decoding an encoding yields the encoded value back, consuming the
/// whole encoding; every encoding is terminated.
pub proof fn lemma_nat_asnat(n: nat)
    ensures
        nat_has_term(asnat_spec(n)),
        nat_value(asnat_spec(n)) == n,
        nat_used(asnat_spec(n)) == asnat_spec(n).len(),
    decreases n,
{
    let s = asnat_spec(n);
    if n == 0 {
        assert(s[0] == Base::P);
    } else {
        lemma_nat_asnat(n / 2);
        assert(s.skip(1) =~= asnat_spec(n / 2));
        assert(s[0] != Base::P);
        assert(nat_value(s) == (if n % 2 == 1 {
            1nat
        } else {
            0nat
        }) + 2 * (n / 2));
    }
}

/// Encode a natural number (the group-length encoding of the template
/// engine).
pub fn asnat(n: usize) -> (r: DNA)
    ensures
        r@ == asnat_spec(n as nat),
{
    let ghost total = asnat_spec(n as nat);
    proof {
        lemma2_to64();
        lemma2_to64_rest();
        assert((usize::MAX as nat) < pow2(64));
        lemma_asnat_len(n as nat, 64);
        assert(Seq::<Base>::empty() + total =~= total);
    }
    let mut r = DNA::default();
    let mut m = n;
    while m > 0
        invariant
            total == r@ + asnat_spec(m as nat),
            total.len() <= 65,
        decreases m,
    {
        let ghost pre = r@;
        if m % 2 == 0 {
            r.append(Base::I);
        } else {
            r.append(Base::C);
        }
        proof {
            assert(asnat_spec(m as nat).skip(1) =~= asnat_spec((m / 2) as nat));
            assert(pre + asnat_spec(m as nat) =~= r@ + asnat_spec((m / 2) as nat));
        }
        m = m / 2;
    }
    r.append(Base::P);
    proof {
        assert(asnat_spec(m as nat) =~= seq![Base::P]);
        assert(total =~= r@);
    }
    r
}

/// What quoting makes of one symbol: the alphabet rotates one step, and the
/// last symbol expands to two.
pub open spec fn quote_base(b: Base) -> Seq<Base> {
    match b {
        Base::I => seq![Base::C],
        Base::C => seq![Base::F],
        Base::F => seq![Base::P],
        Base::P => seq![Base::I, Base::C],
    }
}

/// The quote transform, symbol by symbol.
pub open spec fn quote_spec(s: Seq<Base>) -> Seq<Base>
    decreases s.len(),
{
    if s.len() == 0 {
        Seq::empty()
    } else {
        quote_base(s[0]) + quote_spec(s.skip(1))
    }
}

/// How many symbols of a sequence are `P` (each of which quoting doubles).
pub open spec fn count_p(s: Seq<Base>) -> nat
    decreases s.len(),
{
    if s.len() == 0 {
        0
    } else {
        (if s[0] == Base::P {
            1nat
        } else {
            0nat
        }) + count_p(s.skip(1))
    }
}

/// Quoting grows a sequence by exactly its count of `P` symbols.
pub proof fn lemma_quote_len(s: Seq<Base>)
    ensures
        quote_spec(s).len() == s.len() + count_p(s),
        count_p(s) <= s.len(),
    decreases s.len(),
{
    if s.len() > 0 {
        lemma_quote_len(s.skip(1));
    }
}

/// `protect` applies the quote transform `l` times.
pub open spec fn protect_spec(l: nat, s: Seq<Base>) -> Seq<Base>
    decreases l,
{
    if l == 0 {
        s
    } else {
        protect_spec((l - 1) as nat, quote_spec(s))
    }
}

/// Law: protection levels add up; protecting twice is protecting once by
/// the sum of the levels.
pub proof fn lemma_protect_protect(l1: nat, l2: nat, s: Seq<Base>)
    ensures
        protect_spec(l1, protect_spec(l2, s)) == protect_spec(l1 + l2, s),
    decreases l2,
{
    if l2 > 0 {
        lemma_protect_protect(l1, (l2 - 1) as nat, quote_spec(s));
    }
}

/// Protecting never shrinks a sequence.
pub proof fn lemma_protect_grows(l: nat, s: Seq<Base>)
    ensures
        protect_spec(l, s).len() >= s.len(),
    decreases l,
{
    if l > 0 {
        lemma_quote_len(s);
        lemma_protect_grows((l - 1) as nat, quote_spec(s));
    }
}

/// Count the `P` symbols of a sequence.
fn count_p_run(d: &DNA) -> (r: usize)
    ensures
        r == count_p(d@),
{
    let n = d.len();
    let mut r: usize = 0;
    let mut i: usize = 0;
    proof {
        assert(d@.skip(0) =~= d@);
    }
    while i < n
        invariant
            n == d@.len(),
            i <= n,
            r <= i,
            count_p(d@) == r + count_p(d@.skip(i as int)),
        decreases n - i,
    {
        proof {
            assert(d@.skip(i as int)[0] == d@[i as int]);
            assert(d@.skip(i as int).skip(1) =~= d@.skip(i as int + 1));
        }
        if matches!(d.at(i).unwrap(), Base::P) {
            r = r + 1;
        }
        i = i + 1;
    }
    r
}

/// Quote a sequence: rotate each symbol one step, expanding the last
/// alphabet symbol to two.  The bound keeps the result representable.
pub fn quote(d: DNA) -> (r: DNA)
    requires
        quote_spec(d@).len() <= usize::MAX,
    ensures
        r@ == quote_spec(d@),
{
    let ghost total = quote_spec(d@);
    let mut src = d;
    let mut r = DNA::default();
    proof {
        assert(Seq::<Base>::empty() + total =~= total);
    }
    loop
        invariant
            total.len() <= usize::MAX,
            total == r@ + quote_spec(src@),
        decreases src@.len(),
    {
        let ghost pre_src = src@;
        let ghost pre = r@;
        match src.pop() {
            None => {
                proof {
                    assert(pre_src.len() == 0);
                    assert(quote_spec(pre_src) =~= Seq::<Base>::empty());
                    assert(total =~= r@);
                }
                return r;
            },
            Some(b) => {
                proof {
                    assert(quote_spec(pre_src) == quote_base(b) + quote_spec(src@));
                    assert(r@.len() + quote_base(b).len() <= total.len());
                }
                match b {
                    Base::I => r.append(Base::C),
                    Base::C => r.append(Base::F),
                    Base::F => r.append(Base::P),
                    Base::P => {
                        r.append(Base::I);
                        r.append(Base::C);
                    },
                }
                proof {
                    assert(pre + quote_spec(pre_src) =~= r@ + quote_spec(src@));
                }
            },
        }
    }
}

/// Apply the quote transform `l` times, iteratively.  The bound keeps the
/// result representable; `try_protect` checks it at run time instead.
pub fn protect(l: usize, d: DNA) -> (r: DNA)
    requires
        protect_spec(l as nat, d@).len() <= usize::MAX,
    ensures
        r@ == protect_spec(l as nat, d@),
{
    try_protect(l, d).unwrap()
}

/// Apply the quote transform `l` times, iteratively, checking at each level
/// that the result stays representable; `None` exactly when it would not.
pub fn try_protect(l: usize, d: DNA) -> (r: Option<DNA>)
    ensures
        (protect_spec(l as nat, d@).len() <= usize::MAX) <==> (r is Some),
        r matches Some(q) ==> q@ == protect_spec(l as nat, d@),
{
    let ghost total = protect_spec(l as nat, d@);
    let mut cur = d;
    let mut k: usize = 0;
    while k < l
        invariant
            k <= l,
            cur@ == protect_spec(k as nat, d@),
            total == protect_spec(l as nat, d@),
        decreases l - k,
    {
        proof {
            lemma_protect_protect(1, k as nat, d@);
            reveal_with_fuel(protect_spec, 2);
            assert(protect_spec(1, cur@) == quote_spec(cur@));
        }
        let extra = count_p_run(&cur);
        let n = cur.len();
        proof {
            lemma_quote_len(cur@);
        }
        if extra > usize::MAX - n {
            // The next level would not fit the machine; neither would the
            // final result, since protecting never shrinks.
            proof {
                lemma_protect_protect((l - k - 1) as nat, (k + 1) as nat, d@);
                lemma_protect_grows((l - k - 1) as nat, protect_spec((k + 1) as nat, d@));
            }
            return None;
        }
        cur = quote(cur);
        k = k + 1;
    }
    // The machine holds the result, so its length is representable.
    let fits = cur.len();
    proof {
        assert(protect_spec(l as nat, d@).len() == fits as nat);
    }
    Some(cur)
}

} // verus!
