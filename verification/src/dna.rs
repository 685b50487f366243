//! The four-symbol alphabet and the persistent symbol sequence.
//!
//! The sequence is backed by `im::Vector`, a structurally shared container
//! with cheap front edits, slicing and concatenation.  Verus sees the backing
//! vector only through the model function `vec_model` and a small set of
//! trusted wrappers; everything built on top of them is verified.

use vstd::prelude::*;
use vstd::string::StringSliceAdditionalSpecFns;

verus! {

/// One symbol of the closed four-letter alphabet.
#[derive(Copy, Clone, Debug, Eq, PartialEq, Hash, Structural)]
pub enum Base {
    I,
    C,
    F,
    P,
}

/// The character that denotes a symbol in textual form.
pub open spec fn base_char(b: Base) -> char {
    match b {
        Base::I => 'I',
        Base::C => 'C',
        Base::F => 'F',
        Base::P => 'P',
    }
}

/// The ASCII byte that denotes a symbol in textual form.
pub open spec fn base_byte(b: Base) -> u8 {
    match b {
        Base::I => 73,
        Base::C => 67,
        Base::F => 70,
        Base::P => 80,
    }
}

/// The symbol denoted by a character, if any.
pub open spec fn char_base(c: char) -> Option<Base> {
    match c {
        'I' => Some(Base::I),
        'C' => Some(Base::C),
        'F' => Some(Base::F),
        'P' => Some(Base::P),
        _ => None,
    }
}

impl Base {
    /// Read a symbol from its character, rejecting every other character.
    pub fn from_char(c: char) -> (r: Option<Base>)
        ensures
            r == char_base(c),
    {
        match c {
            'I' => Some(Base::I),
            'C' => Some(Base::C),
            'F' => Some(Base::F),
            'P' => Some(Base::P),
            _ => None,
        }
    }

    /// The character that denotes this symbol.
    pub fn to_char(self) -> (c: char)
        ensures
            c == base_char(self),
    {
        match self {
            Base::I => 'I',
            Base::C => 'C',
            Base::F => 'F',
            Base::P => 'P',
        }
    }
}

#[verifier::external_type_specification]
#[verifier::external_body]
#[verifier::reject_recursive_types(A)]
pub struct ExVector<A>(im::vector::Vector<A>);

/// The symbols held by a backing vector, in order.
pub uninterp spec fn vec_model(v: im::vector::Vector<Base>) -> Seq<Base>;

/// Relies on im::Vector::new: constructs the empty vector.
#[verifier::external_body]
fn vec_new() -> (r: im::vector::Vector<Base>)
    ensures
        vec_model(r) == Seq::<Base>::empty(),
{
    im::vector::Vector::new()
}

/// Relies on im::Vector::len: the number of elements held.
#[verifier::external_body]
fn vec_len(v: &im::vector::Vector<Base>) -> (r: usize)
    ensures
        r == vec_model(*v).len(),
{
    v.len()
}

/// Relies on im::Vector::pop_front: removes and returns the first element,
/// or returns None on an empty vector.
#[verifier::external_body]
fn vec_pop_front(v: &mut im::vector::Vector<Base>) -> (r: Option<Base>)
    ensures
        vec_model(*old(v)).len() == 0 ==> r is None && vec_model(*final(v)) == vec_model(*old(v)),
        vec_model(*old(v)).len() > 0 ==> r == Some(vec_model(*old(v))[0])
            && vec_model(*final(v)) == vec_model(*old(v)).skip(1),
{
    v.pop_front()
}

/// Relies on im::Vector::front: returns the first element without removing it.
#[verifier::external_body]
fn vec_front(v: &im::vector::Vector<Base>) -> (r: Option<Base>)
    ensures
        vec_model(*v).len() == 0 ==> r is None,
        vec_model(*v).len() > 0 ==> r == Some(vec_model(*v)[0]),
{
    v.front().copied()
}

/// Relies on im::Vector::get: returns the element at the index, or None
/// when the index is out of bounds.
#[verifier::external_body]
fn vec_get(v: &im::vector::Vector<Base>, i: usize) -> (r: Option<Base>)
    ensures
        i < vec_model(*v).len() ==> r == Some(vec_model(*v)[i as int]),
        i >= vec_model(*v).len() ==> r is None,
{
    v.get(i).copied()
}

/// Relies on im::Vector::push_front: inserts an element at the front.
/// The length bound keeps the vector's own length counter from overflowing.
#[verifier::external_body]
fn vec_push_front(v: &mut im::vector::Vector<Base>, b: Base)
    requires
        vec_model(*old(v)).len() < usize::MAX,
    ensures
        vec_model(*final(v)) == seq![b] + vec_model(*old(v)),
{
    v.push_front(b)
}

/// Relies on im::Vector::push_back: appends an element at the back.
/// The length bound keeps the vector's own length counter from overflowing.
#[verifier::external_body]
fn vec_push_back(v: &mut im::vector::Vector<Base>, b: Base)
    requires
        vec_model(*old(v)).len() < usize::MAX,
    ensures
        vec_model(*final(v)) == vec_model(*old(v)).push(b),
{
    v.push_back(b)
}

/// Relies on im::Vector::append: appends a whole vector at the back.
/// im::Vector::append checks the combined length and panics on overflow,
/// which the length bound rules out.
#[verifier::external_body]
fn vec_append(v: &mut im::vector::Vector<Base>, other: im::vector::Vector<Base>)
    requires
        vec_model(*old(v)).len() + vec_model(other).len() <= usize::MAX,
    ensures
        vec_model(*final(v)) == vec_model(*old(v)) + vec_model(other),
{
    v.append(other)
}

/// Relies on im::Vector::skip: a new vector holding all but the first
/// `count` elements.  im::Vector::skip asserts `count` is in bounds.
#[verifier::external_body]
fn vec_skip(v: &im::vector::Vector<Base>, count: usize) -> (r: im::vector::Vector<Base>)
    requires
        count <= vec_model(*v).len(),
    ensures
        vec_model(r) == vec_model(*v).skip(count as int),
{
    v.skip(count)
}

/// Relies on im::Vector::take: a new vector holding the first `count`
/// elements.  im::Vector::take asserts `count` is in bounds.
#[verifier::external_body]
fn vec_take(v: &im::vector::Vector<Base>, count: usize) -> (r: im::vector::Vector<Base>)
    requires
        count <= vec_model(*v).len(),
    ensures
        vec_model(r) == vec_model(*v).take(count as int),
{
    v.take(count)
}

/// Relies on im::Vector::clone: a structurally shared copy with the same
/// elements.
#[verifier::external_body]
fn vec_clone(v: &im::vector::Vector<Base>) -> (r: im::vector::Vector<Base>)
    ensures
        vec_model(r) == vec_model(*v),
{
    v.clone()
}

/// `subseq` interprets its half-open interval by clamping: the end is clamped
/// to the length, the start is clamped to the (clamped) end, so an inverted or
/// out-of-range interval yields an empty sequence rather than an error.
pub open spec fn subseq_spec(s: Seq<Base>, start: nat, end: nat) -> Seq<Base> {
    let e = if end <= s.len() { end } else { s.len() };
    let b = if start <= e { start } else { e };
    s.subrange(b as int, e as int)
}

/// The symbol denoted by an ASCII byte, if any.
pub open spec fn byte_base(x: u8) -> Option<Base> {
    if x == 73 {
        Some(Base::I)
    } else if x == 67 {
        Some(Base::C)
    } else if x == 70 {
        Some(Base::F)
    } else if x == 80 {
        Some(Base::P)
    } else {
        None
    }
}

/// The symbols denoted by a byte string; bytes that denote no symbol are
/// dropped silently.
pub open spec fn bases_of(bs: Seq<u8>) -> Seq<Base>
    decreases bs.len(),
{
    if bs.len() == 0 {
        Seq::empty()
    } else {
        let rest = bases_of(bs.skip(1));
        match byte_base(bs[0]) {
            Some(b) => seq![b] + rest,
            None => rest,
        }
    }
}

/// The byte string that denotes a symbol sequence.
pub open spec fn bytes_of(s: Seq<Base>) -> Seq<u8> {
    s.map_values(|b: Base| base_byte(b))
}

/// Whether `needle` occurs in `h` starting at position `j`.
pub open spec fn occurs_at(h: Seq<Base>, needle: Seq<Base>, j: int) -> bool {
    0 <= j && j + needle.len() <= h.len() && h.subrange(j, j + needle.len()) == needle
}

/// The position just past the leftmost occurrence of `needle` in `h` whose
/// start lies at or after `from`, or `None` when no such occurrence exists.
pub open spec fn find_first_spec(h: Seq<Base>, needle: Seq<Base>, from: nat) -> Option<nat>
    decreases h.len() - from,
{
    if from + needle.len() > h.len() {
        None
    } else if needle.len() == 0 {
        Some(from)
    } else if h.subrange(from as int, from + needle.len() as int) == needle {
        Some((from + needle.len()) as nat)
    } else {
        find_first_spec(h, needle, from + 1)
    }
}

/// Law: the search finds exactly the leftmost occurrence at or after `from`,
/// reported by its end position, and reports `None` exactly when no
/// occurrence starts at or after `from`.
pub proof fn lemma_find_first_spec(h: Seq<Base>, needle: Seq<Base>, from: nat)
    ensures
        match find_first_spec(h, needle, from) {
            Some(e) => from + needle.len() <= e <= h.len() && occurs_at(h, needle, e - needle.len())
                && forall|j: int| from <= j < e - needle.len() ==> !occurs_at(h, needle, j),
            None => forall|j: int| from <= j ==> !occurs_at(h, needle, j),
        },
    decreases h.len() - from,
{
    if from + needle.len() > h.len() {
        assert(forall|j: int| from <= j ==> !occurs_at(h, needle, j));
    } else if needle.len() == 0 {
        assert(h.subrange(from as int, from as int) =~= needle);
    } else if h.subrange(from as int, from + needle.len() as int) == needle {
    } else {
        lemma_find_first_spec(h, needle, from + 1);
        assert(!occurs_at(h, needle, from as int));
    }
}

/// An ordered, persistent, structurally shared sequence of symbols.
///
/// All operations clamp out-of-range indices instead of failing, and the
/// mutating operations are value-producing: after a sub-range is captured
/// with `subseq`, later edits of the source are never observable through
/// the capture.
#[derive(Debug)]
pub struct DNA {
    v: im::vector::Vector<Base>,
}

impl View for DNA {
    type V = Seq<Base>;

    closed spec fn view(&self) -> Seq<Base> {
        vec_model(self.v)
    }
}

impl Default for DNA {
    /// The empty sequence.
    fn default() -> (d: DNA)
        ensures
            d@ == Seq::<Base>::empty(),
    {
        DNA { v: vec_new() }
    }
}

impl DNA {
    /// The number of symbols held.
    pub fn len(&self) -> (n: usize)
        ensures
            n == self@.len(),
    {
        vec_len(&self.v)
    }

    /// Read a sequence from text; characters that denote no symbol are
    /// dropped silently.
    pub fn from_str(s: &str) -> (d: DNA)
        ensures
            d@ == bases_of(s.spec_bytes()),
    {
        let bs = s.as_bytes();
        let mut d = DNA::default();
        let n = bs.len();
        let mut i: usize = 0;
        proof {
            assert(bs@.skip(0) =~= bs@);
            assert(Seq::<Base>::empty() + bases_of(bs@) =~= bases_of(bs@));
        }
        while i < n
            invariant
                n == bs@.len(),
                i <= n,
                d@.len() <= i,
                bases_of(bs@) == d@ + bases_of(bs@.skip(i as int)),
            decreases n - i,
        {
            let ghost pre = d@;
            assert(bs@.skip(i as int)[0] == bs@[i as int]);
            assert(bs@.skip(i as int).skip(1) =~= bs@.skip(i as int + 1));
            let x = bs[i];
            if x == 73 {
                d.append(Base::I);
            } else if x == 67 {
                d.append(Base::C);
            } else if x == 70 {
                d.append(Base::F);
            } else if x == 80 {
                d.append(Base::P);
            }
            proof {
                match byte_base(bs@[i as int]) {
                    Some(b) => {
                        assert(d@ =~= pre.push(b));
                        assert(pre + (seq![b] + bases_of(bs@.skip(i as int + 1))) =~= d@
                            + bases_of(bs@.skip(i as int + 1)));
                    },
                    None => {},
                }
            }
            i = i + 1;
        }
        proof {
            assert(bs@.skip(n as int) =~= Seq::<u8>::empty());
        }
        d
    }

    /// The text form of the sequence, as ASCII bytes.
    pub fn to_ascii(&self) -> (r: Vec<u8>)
        ensures
            r@ == bytes_of(self@),
    {
        let n = self.len();
        let mut r: Vec<u8> = Vec::new();
        let mut i: usize = 0;
        while i < n
            invariant
                n == self@.len(),
                i <= n,
                r@ =~= bytes_of(self@.take(i as int)),
            decreases n - i,
        {
            let b = self.at(i).unwrap();
            let x = match b {
                Base::I => 73u8,
                Base::C => 67u8,
                Base::F => 70u8,
                Base::P => 80u8,
            };
            r.push(x);
            proof {
                assert(r@ =~= bytes_of(self@.take(i as int + 1)));
            }
            i = i + 1;
        }
        proof {
            assert(self@.take(n as int) =~= self@);
        }
        r
    }

    /// A structurally shared copy holding the same symbols.
    pub fn dup(&self) -> (d: DNA)
        ensures
            d@ == self@,
    {
        DNA { v: vec_clone(&self.v) }
    }

    /// Remove and return the front symbol; `None` on an empty sequence.
    pub fn pop(&mut self) -> (r: Option<Base>)
        ensures
            old(self)@.len() == 0 ==> r is None && final(self)@ == old(self)@,
            old(self)@.len() > 0 ==> r == Some(old(self)@[0])
                && final(self)@ == old(self)@.skip(1),
    {
        vec_pop_front(&mut self.v)
    }

    /// Return the front symbol without removing it; `None` on an empty
    /// sequence.
    pub fn peek(&mut self) -> (r: Option<Base>)
        ensures
            final(self)@ == old(self)@,
            old(self)@.len() == 0 ==> r is None,
            old(self)@.len() > 0 ==> r == Some(old(self)@[0]),
    {
        vec_front(&self.v)
    }

    /// Remove up to `count` symbols from the front, clamped to the length.
    /// The new length is the old length minus `count`, or zero if `count`
    /// exceeds the old length.
    pub fn drop(&mut self, count: usize)
        ensures
            count <= old(self)@.len() ==> final(self)@ == old(self)@.skip(count as int),
            count > old(self)@.len() ==> final(self)@ == Seq::<Base>::empty(),
            final(self)@.len() == if count <= old(self)@.len() {
                old(self)@.len() - count
            } else {
                0
            },
    {
        let n = vec_len(&self.v);
        let k = if count <= n {
            count
        } else {
            n
        };
        self.v = vec_skip(&self.v, k);
        proof {
            if count > old(self)@.len() {
                assert(final(self)@ =~= Seq::<Base>::empty());
            }
        }
    }

    /// Insert one symbol at the front.
    pub fn prepend(&mut self, b: Base)
        requires
            old(self)@.len() < usize::MAX,
        ensures
            final(self)@ == seq![b] + old(self)@,
    {
        vec_push_front(&mut self.v, b)
    }

    /// Append one symbol at the back.
    pub fn append(&mut self, b: Base)
        requires
            old(self)@.len() < usize::MAX,
        ensures
            final(self)@ == old(self)@.push(b),
    {
        vec_push_back(&mut self.v, b)
    }

    /// Append a whole sequence at the back, consuming it.
    pub fn concat(&mut self, rhs: DNA)
        requires
            old(self)@.len() + rhs@.len() <= usize::MAX,
        ensures
            final(self)@ == old(self)@ + rhs@,
    {
        vec_append(&mut self.v, rhs.v)
    }

    /// The sub-sequence over the half-open interval `[start, end)`, with
    /// both bounds clamped into range and `start` clamped to `end`; never
    /// fails.
    pub fn subseq(&self, start: usize, end: usize) -> (r: DNA)
        ensures
            r@ == subseq_spec(self@, start as nat, end as nat),
            start <= end && end <= self@.len() ==> r@ == self@.subrange(
                start as int,
                end as int,
            ),
    {
        let n = vec_len(&self.v);
        let e = if end <= n {
            end
        } else {
            n
        };
        let b = if start <= e {
            start
        } else {
            e
        };
        let tail = vec_skip(&self.v, b);
        proof {
            assert(vec_model(tail).take(e - b) =~= self@.subrange(b as int, e as int));
        }
        DNA { v: vec_take(&tail, e - b) }
    }

    /// The symbol at the index; `None` when the index is out of bounds.
    pub fn at(&self, index: usize) -> (r: Option<Base>)
        ensures
            index < self@.len() ==> r == Some(self@[index as int]),
            index >= self@.len() ==> r is None,
    {
        vec_get(&self.v, index)
    }

    /// Replace the whole sequence by another, consuming it.
    pub fn assign(&mut self, other: DNA)
        ensures
            final(self)@ == other@,
    {
        self.v = other.v;
    }

    /// The position just past the leftmost occurrence of `needle` whose
    /// start lies at or after `from`, or `None` when no such occurrence
    /// exists.  An empty needle matches immediately, so the result is then
    /// `from` itself whenever `from` is within bounds (the end of the
    /// sequence included).
    ///
    /// The search is the naive one: on a mismatch at needle position `k`,
    /// the cursor backtracks to one past the start of the failed attempt
    /// and retries from needle position zero.
    pub fn find_first(&self, needle: &DNA, from: usize) -> (r: Option<usize>)
        ensures
            match find_first_spec(self@, needle@, from as nat) {
                Some(e) => r matches Some(u) && u == e && u <= self@.len(),
                None => r is None,
            },
    {
        let h_len = self.len();
        let n_len = needle.len();
        if from > h_len {
            return None;
        }
        let mut np: usize = 0;
        let mut hp: usize = from;
        proof {
            assert(needle@.subrange(0, 0) =~= self@.subrange(from as int, from as int));
        }
        loop
            invariant
                h_len == self@.len(),
                n_len == needle@.len(),
                np <= n_len,
                np <= hp,
                hp <= h_len,
                from <= hp - np,
                needle@.subrange(0, np as int) == self@.subrange(hp - np, hp as int),
                find_first_spec(self@, needle@, from as nat) == find_first_spec(
                    self@,
                    needle@,
                    (hp - np) as nat,
                ),
            decreases h_len - (hp - np), n_len - np,
        {
            let ghost start = hp - np;
            if np == n_len {
                proof {
                    assert(self@.subrange(start, start + needle@.len() as int) == needle@);
                }
                return Some(hp);
            }
            let nb = needle.at(np).unwrap();
            let matched = match self.at(hp) {
                Some(hb) => hb == nb,
                None => false,
            };
            if matched {
                proof {
                    assert(needle@.subrange(0, np + 1) =~= self@.subrange(start, hp + 1)) by {
                        assert(forall|j: int|
                            0 <= j < np ==> needle@.subrange(0, np + 1)[j] == needle@.subrange(
                                0,
                                np as int,
                            )[j]);
                    }
                }
                hp = hp + 1;
                np = np + 1;
            } else {
                // The attempt starting at `start` has failed.
                proof {
                    if start + needle@.len() <= self@.len() {
                        if self@.subrange(start, start + needle@.len() as int) == needle@ {
                            assert(self@.subrange(start, start + needle@.len() as int)[np as int]
                                == self@[start + np]);
                            assert(false);
                        }
                    }
                }
                if hp - np >= h_len {
                    // No occurrence can start at or after the end.
                    return None;
                }
                proof {
                    assert(find_first_spec(self@, needle@, start as nat) == find_first_spec(
                        self@,
                        needle@,
                        (start + 1) as nat,
                    ));
                    assert(needle@.subrange(0, 0) =~= self@.subrange(start + 1, start + 1));
                }
                hp = hp - np + 1;
                np = 0;
            }
        }
    }
}

impl PartialEq for DNA {
    /// Two sequences are equal when they hold the same symbols in the same
    /// order.
    fn eq(&self, other: &DNA) -> (r: bool) {
        let n = self.len();
        if n != other.len() {
            return false;
        }
        let mut i: usize = 0;
        while i < n
            invariant
                n == self@.len(),
                n == other@.len(),
                i <= n,
                forall|j: int| 0 <= j < i ==> self@[j] == other@[j],
            decreases n - i,
        {
            let a = self.at(i).unwrap();
            let b = other.at(i).unwrap();
            if a != b {
                return false;
            }
            i = i + 1;
        }
        proof {
            assert(self@ =~= other@);
        }
        true
    }
}

impl vstd::std_specs::cmp::PartialEqSpecImpl for DNA {
    open spec fn obeys_eq_spec() -> bool {
        true
    }

    open spec fn eq_spec(&self, other: &DNA) -> bool {
        self@ == other@
    }
}

/// Law: the sub-sequence of an inverted interval is empty, and clamping the
/// interval into range first never yields a shorter result.
pub proof fn lemma_subseq_clamp(s: Seq<Base>, a: nat, b: nat)
    ensures
        a >= b ==> subseq_spec(s, a, b) == Seq::<Base>::empty(),
        subseq_spec(s, a, b).len() <= subseq_spec(
            s,
            vstd::math::min(vstd::math::min(a as int, b as int), s.len() as int) as nat,
            vstd::math::min(vstd::math::max(a as int, b as int), s.len() as int) as nat,
        ).len(),
{
    if a >= b {
        assert(subseq_spec(s, a, b) =~= Seq::<Base>::empty());
    }
}

} // verus!
