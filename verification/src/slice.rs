//! Ordered byte-string view.
//!
//! A `Slice` is a shrink-only view over a byte sequence: `remove_prefix`
//! advances the start of the view and `clear` empties it, while the
//! underlying bytes are never modified.  Ordering is lexicographic over the
//! shared-length prefix; when the prefixes are equal the shorter view orders
//! first.  Equality is ordering-equivalence: two views are equal exactly when
//! they present the same bytes.

use vstd::prelude::*;
use vstd::slice::slice_subrange;
use vstd::string::StrSliceExecFns;
use vstd::string::StringSliceAdditionalSpecFns;
use core::cmp::Ordering;

verus! {

/// Standard byte-string ordering: `a` is strictly less than `b` when, at the
/// first position where they differ, `a` holds the smaller byte, or when `a`
/// is a strict prefix of `b`.
pub open spec fn lex_lt(a: Seq<u8>, b: Seq<u8>) -> bool
    decreases a.len(),
{
    if b.len() == 0 {
        false
    } else if a.len() == 0 {
        true
    } else if a[0] != b[0] {
        a[0] < b[0]
    } else {
        lex_lt(a.drop_first(), b.drop_first())
    }
}

/// `a` starts with `b`.
pub open spec fn starts_with(a: Seq<u8>, b: Seq<u8>) -> bool {
    a.len() >= b.len() && a.subrange(0, b.len() as int) == b
}

/// Reducing `lex_lt` past an agreeing prefix of length `i`.
pub proof fn lemma_lex_lt_skip(a: Seq<u8>, b: Seq<u8>, i: int)
    requires
        0 <= i <= a.len(),
        i <= b.len(),
        forall|j: int| 0 <= j < i ==> a[j] == b[j],
    ensures
        lex_lt(a, b) == lex_lt(a.skip(i), b.skip(i)),
    decreases i,
{
    if i == 0 {
        assert(a.skip(0) =~= a);
        assert(b.skip(0) =~= b);
    } else {
        assert(a[0] == b[0]);
        lemma_lex_lt_skip(a.drop_first(), b.drop_first(), i - 1);
        assert(a.drop_first().skip(i - 1) =~= a.skip(i));
        assert(b.drop_first().skip(i - 1) =~= b.skip(i));
    }
}

/// Ordering totality: for any two byte strings exactly one of `a < b`,
/// `a == b`, `b < a` holds.
pub proof fn lemma_lex_total(a: Seq<u8>, b: Seq<u8>)
    ensures
        lex_lt(a, b) ==> !lex_lt(b, a) && a != b,
        lex_lt(b, a) ==> !lex_lt(a, b) && a != b,
        !lex_lt(a, b) && !lex_lt(b, a) ==> a == b,
    decreases a.len(),
{
    if a.len() > 0 && b.len() > 0 && a[0] == b[0] {
        lemma_lex_total(a.drop_first(), b.drop_first());
        if a.drop_first() == b.drop_first() {
            assert forall|i: int| 0 <= i < a.len() implies a[i] == b[i] by {
                if i > 0 {
                    assert(a[i] == a.drop_first()[i - 1]);
                    assert(b[i] == b.drop_first()[i - 1]);
                }
            }
            assert(a =~= b);
        }
        if a == b {
            assert(a.drop_first() =~= b.drop_first());
        }
    }
}

/// Ordering transitivity.
pub proof fn lemma_lex_trans(a: Seq<u8>, b: Seq<u8>, c: Seq<u8>)
    requires
        lex_lt(a, b),
        lex_lt(b, c),
    ensures
        lex_lt(a, c),
    decreases a.len(),
{
    if a.len() > 0 {
        if a[0] == b[0] && b[0] == c[0] {
            lemma_lex_trans(a.drop_first(), b.drop_first(), c.drop_first());
        }
    }
}

/// Three-way lexicographic comparison of two owned byte strings.
pub fn compare_bytes(a: &Vec<u8>, b: &Vec<u8>) -> (r: Ordering)
    ensures
        r == Ordering::Less <==> lex_lt(a@, b@),
        r == Ordering::Greater <==> lex_lt(b@, a@),
        r == Ordering::Equal <==> a@ == b@,
{
    let a_len = a.len();
    let b_len = b.len();
    let n = if a_len < b_len {
        a_len
    } else {
        b_len
    };
    let mut i: usize = 0;
    while i < n
        invariant
            a_len == a@.len(),
            b_len == b@.len(),
            n <= a_len,
            n <= b_len,
            0 <= i <= n,
            forall|j: int| 0 <= j < i ==> a@[j] == b@[j],
        decreases n - i,
    {
        let x = a[i];
        let y = b[i];
        if x < y {
            proof {
                lemma_lex_lt_skip(a@, b@, i as int);
                assert(a@.skip(i as int)[0] == a@[i as int]);
                assert(b@.skip(i as int)[0] == b@[i as int]);
                assert(lex_lt(a@.skip(i as int), b@.skip(i as int)));
                lemma_lex_total(a@, b@);
            }
            return Ordering::Less;
        }
        if y < x {
            proof {
                lemma_lex_lt_skip(b@, a@, i as int);
                assert(a@.skip(i as int)[0] == a@[i as int]);
                assert(b@.skip(i as int)[0] == b@[i as int]);
                assert(lex_lt(b@.skip(i as int), a@.skip(i as int)));
                lemma_lex_total(a@, b@);
            }
            return Ordering::Greater;
        }
        i = i + 1;
    }
    proof {
        lemma_lex_lt_skip(a@, b@, n as int);
        lemma_lex_lt_skip(b@, a@, n as int);
        assert(a@.skip(n as int).len() == a_len - n);
        assert(b@.skip(n as int).len() == b_len - n);
        lemma_lex_total(a@, b@);
    }
    if a_len < b_len {
        Ordering::Less
    } else if b_len < a_len {
        Ordering::Greater
    } else {
        proof {
            assert(a@ =~= b@);
        }
        Ordering::Equal
    }
}

/// A read-mostly view over bytes: the visible bytes are the stored data from
/// `start` on.  The holder of the backing bytes keeps them alive; copying a
/// `Slice` copies the view, and comparing two of them compares visible bytes.
pub struct Slice {
    data: Vec<u8>,
    start: usize,
}

impl View for Slice {
    type V = Seq<u8>;

    closed spec fn view(&self) -> Seq<u8> {
        self.data@.skip(self.start as int)
    }
}

impl Slice {
    /// The view never reaches past its backing bytes.
    #[verifier::type_invariant]
    spec fn wf(self) -> bool {
        self.start <= self.data.len()
    }

    /// An empty view.
    pub fn new() -> (r: Slice)
        ensures
            r@ == Seq::<u8>::empty(),
    {
        let r = Slice { data: Vec::new(), start: 0 };
        proof {
            assert(r@ =~= Seq::<u8>::empty());
        }
        r
    }

    /// A view over the bytes of `s`.
    pub fn from_str(s: &str) -> (r: Slice)
        ensures
            r@ == s.spec_bytes(),
    {
        let r = Slice { data: s.as_bytes_vec(), start: 0 };
        proof {
            assert(r@ =~= s.spec_bytes());
        }
        r
    }

    /// A copy of another view: presents the same bytes.
    pub fn from_slice(slice: &Slice) -> (r: Slice)
        ensures
            r@ == slice@,
    {
        proof {
            use_type_invariant(slice);
        }
        let r = Slice { data: slice.data.clone(), start: slice.start };
        proof {
            assert(r@ =~= slice@);
        }
        r
    }

    /// The visible bytes.
    pub fn data<'a>(&'a self) -> (r: &'a [u8])
        ensures
            r@ == self@,
    {
        proof {
            use_type_invariant(self);
        }
        slice_subrange(self.data.as_slice(), self.start, self.data.len())
    }

    /// Number of visible bytes.
    pub fn size(&self) -> (r: usize)
        ensures
            r == self@.len(),
    {
        proof {
            use_type_invariant(self);
        }
        self.data.len() - self.start
    }

    /// Whether the view holds no bytes.
    pub fn empty(&self) -> (r: bool)
        ensures
            r == (self@.len() == 0),
    {
        proof {
            use_type_invariant(self);
        }
        self.data.len() == self.start
    }

    /// Resets the view to empty.
    pub fn clear(&mut self)
        ensures
            final(self)@ == Seq::<u8>::empty(),
    {
        self.start = 0;
        self.data = Vec::new();
        proof {
            assert(self@ =~= Seq::<u8>::empty());
        }
    }

    /// Drops the first `n` visible bytes from the view.
    pub fn remove_prefix(&mut self, n: usize)
        requires
            n <= old(self)@.len(),
        ensures
            final(self)@ == old(self)@.skip(n as int),
    {
        proof {
            use_type_invariant(&*self);
        }
        self.start = self.start + n;
        proof {
            assert(self@ =~= old(self)@.skip(n as int));
        }
    }

    /// The byte at visible offset `i`.
    pub fn index(&self, i: usize) -> (r: u8)
        requires
            i < self@.len(),
        ensures
            r == self@[i as int],
    {
        proof {
            use_type_invariant(self);
        }
        self.data[self.start + i]
    }

    /// Whether this view begins with all of `other`'s bytes.
    pub fn start_with(&self, other: &Slice) -> (r: bool)
        ensures
            r == starts_with(self@, other@),
    {
        let n = other.size();
        if self.size() < n {
            return false;
        }
        let mut i: usize = 0;
        while i < n
            invariant
                n == other@.len() <= self@.len(),
                0 <= i <= n,
                forall|j: int| 0 <= j < i ==> self@[j] == other@[j],
            decreases n - i,
        {
            if self.index(i) != other.index(i) {
                assert(self@.subrange(0, n as int)[i as int] != other@[i as int]);
                return false;
            }
            i = i + 1;
        }
        proof {
            assert(self@.subrange(0, n as int) =~= other@);
        }
        true
    }

    /// Three-way lexicographic comparison of the visible bytes.
    pub fn compare(&self, other: &Slice) -> (r: Ordering)
        ensures
            r == Ordering::Less <==> lex_lt(self@, other@),
            r == Ordering::Greater <==> lex_lt(other@, self@),
            r == Ordering::Equal <==> self@ == other@,
    {
        let a_len = self.size();
        let b_len = other.size();
        let n = if a_len < b_len {
            a_len
        } else {
            b_len
        };
        let mut i: usize = 0;
        while i < n
            invariant
                a_len == self@.len(),
                b_len == other@.len(),
                n <= a_len,
                n <= b_len,
                0 <= i <= n,
                forall|j: int| 0 <= j < i ==> self@[j] == other@[j],
            decreases n - i,
        {
            let x = self.index(i);
            let y = other.index(i);
            if x < y {
                proof {
                    lemma_lex_lt_skip(self@, other@, i as int);
                    assert(self@.skip(i as int)[0] == self@[i as int]);
                    assert(other@.skip(i as int)[0] == other@[i as int]);
                    assert(lex_lt(self@.skip(i as int), other@.skip(i as int)));
                    lemma_lex_total(self@, other@);
                }
                return Ordering::Less;
            }
            if y < x {
                proof {
                    lemma_lex_lt_skip(other@, self@, i as int);
                    assert(self@.skip(i as int)[0] == self@[i as int]);
                    assert(other@.skip(i as int)[0] == other@[i as int]);
                    assert(lex_lt(other@.skip(i as int), self@.skip(i as int)));
                    lemma_lex_total(self@, other@);
                }
                return Ordering::Greater;
            }
            i = i + 1;
        }
        proof {
            lemma_lex_lt_skip(self@, other@, n as int);
            lemma_lex_lt_skip(other@, self@, n as int);
            assert(self@.skip(n as int).len() == a_len - n);
            assert(other@.skip(n as int).len() == b_len - n);
            lemma_lex_total(self@, other@);
        }
        if a_len < b_len {
            Ordering::Less
        } else if b_len < a_len {
            Ordering::Greater
        } else {
            proof {
                assert(self@ =~= other@);
            }
            Ordering::Equal
        }
    }
}

impl PartialEq for Slice {
    /// Equality is ordering-equivalence: equal visible bytes.
    fn eq(&self, other: &Slice) -> (r: bool) {
        matches!(self.compare(other), Ordering::Equal)
    }
}

impl vstd::std_specs::cmp::PartialEqSpecImpl for Slice {
    open spec fn obeys_eq_spec() -> bool {
        true
    }

    open spec fn eq_spec(&self, other: &Slice) -> bool {
        self@ == other@
    }
}

impl PartialOrd for Slice {
    fn partial_cmp(&self, other: &Slice) -> (r: Option<Ordering>) {
        proof {
            lemma_lex_total(self@, other@);
        }
        Some(self.compare(other))
    }
}

impl vstd::std_specs::cmp::PartialOrdSpecImpl for Slice {
    open spec fn obeys_partial_cmp_spec() -> bool {
        true
    }

    open spec fn partial_cmp_spec(&self, other: &Slice) -> Option<Ordering> {
        Some(
            if lex_lt(self@, other@) {
                Ordering::Less
            } else if lex_lt(other@, self@) {
                Ordering::Greater
            } else {
                Ordering::Equal
            },
        )
    }
}

/// Prefix law: removing a prefix of zero bytes changes nothing.
pub proof fn lemma_remove_prefix_zero(a: Seq<u8>)
    ensures
        a.skip(0) == a,
{
    assert(a.skip(0) =~= a);
}

/// Prefix law: removing the whole view leaves the empty view.
pub proof fn lemma_remove_prefix_all(a: Seq<u8>)
    ensures
        a.skip(a.len() as int) == Seq::<u8>::empty(),
{
    assert(a.skip(a.len() as int) =~= Seq::<u8>::empty());
}

/// Prefix law: every byte string starts with itself.
pub proof fn lemma_starts_with_reflexive(a: Seq<u8>)
    ensures
        starts_with(a, a),
{
    assert(a.subrange(0, a.len() as int) =~= a);
}

/// Prefix law: nothing starts with a longer byte string.
pub proof fn lemma_starts_with_longer(a: Seq<u8>, b: Seq<u8>)
    requires
        b.len() > a.len(),
    ensures
        !starts_with(a, b),
{
}

} // verus!
