//! Bit prefixes: the leading bits of a name, marking out one region of the
//! name space. Prefixes form a binary trie; a name belongs to a section when
//! the section's prefix matches it.

use vstd::prelude::*;
use crate::error::Error;
use crate::name::{copy_vec, Name};

verus! {

/// The leading bits of a region of the name space, most significant first.
pub struct Prefix {
    bits: Vec<bool>,
}

impl View for Prefix {
    type V = Seq<bool>;

    closed spec fn view(&self) -> Seq<bool> {
        self.bits@
    }
}

/// Whether the bit string `p` is a prefix of the bit string `n`.
pub open spec fn prefix_matches(p: Seq<bool>, n: Seq<bool>) -> bool {
    p.len() <= n.len() && forall|i: int| 0 <= i < p.len() ==> n[i] == p[i]
}

/// Whether one of the two prefixes is an ancestor of (or equal to) the other,
/// so that the regions they mark out overlap.
pub open spec fn prefixes_overlap(p: Seq<bool>, q: Seq<bool>) -> bool {
    prefix_matches(p, q) || prefix_matches(q, p)
}

/// The name in the middle of the region under `p`: the prefix bits, then a
/// one, then zeroes.
pub open spec fn midpoint_bits(p: Seq<bool>) -> Seq<bool> {
    Seq::new(256, |i: int| if i < p.len() { p[i] } else { i == p.len() })
}

/// Two prefixes that both match one name overlap: the shorter one is an
/// ancestor of the longer one.
pub proof fn lemma_matching_prefixes_overlap(p: Seq<bool>, q: Seq<bool>, n: Seq<bool>)
    requires
        prefix_matches(p, n),
        prefix_matches(q, n),
    ensures
        prefixes_overlap(p, q),
{
    if p.len() <= q.len() {
        assert forall|i: int| 0 <= i < p.len() implies q[i] == p[i] by {
            assert(n[i] == p[i]);
            assert(n[i] == q[i]);
        }
    } else {
        assert forall|i: int| 0 <= i < q.len() implies p[i] == q[i] by {
            assert(n[i] == p[i]);
            assert(n[i] == q[i]);
        }
    }
}

impl Prefix {
    #[verifier::type_invariant]
    pub closed spec fn wf(self) -> bool {
        self.bits@.len() <= 256
    }

    /// A well-formed prefix holds at most 256 bits. Obtain `wf` for a prefix
    /// at hand with `use_type_invariant`.
    pub proof fn wf_len(self)
        requires
            self.wf(),
        ensures
            self@.len() <= 256,
    {
    }

    /// The empty prefix, which matches every name.
    pub fn empty() -> (r: Prefix)
        ensures
            r@ == Seq::<bool>::empty(),
    {
        Prefix { bits: Vec::new() }
    }

    /// Builds a prefix from its bits. A malformed prefix, one with more bits
    /// than the name space holds, is rejected at construction.
    pub fn new(bits: Vec<bool>) -> (r: Result<Prefix, Error>)
        ensures
            r is Ok <==> bits@.len() <= 256,
            r matches Ok(p) ==> p@ == bits@,
            r matches Err(e) ==> e == Error::MalformedPrefix,
    {
        if bits.len() <= 256 {
            Ok(Prefix { bits })
        } else {
            Err(Error::MalformedPrefix)
        }
    }

    /// How many bits the prefix holds.
    pub fn bit_count(&self) -> (r: usize)
        ensures
            r == self@.len(),
    {
        self.bits.len()
    }

    /// The bit at position `i`.
    pub fn bit(&self, i: usize) -> (r: bool)
        requires
            i < self@.len(),
        ensures
            r == self@[i as int],
    {
        self.bits[i]
    }

    /// The bits of the prefix as a vector.
    pub fn to_bits(&self) -> (r: Vec<bool>)
        ensures
            r@ == self@,
    {
        copy_vec(&self.bits)
    }

    /// Whether the leading bits of `name` equal this prefix.
    pub fn matches(&self, name: &Name) -> (r: bool)
        ensures
            r == prefix_matches(self@, name@),
    {
        proof {
            use_type_invariant(self);
            use_type_invariant(name);
            name.wf_len();
        }
        let n = self.bits.len();
        let mut i: usize = 0;
        while i < n
            invariant
                i <= n,
                n == self@.len(),
                n <= 256,
                name@.len() == 256,
                forall|k: int| 0 <= k < i ==> name@[k] == self@[k],
            decreases n - i,
        {
            if name.bit(i) != self.bits[i] {
                return false;
            }
            i = i + 1;
        }
        true
    }

    /// Whether this prefix is an ancestor of (or equal to) `other`.
    pub fn is_ancestor_of(&self, other: &Prefix) -> (r: bool)
        ensures
            r == prefix_matches(self@, other@),
    {
        proof {
            use_type_invariant(self);
            use_type_invariant(other);
        }
        if self.bits.len() > other.bits.len() {
            return false;
        }
        let n = self.bits.len();
        let mut i: usize = 0;
        while i < n
            invariant
                i <= n,
                n == self@.len(),
                n <= other@.len(),
                forall|k: int| 0 <= k < i ==> other@[k] == self@[k],
            decreases n - i,
        {
            if other.bits[i] != self.bits[i] {
                return false;
            }
            i = i + 1;
        }
        true
    }

    /// Whether the regions under the two prefixes overlap.
    pub fn overlaps(&self, other: &Prefix) -> (r: bool)
        ensures
            r == prefixes_overlap(self@, other@),
    {
        self.is_ancestor_of(other) || other.is_ancestor_of(self)
    }

    /// The prefix one bit longer, with `bit` appended.
    pub fn pushed(&self, bit: bool) -> (r: Prefix)
        requires
            self@.len() < 256,
        ensures
            r@ == self@.push(bit),
    {
        proof {
            use_type_invariant(self);
        }
        let mut bits = copy_vec(&self.bits);
        bits.push(bit);
        Prefix { bits }
    }

    /// The sibling region: the same bits with the last one flipped.
    pub fn sibling(&self) -> (r: Prefix)
        requires
            self@.len() > 0,
        ensures
            r@ == self@.update(self@.len() - 1, !self@[self@.len() - 1]),
    {
        proof {
            use_type_invariant(self);
        }
        let mut bits = copy_vec(&self.bits);
        let last = bits.len() - 1;
        let flipped = !bits[last];
        bits.set(last, flipped);
        Prefix { bits }
    }

    /// The name in the middle of the region under this prefix, used to
    /// measure the region's XOR distance to a name.
    pub fn midpoint(&self) -> (r: Name)
        ensures
            r@ == midpoint_bits(self@),
    {
        proof {
            use_type_invariant(self);
        }
        let n = self.bits.len();
        let mut bits: Vec<bool> = Vec::new();
        let mut i: usize = 0;
        while i < 256
            invariant
                i <= 256,
                n == self@.len(),
                n <= 256,
                bits@.len() == i,
                forall|k: int| 0 <= k < i ==> bits@[k] == midpoint_bits(self@)[k],
            decreases 256 - i,
        {
            if i < n {
                bits.push(self.bits[i]);
            } else {
                bits.push(i == n);
            }
            i = i + 1;
        }
        assert(bits@ =~= midpoint_bits(self@));
        Name::from_bits(bits).unwrap()
    }

    /// Whether two prefixes are the same bit for bit.
    pub fn equals(&self, other: &Prefix) -> (r: bool)
        ensures
            r <==> self@ == other@,
    {
        proof {
            use_type_invariant(self);
            use_type_invariant(other);
        }
        if self.bits.len() != other.bits.len() {
            assert(self@.len() != other@.len());
            return false;
        }
        let n = self.bits.len();
        let mut i: usize = 0;
        while i < n
            invariant
                i <= n,
                n == self@.len(),
                n == other@.len(),
                forall|k: int| 0 <= k < i ==> self@[k] == other@[k],
            decreases n - i,
        {
            if self.bits[i] != other.bits[i] {
                assert(self@[i as int] != other@[i as int]);
                return false;
            }
            i = i + 1;
        }
        assert(self@ =~= other@);
        true
    }
}

impl Clone for Prefix {
    /// Cloning keeps the bits.
    fn clone(&self) -> (r: Self)
        ensures
            r@ == self@,
    {
        proof {
            use_type_invariant(self);
        }
        Prefix { bits: copy_vec(&self.bits) }
    }
}

} // verus!
