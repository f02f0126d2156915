//! Fixed-width names: 256-bit strings that identify both nodes and data,
//! ordered by XOR distance to a reference name rather than numerically.

use vstd::prelude::*;

verus! {

/// Width of the name space in bits.
pub const NAME_BITS: usize = 256;

/// A 256-bit name, held as its sequence of bits, most significant first.
#[derive(Debug)]
pub struct Name {
    bits: Vec<bool>,
}

impl View for Name {
    type V = Seq<bool>;

    closed spec fn view(&self) -> Seq<bool> {
        self.bits@
    }
}

/// Copies a vector of plain values, keeping its contents.
pub fn copy_vec<T: Copy>(v: &Vec<T>) -> (r: Vec<T>)
    ensures
        r@ == v@,
{
    let mut r: Vec<T> = Vec::new();
    let mut i: usize = 0;
    while i < v.len()
        invariant
            i <= v.len(),
            r@ == v@.subrange(0, i as int),
        decreases v.len() - i,
    {
        r.push(v[i]);
        assert(r@ =~= v@.subrange(0, i + 1));
        i = i + 1;
    }
    assert(r@ =~= v@);
    r
}

/// The bit at position `j` (most significant first) of the byte `b`.
pub open spec fn byte_bit(b: u8, j: int) -> bool {
    (b >> ((7 - j) as u8)) & 1 == 1
}

/// The 256 bits of a 32-byte string, byte by byte, most significant first.
pub open spec fn bits_of_bytes(bytes: Seq<u8>) -> Seq<bool> {
    Seq::new(256, |i: int| byte_bit(bytes[i / 8], i % 8))
}

impl Name {
    #[verifier::type_invariant]
    pub closed spec fn wf(self) -> bool {
        self.bits@.len() == 256
    }

    /// A well-formed name holds exactly 256 bits. Obtain `wf` for a name at
    /// hand with `use_type_invariant`.
    pub proof fn wf_len(self)
        requires
            self.wf(),
        ensures
            self@.len() == 256,
    {
    }

    /// Builds a name from its bits; anything but exactly 256 bits is refused.
    pub fn from_bits(bits: Vec<bool>) -> (r: Option<Name>)
        ensures
            r is Some <==> bits@.len() == 256,
            r is Some ==> r.unwrap()@ == bits@,
    {
        if bits.len() == 256 {
            Some(Name { bits })
        } else {
            None
        }
    }

    /// Builds a name from 32 bytes, most significant bit of each byte first;
    /// any other length is refused.
    pub fn from_bytes(bytes: &Vec<u8>) -> (r: Option<Name>)
        ensures
            r is Some <==> bytes@.len() == 32,
            r is Some ==> r.unwrap()@ == bits_of_bytes(bytes@),
    {
        if bytes.len() != 32 {
            return None;
        }
        let mut bits: Vec<bool> = Vec::new();
        let mut i: usize = 0;
        while i < 256
            invariant
                i <= 256,
                bytes@.len() == 32,
                bits@.len() == i,
                forall|k: int| 0 <= k < i ==> bits@[k] == bits_of_bytes(bytes@)[k],
            decreases 256 - i,
        {
            let b = bytes[i / 8];
            let shift: u8 = (7 - (i % 8)) as u8;
            bits.push((b >> shift) & 1 == 1);
            i = i + 1;
        }
        assert(bits@ =~= bits_of_bytes(bytes@));
        Some(Name { bits })
    }

    /// The bit at position `i`, most significant first.
    pub fn bit(&self, i: usize) -> (r: bool)
        requires
            i < 256,
        ensures
            r == self@[i as int],
    {
        proof {
            use_type_invariant(self);
        }
        self.bits[i]
    }

    /// The number of bits: always 256.
    pub fn len(&self) -> (r: usize)
        ensures
            r == self@.len(),
    {
        proof {
            use_type_invariant(self);
        }
        self.bits.len()
    }

    /// The bits of the name as a vector.
    pub fn to_bits(&self) -> (r: Vec<bool>)
        ensures
            r@ == self@,
    {
        copy_vec(&self.bits)
    }

    /// Whether two names are the same bit for bit.
    pub fn equals(&self, other: &Name) -> (r: bool)
        ensures
            r <==> self@ == other@,
    {
        proof {
            use_type_invariant(self);
            use_type_invariant(other);
        }
        let mut i: usize = 0;
        while i < 256
            invariant
                i <= 256,
                self@.len() == 256,
                other@.len() == 256,
                forall|k: int| 0 <= k < i ==> self@[k] == other@[k],
            decreases 256 - i,
        {
            if self.bits[i] != other.bits[i] {
                assert(self@[i as int] != other@[i as int]);
                return false;
            }
            i = i + 1;
        }
        assert(self@ =~= other@);
        true
    }
}

impl Clone for Name {
    /// Cloning keeps the bits.
    fn clone(&self) -> (r: Self)
        ensures
            r@ == self@,
    {
        proof {
            use_type_invariant(self);
        }
        Name { bits: copy_vec(&self.bits) }
    }
}

impl PartialEq for Name {
    fn eq(&self, other: &Self) -> (r: bool) {
        self.equals(other)
    }
}

impl vstd::std_specs::cmp::PartialEqSpecImpl for Name {
    open spec fn obeys_eq_spec() -> bool {
        true
    }

    open spec fn eq_spec(&self, other: &Self) -> bool {
        self@ == other@
    }
}

/// The views of a list of names.
pub open spec fn names_view(s: Seq<Name>) -> Seq<Seq<bool>> {
    s.map_values(|n: Name| n@)
}

/// Whether a list of name views holds `name`.
pub open spec fn names_contain(s: Seq<Seq<bool>>, name: Seq<bool>) -> bool {
    exists|i: int| 0 <= i < s.len() && s[i] == name
}

/// Whether the list holds the name, bit for bit.
pub fn name_in(list: &Vec<Name>, name: &Name) -> (r: bool)
    ensures
        r == names_contain(names_view(list@), name@),
{
    let n = list.len();
    let mut i: usize = 0;
    while i < n
        invariant
            i <= n,
            n == list@.len(),
            forall|k: int| 0 <= k < i ==> names_view(list@)[k] != name@,
        decreases n - i,
    {
        if list[i].equals(name) {
            assert(names_view(list@)[i as int] == name@);
            return true;
        }
        assert(names_view(list@)[i as int] != name@);
        i = i + 1;
    }
    false
}

/// Strict lexicographic order on equal-length bit strings, `false < true`.
pub open spec fn lex_lt(x: Seq<bool>, y: Seq<bool>) -> bool
    decreases x.len(),
{
    if x.len() == 0 || y.len() == 0 {
        false
    } else if x[0] != y[0] {
        y[0]
    } else {
        lex_lt(x.skip(1), y.skip(1))
    }
}

/// Bitwise XOR of two bit strings of the same length.
pub open spec fn xor_bits(a: Seq<bool>, t: Seq<bool>) -> Seq<bool> {
    Seq::new(a.len(), |i: int| a[i] != t[i])
}

/// Whether `a` is strictly closer to `t` than `b` is, in XOR distance.
pub open spec fn closer_to_target(a: Seq<bool>, b: Seq<bool>, t: Seq<bool>) -> bool {
    lex_lt(xor_bits(a, t), xor_bits(b, t))
}

/// Skipping a common prefix does not change the lexicographic order.
pub proof fn lemma_lex_lt_skip(x: Seq<bool>, y: Seq<bool>, i: int)
    requires
        x.len() == y.len(),
        0 <= i <= x.len(),
        forall|k: int| 0 <= k < i ==> x[k] == y[k],
    ensures
        lex_lt(x, y) == lex_lt(x.skip(i), y.skip(i)),
    decreases i,
{
    if i > 0 {
        assert(x[0] == y[0]);
        lemma_lex_lt_skip(x.skip(1), y.skip(1), i - 1);
        assert(x.skip(1).skip(i - 1) =~= x.skip(i));
        assert(y.skip(1).skip(i - 1) =~= y.skip(i));
    } else {
        assert(x.skip(0) =~= x);
        assert(y.skip(0) =~= y);
    }
}

/// On equal-length strings the order is total: two strings are ordered one
/// way, the other way, or equal.
pub proof fn lemma_lex_lt_total(x: Seq<bool>, y: Seq<bool>)
    requires
        x.len() == y.len(),
    ensures
        lex_lt(x, y) || lex_lt(y, x) || x =~= y,
    decreases x.len(),
{
    if x.len() > 0 {
        if x[0] == y[0] {
            lemma_lex_lt_total(x.skip(1), y.skip(1));
            if !lex_lt(x, y) && !lex_lt(y, x) {
                assert(x.skip(1) =~= y.skip(1));
                assert forall|k: int| 0 <= k < x.len() implies x[k] == y[k] by {
                    if k > 0 {
                        assert(x.skip(1)[k - 1] == y.skip(1)[k - 1]);
                    }
                }
            }
        }
    }
}

/// Nothing is ordered before itself.
pub proof fn lemma_lex_lt_irrefl(x: Seq<bool>)
    ensures
        !lex_lt(x, x),
    decreases x.len(),
{
    if x.len() > 0 {
        lemma_lex_lt_irrefl(x.skip(1));
    }
}

/// The order is asymmetric.
pub proof fn lemma_lex_lt_asym(x: Seq<bool>, y: Seq<bool>)
    requires
        lex_lt(x, y),
    ensures
        !lex_lt(y, x),
    decreases x.len(),
{
    if x.len() > 0 && y.len() > 0 && x[0] == y[0] {
        lemma_lex_lt_asym(x.skip(1), y.skip(1));
    }
}

/// The order is transitive.
pub proof fn lemma_lex_lt_trans(x: Seq<bool>, y: Seq<bool>, z: Seq<bool>)
    requires
        x.len() == y.len(),
        y.len() == z.len(),
        lex_lt(x, y),
        lex_lt(y, z),
    ensures
        lex_lt(x, z),
    decreases x.len(),
{
    if x.len() > 0 {
        if x[0] == y[0] && y[0] == z[0] {
            lemma_lex_lt_trans(x.skip(1), y.skip(1), z.skip(1));
        }
    }
}

/// Strict closeness to one target is transitive.
pub proof fn lemma_closer_trans(a: Seq<bool>, b: Seq<bool>, c: Seq<bool>, t: Seq<bool>)
    requires
        a.len() == b.len(),
        b.len() == c.len(),
        closer_to_target(a, b, t),
        closer_to_target(b, c, t),
    ensures
        closer_to_target(a, c, t),
{
    lemma_lex_lt_trans(xor_bits(a, t), xor_bits(b, t), xor_bits(c, t));
}

/// Whether `a` is strictly closer to the target than `b`: the first bit where
/// their XOR distances differ decides.
pub fn closer(a: &Name, b: &Name, t: &Name) -> (r: bool)
    ensures
        r == closer_to_target(a@, b@, t@),
{
    proof {
        use_type_invariant(a);
        use_type_invariant(b);
        use_type_invariant(t);
    }
    let ghost xa = xor_bits(a@, t@);
    let ghost xb = xor_bits(b@, t@);
    let mut i: usize = 0;
    while i < 256
        invariant
            i <= 256,
            a@.len() == 256,
            b@.len() == 256,
            t@.len() == 256,
            xa == xor_bits(a@, t@),
            xb == xor_bits(b@, t@),
            forall|k: int| 0 <= k < i ==> xa[k] == xb[k],
        decreases 256 - i,
    {
        let da = a.bit(i) != t.bit(i);
        let db = b.bit(i) != t.bit(i);
        if da != db {
            proof {
                lemma_lex_lt_skip(xa, xb, i as int);
                assert(xa.skip(i as int)[0] == da);
                assert(xb.skip(i as int)[0] == db);
            }
            return db;
        }
        i = i + 1;
    }
    proof {
        lemma_lex_lt_skip(xa, xb, 256);
    }
    false
}

} // verus!
