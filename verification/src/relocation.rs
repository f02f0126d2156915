//! Relocation: after an agreed churn event, a function of the event hash,
//! the member's name and its age selects members that must move, and derives
//! where they go. Older members are selected less often, and the whole
//! selection is deterministic in its inputs. A relocation becomes valid only
//! once the source section signs it.

use vstd::prelude::*;
use crate::codec::{enc_bits, write_bits};
use crate::name::{names_contain, names_view, xor_bits, Name};
use crate::section::{MembershipState, NodeState, NodeStateV, SectionPeers};
use crate::signed::{Payload, SectionSigned};

verus! {

/// How many trailing zero bits a bit string ends with.
pub open spec fn trailing_zeros(s: Seq<bool>) -> int
    decreases s.len(),
{
    if s.len() == 0 {
        0
    } else if s.last() {
        0
    } else {
        1 + trailing_zeros(s.drop_last())
    }
}

/// The relocation trigger for one member: the agreed event hash folded with
/// the member's own name, so that one event selects each member
/// independently.
pub open spec fn relocation_trigger(event: Seq<bool>, name: Seq<bool>) -> Seq<bool> {
    xor_bits(name, event)
}

/// Whether the event relocates a member of this age: the trigger must end in
/// at least `age` zero bits, so each added year of age halves the chance.
pub open spec fn relocation_check(age: u8, event: Seq<bool>, name: Seq<bool>) -> bool {
    trailing_zeros(relocation_trigger(event, name)) >= age
}

/// Where a selected member moves: a name derived from the event hash and the
/// member's current name alone.
pub open spec fn relocation_destination(event: Seq<bool>, name: Seq<bool>) -> Seq<bool> {
    xor_bits(name, event)
}

/// A suffix of zero bits adds its length to the count.
proof fn lemma_trailing_zeros_split(s: Seq<bool>, i: int)
    requires
        0 <= i <= s.len(),
        forall|k: int| i <= k < s.len() ==> !s[k],
    ensures
        trailing_zeros(s) == trailing_zeros(s.subrange(0, i)) + (s.len() - i),
    decreases s.len() - i,
{
    if i < s.len() {
        assert(!s.last());
        assert(s.drop_last() =~= s.subrange(0, s.len() - 1));
        lemma_trailing_zeros_split(s.subrange(0, s.len() - 1), i);
        assert(s.subrange(0, s.len() - 1).subrange(0, i) =~= s.subrange(0, i));
    } else {
        assert(s.subrange(0, i) =~= s);
    }
}

/// The XOR of two names, bit for bit.
pub fn xor_names(a: &Name, b: &Name) -> (r: Name)
    ensures
        r@ == xor_bits(a@, b@),
{
    proof {
        use_type_invariant(a);
        use_type_invariant(b);
        a.wf_len();
        b.wf_len();
    }
    let mut bits: Vec<bool> = Vec::new();
    let mut i: usize = 0;
    while i < 256
        invariant
            i <= 256,
            a@.len() == 256,
            b@.len() == 256,
            bits@.len() == i,
            forall|k: int| 0 <= k < i ==> bits@[k] == (a@[k] != b@[k]),
        decreases 256 - i,
    {
        bits.push(a.bit(i) != b.bit(i));
        i = i + 1;
    }
    assert(bits@ =~= xor_bits(a@, b@));
    Name::from_bits(bits).unwrap()
}

/// How many zero bits the name ends with.
pub fn count_trailing_zeros(name: &Name) -> (r: usize)
    ensures
        r == trailing_zeros(name@),
{
    proof {
        use_type_invariant(name);
        name.wf_len();
    }
    let mut i: usize = 256;
    while i > 0
        invariant
            i <= 256,
            name@.len() == 256,
            forall|k: int| i <= k < 256 ==> !name@[k],
        decreases i,
    {
        if name.bit(i - 1) {
            proof {
                lemma_trailing_zeros_split(name@, i as int);
                assert(name@.subrange(0, i as int).last() == name@[i - 1]);
            }
            return 256 - i;
        }
        i = i - 1;
    }
    proof {
        lemma_trailing_zeros_split(name@, 0);
        assert(name@.subrange(0, 0) =~= Seq::<bool>::empty());
    }
    256
}

/// Whether the agreed event relocates the member: deterministic in the event
/// hash, the member's name and its age.
pub fn check_relocation(age: u8, event: &Name, name: &Name) -> (r: bool)
    ensures
        r == relocation_check(age, event@, name@),
{
    let trigger = xor_names(name, event);
    let zeros = count_trailing_zeros(&trigger);
    zeros >= age as usize
}

/// The destination for a member the event relocates: deterministic in the
/// event hash and the member's name.
pub fn destination(event: &Name, name: &Name) -> (r: Name)
    ensures
        r@ == relocation_destination(event@, name@),
{
    xor_names(name, event)
}

/// Selection is deterministic: the same event hash, member name and age give
/// the same verdict and the same destination, in any two runs anywhere.
pub proof fn lemma_relocation_deterministic(
    age1: u8,
    event1: Seq<bool>,
    name1: Seq<bool>,
    age2: u8,
    event2: Seq<bool>,
    name2: Seq<bool>,
)
    requires
        age1 == age2,
        event1 == event2,
        name1 == name2,
    ensures
        relocation_check(age1, event1, name1) == relocation_check(age2, event2, name2),
        relocation_destination(event1, name1) == relocation_destination(event2, name2),
{
}

/// Age damps relocation: every event that relocates a member at some age
/// also relocates it at every younger age, so older members move no more
/// often.
pub proof fn lemma_relocation_age_monotonic(age: u8, event: Seq<bool>, name: Seq<bool>)
    requires
        age < 255,
        relocation_check((age + 1) as u8, event, name),
    ensures
        relocation_check(age, event, name),
{
}

/// The spec-level image of a [`RelocateDetails`].
#[verifier::ext_equal]
pub struct RelocateDetailsV {
    pub previous_name: Seq<bool>,
    pub destination: Seq<bool>,
    pub age: u8,
}

/// A relocation instruction: who moves, where to, and the age it carries
/// over. Valid only once signed by the source section.
pub struct RelocateDetails {
    pub previous_name: Name,
    pub destination: Name,
    pub age: u8,
}

impl View for RelocateDetails {
    type V = RelocateDetailsV;

    open spec fn view(&self) -> RelocateDetailsV {
        RelocateDetailsV {
            previous_name: self.previous_name@,
            destination: self.destination@,
            age: self.age,
        }
    }
}

/// The canonical bytes of a relocation instruction.
pub open spec fn enc_relocate_details(d: RelocateDetailsV) -> Seq<u8> {
    enc_bits(d.previous_name) + enc_bits(d.destination) + seq![d.age]
}

impl RelocateDetails {
    /// The instruction for one selected member: it moves to the derived
    /// destination and carries its age raised by one, so that relocation
    /// makes a member more stable, not less.
    pub fn for_member(member: &NodeState, event: &Name) -> (r: RelocateDetails)
        requires
            member@.age < 255,
        ensures
            r@.previous_name == member@.name,
            r@.destination == relocation_destination(event@, member@.name),
            r@.age == member@.age + 1,
    {
        RelocateDetails {
            previous_name: member.name.clone(),
            destination: destination(event, &member.name),
            age: member.age + 1,
        }
    }

    /// Appends the canonical bytes of the instruction to `out`.
    pub fn write(&self, out: &mut Vec<u8>)
        ensures
            final(out)@ == old(out)@ + enc_relocate_details(self@),
    {
        let ghost pre = out@;
        let prev_bits = self.previous_name.to_bits();
        write_bits(out, &prev_bits);
        let dest_bits = self.destination.to_bits();
        write_bits(out, &dest_bits);
        out.push(self.age);
        assert(pre + enc_bits(self@.previous_name) + enc_bits(self@.destination) + seq![self@.age]
            =~= pre + enc_relocate_details(self@));
    }
}

impl Clone for RelocateDetails {
    /// Cloning keeps the instruction.
    fn clone(&self) -> (r: Self)
        ensures
            r@ == self@,
    {
        RelocateDetails {
            previous_name: self.previous_name.clone(),
            destination: self.destination.clone(),
            age: self.age,
        }
    }
}

impl Payload for RelocateDetails {
    open spec fn payload_bytes(&self) -> Seq<u8> {
        enc_relocate_details(self@)
    }

    fn encode_payload(&self) -> (r: Vec<u8>)
    {
        let mut out: Vec<u8> = Vec::new();
        self.write(&mut out);
        out
    }
}

/// A relocation instruction together with the source section's signature
/// over it: the relocating node's proof of entitlement.
pub type SignedRelocateDetails = SectionSigned<RelocateDetails>;

/// Whether a member is selected by the event: only joined members move, and
/// only those the age-damped trigger picks.
pub open spec fn selected_for_relocation(m: NodeStateV, event: Seq<bool>) -> bool {
    m.state is Joined && m.age < 255 && relocation_check(m.age, event, m.name)
}

/// The members an agreed churn event relocates, each with its instruction:
/// exactly the joined members whose age-damped trigger fires, in roster
/// order, each sent to its derived destination carrying its age raised by
/// one.
/// The members the event selects, as a predicate on roster records.
pub open spec fn selected_pred(event: Seq<bool>) -> spec_fn(NodeStateV) -> bool {
    |m: NodeStateV| selected_for_relocation(m, event)
}

/// The instruction written for a selected member: it moves to the derived
/// destination and carries its age raised by one.
pub open spec fn instruction_of(event: Seq<bool>) -> spec_fn(NodeStateV) -> RelocateDetailsV {
    |m: NodeStateV|
        RelocateDetailsV {
            previous_name: m.name,
            destination: relocation_destination(event, m.name),
            age: (m.age + 1) as u8,
        }
}

/// The views of a list of relocation instructions.
pub open spec fn details_views(s: Seq<RelocateDetails>) -> Seq<RelocateDetailsV> {
    s.map_values(|d: RelocateDetails| d@)
}

/// The members an agreed churn event relocates, each with its instruction:
/// exactly the joined members whose age-damped trigger fires, in roster
/// order, each sent to its derived destination carrying its age raised by
/// one.
pub fn relocation_candidates(peers: &SectionPeers, event: &Name) -> (r: Vec<RelocateDetails>)
    ensures
        details_views(r@) == peers@.filter(selected_pred(event@)).map_values(
            instruction_of(event@),
        ),
{
    let n = peers.len();
    let ghost pred = selected_pred(event@);
    let ghost f = instruction_of(event@);
    let mut r: Vec<RelocateDetails> = Vec::new();
    proof {
        reveal(Seq::filter);
        assert(details_views(r@) =~= Seq::<RelocateDetailsV>::empty());
        assert(peers@.subrange(0, 0).filter(pred) =~= Seq::<NodeStateV>::empty());
        assert(peers@.subrange(0, 0).filter(pred).map_values(f) =~= Seq::<
            RelocateDetailsV,
        >::empty());
    }
    let mut i: usize = 0;
    while i < n
        invariant
            i <= n,
            n == peers@.len(),
            pred == selected_pred(event@),
            f == instruction_of(event@),
            details_views(r@) == peers@.subrange(0, i as int).filter(pred).map_values(f),
        decreases n - i,
    {
        let ghost seen = peers@.subrange(0, i as int);
        let ghost seen1 = peers@.subrange(0, i + 1);
        proof {
            reveal(Seq::filter);
            assert(seen1.drop_last() =~= seen);
            assert(seen1.last() == peers@[i as int]);
        }
        let member = peers.get_at(i);
        let joined = match &member.state {
            MembershipState::Joined => true,
            _ => false,
        };
        if joined && member.age < 255 && check_relocation(member.age, event, &member.name) {
            let details = RelocateDetails::for_member(member, event);
            let ghost detv = details@;
            let ghost prev = details_views(r@);
            r.push(details);
            proof {
                reveal(Seq::filter);
                assert(pred(peers@[i as int]));
                assert(f(peers@[i as int]) == detv);
                assert(details_views(r@) =~= prev.push(detv));
                assert(seen1.filter(pred) == seen.filter(pred).push(peers@[i as int]));
                assert(seen1.filter(pred).map_values(f) =~= seen.filter(pred).map_values(f).push(
                    f(peers@[i as int]),
                ));
            }
        } else {
            proof {
                reveal(Seq::filter);
                assert(!pred(peers@[i as int]));
                assert(seen1.filter(pred) == seen.filter(pred));
            }
        }
        i = i + 1;
    }
    proof {
        assert(peers@.subrange(0, n as int) =~= peers@);
    }
    r
}

/// The names whose relocation promises were issued, so that a promise is
/// made at most once, and the names whose promises were honored, so that a
/// promise is honored at most once.
pub struct PromiseBook {
    issued: Vec<Name>,
    honored: Vec<Name>,
}

impl PromiseBook {
    /// Which names were ever issued a promise.
    pub closed spec fn issued_view(&self) -> Seq<Seq<bool>> {
        names_view(self.issued@)
    }

    /// Which promises were already honored.
    pub closed spec fn honored_view(&self) -> Seq<Seq<bool>> {
        names_view(self.honored@)
    }

    /// An empty book.
    pub fn new() -> (r: PromiseBook)
        ensures
            r.issued_view() == Seq::<Seq<bool>>::empty(),
            r.honored_view() == Seq::<Seq<bool>>::empty(),
    {
        let r = PromiseBook { issued: Vec::new(), honored: Vec::new() };
        assert(r.issued_view() =~= Seq::<Seq<bool>>::empty());
        assert(r.honored_view() =~= Seq::<Seq<bool>>::empty());
        r
    }

    /// Issues a relocation promise for `name` ahead of its final details,
    /// unless one was ever issued before: a promise is never re-issued.
    pub fn issue(&mut self, name: &Name) -> (r: bool)
        ensures
            r <==> !names_contain(old(self).issued_view(), name@),
            r ==> final(self).issued_view() == old(self).issued_view().push(name@),
            !r ==> final(self).issued_view() == old(self).issued_view(),
            final(self).honored_view() == old(self).honored_view(),
    {
        if crate::name::name_in(&self.issued, name) {
            return false;
        }
        let ghost pre = self.issued_view();
        self.issued.push(name.clone());
        proof {
            assert(self.issued_view() =~= pre.push(name@));
        }
        true
    }

    /// Honors a promise for `name`, exactly once: the first call accepts,
    /// every later one refuses.
    pub fn honor(&mut self, name: &Name) -> (r: bool)
        ensures
            r <==> !names_contain(old(self).honored_view(), name@),
            r ==> final(self).honored_view() == old(self).honored_view().push(name@),
            !r ==> final(self).honored_view() == old(self).honored_view(),
            final(self).issued_view() == old(self).issued_view(),
    {
        if crate::name::name_in(&self.honored, name) {
            return false;
        }
        let ghost pre = self.honored_view();
        self.honored.push(name.clone());
        proof {
            assert(self.honored_view() =~= pre.push(name@));
        }
        true
    }
}

/// Whether an instruction view is within machine bounds; every instruction
/// actually built is.
pub open spec fn relocate_details_v_bounded(d: RelocateDetailsV) -> bool {
    d.previous_name.len() <= u64::MAX && d.destination.len() <= u64::MAX
}

/// A relocation instruction's canonical bytes pin the instruction and the
/// remainder.
pub proof fn lemma_enc_relocate_details_bind(
    a: RelocateDetailsV,
    b: RelocateDetailsV,
    r1: Seq<u8>,
    r2: Seq<u8>,
)
    requires
        relocate_details_v_bounded(a),
        relocate_details_v_bounded(b),
        enc_relocate_details(a) + r1 == enc_relocate_details(b) + r2,
    ensures
        a == b,
        r1 == r2,
{
    assert(enc_bits(a.previous_name) + (enc_bits(a.destination) + (seq![a.age] + r1)) =~=
        enc_relocate_details(a) + r1);
    assert(enc_bits(b.previous_name) + (enc_bits(b.destination) + (seq![b.age] + r2)) =~=
        enc_relocate_details(b) + r2);
    crate::codec::lemma_enc_bits_bind(
        a.previous_name,
        b.previous_name,
        enc_bits(a.destination) + (seq![a.age] + r1),
        enc_bits(b.destination) + (seq![b.age] + r2),
    );
    crate::codec::lemma_enc_bits_bind(
        a.destination,
        b.destination,
        seq![a.age] + r1,
        seq![b.age] + r2,
    );
    crate::codec::lemma_enc_tag_bind(a.age, b.age, r1, r2);
    assert(a =~= b);
}

/// A relocation instruction's canonical bytes name one instruction: the
/// source section's signature over them entitles exactly one move.
pub proof fn lemma_relocate_details_binding(a: RelocateDetailsV, b: RelocateDetailsV)
    requires
        relocate_details_v_bounded(a),
        relocate_details_v_bounded(b),
        enc_relocate_details(a) == enc_relocate_details(b),
    ensures
        a == b,
{
    assert(enc_relocate_details(a) + Seq::<u8>::empty() =~= enc_relocate_details(b) + Seq::<
        u8,
    >::empty());
    lemma_enc_relocate_details_bind(a, b, Seq::empty(), Seq::empty());
}

} // verus!
