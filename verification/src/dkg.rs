//! Distributed key generation, as bookkeeping: a session is identified by a
//! `DkgKey` (the candidate elder set and a round counter, so stale rounds are
//! unambiguous), collects one contribution per participant, and concludes
//! exactly once: with the newly derived group key, or as a failure — never
//! both. A quorum of identically signed failure votes abandons the round,
//! which may then be retried under a fresh key. The key arithmetic itself is
//! the outside crypto layer's work; its outcome reaches a session as an
//! event.

use vstd::prelude::*;
use crate::codec::{enc_bits, enc_u64, write_bits, write_u64};
use crate::crypto::{bls_pks_wf, bls_threshold, bls_verified, bls_verify};
use crate::error::Error;
use crate::name::{copy_vec, Name};
use crate::signed::Payload;

verus! {

/// The spec-level image of a [`DkgKey`].
#[verifier::ext_equal]
pub struct DkgKeyV {
    pub participants: Seq<Seq<bool>>,
    pub generation: u64,
}

/// Identifies one key-generation session: the candidate elder names and a
/// round counter. A retry after a failure carries the next counter, so
/// messages of a stale round never blend into the fresh one.
pub struct DkgKey {
    pub participants: Vec<Name>,
    pub generation: u64,
}

impl View for DkgKey {
    type V = DkgKeyV;

    open spec fn view(&self) -> DkgKeyV {
        DkgKeyV {
            participants: self.participants@.map_values(|n: Name| n@),
            generation: self.generation,
        }
    }
}

/// The canonical bytes of the participant names.
pub open spec fn enc_names(s: Seq<Seq<bool>>) -> Seq<u8>
    decreases s.len(),
{
    if s.len() == 0 {
        Seq::empty()
    } else {
        enc_names(s.drop_last()) + enc_bits(s.last())
    }
}

/// The canonical bytes of a session identity.
pub open spec fn enc_dkg_key(k: DkgKeyV) -> Seq<u8> {
    enc_u64(k.participants.len() as u64) + enc_names(k.participants) + enc_u64(k.generation)
}

/// What a failure vote signs: a tag marking it a failure, then the session
/// identity, so that a vote binds to exactly one round.
pub open spec fn enc_dkg_failure(k: DkgKeyV) -> Seq<u8> {
    seq![4u8] + enc_dkg_key(k)
}

impl DkgKey {
    /// Appends the canonical bytes of the session identity to `out`.
    pub fn write(&self, out: &mut Vec<u8>)
        ensures
            final(out)@ == old(out)@ + enc_dkg_key(self@),
    {
        let ghost pre = out@;
        write_u64(out, self.participants.len() as u64);
        let ghost namesv = self@.participants;
        let n = self.participants.len();
        let mut i: usize = 0;
        while i < n
            invariant
                i <= n,
                n == self.participants@.len(),
                namesv == self@.participants,
                namesv.len() == n,
                forall|k: int| 0 <= k < n ==> (#[trigger] self.participants@[k])@ == namesv[k],
                out@ == pre + enc_u64(n as u64) + enc_names(namesv.subrange(0, i as int)),
            decreases n - i,
        {
            let bits = self.participants[i].to_bits();
            write_bits(out, &bits);
            proof {
                let sub = namesv.subrange(0, i + 1);
                assert(sub.drop_last() =~= namesv.subrange(0, i as int));
                assert(sub.last() == namesv[i as int]);
                assert(pre + enc_u64(n as u64) + enc_names(namesv.subrange(0, i as int))
                    + enc_bits(namesv[i as int]) =~= pre + enc_u64(n as u64) + enc_names(sub));
            }
            i = i + 1;
        }
        assert(namesv.subrange(0, n as int) =~= namesv);
        write_u64(out, self.generation);
        assert(pre + enc_u64(n as u64) + enc_names(namesv) + enc_u64(self@.generation) =~= pre
            + enc_dkg_key(self@));
    }

    /// The identity of the retry round: the same candidate set, the next
    /// counter.
    pub fn next_round(&self) -> (r: DkgKey)
        requires
            self@.generation < u64::MAX,
        ensures
            r@.participants == self@.participants,
            r@.generation == self@.generation + 1,
    {
        let mut participants: Vec<Name> = Vec::new();
        let n = self.participants.len();
        let mut i: usize = 0;
        while i < n
            invariant
                i <= n,
                n == self.participants@.len(),
                participants@.len() == i,
                forall|k: int|
                    0 <= k < i ==> (#[trigger] participants@[k])@ == self.participants@[k]@,
            decreases n - i,
        {
            participants.push(self.participants[i].clone());
            i = i + 1;
        }
        let r = DkgKey { participants, generation: self.generation + 1 };
        assert(r@.participants =~= self@.participants);
        r
    }
}

impl Payload for DkgKey {
    open spec fn payload_bytes(&self) -> Seq<u8> {
        enc_dkg_key(self@)
    }

    fn encode_payload(&self) -> (r: Vec<u8>)
    {
        let mut out: Vec<u8> = Vec::new();
        self.write(&mut out);
        out
    }
}

/// How a session ended.
pub enum DkgOutcome {
    /// The round derived a group key: the canonical bytes of the new public
    /// key set.
    Succeeded(Vec<u8>),
    /// The round was abandoned.
    Failed,
}

/// The spec-level image of a [`DkgOutcome`].
pub enum DkgOutcomeV {
    Succeeded(Seq<u8>),
    Failed,
}

impl View for DkgOutcome {
    type V = DkgOutcomeV;

    open spec fn view(&self) -> DkgOutcomeV {
        match self {
            DkgOutcome::Succeeded(pks) => DkgOutcomeV::Succeeded(pks@),
            DkgOutcome::Failed => DkgOutcomeV::Failed,
        }
    }
}

/// The spec-level image of a [`DkgSession`].
pub struct DkgSessionV {
    pub key: DkgKeyV,
    pub contributions: Seq<(usize, Seq<u8>)>,
    pub deadline: u64,
    pub outcome: Option<DkgOutcomeV>,
}

/// Whether the session's bookkeeping is sound: one contribution per
/// participant, each from a real participant slot, and a recorded success
/// carries a real key set.
pub open spec fn dkg_session_wf(s: DkgSessionV) -> bool {
    &&& forall|i: int, j: int|
        0 <= i < j < s.contributions.len() ==> (#[trigger] s.contributions[i]).0 != (
        #[trigger] s.contributions[j]).0
    &&& forall|i: int|
        0 <= i < s.contributions.len() ==> (#[trigger] s.contributions[i]).0
            < s.key.participants.len()
    &&& s.outcome matches Some(DkgOutcomeV::Succeeded(pks)) ==> bls_pks_wf(pks)
}

/// One key-generation round as a participant tracks it: who takes part,
/// which commitment bytes each participant broadcast, when the round
/// expires, and how it ended, if it has.
pub struct DkgSession {
    key: DkgKey,
    contributions: Vec<(usize, Vec<u8>)>,
    deadline: u64,
    outcome: Option<DkgOutcome>,
}

impl View for DkgSession {
    type V = DkgSessionV;

    closed spec fn view(&self) -> DkgSessionV {
        DkgSessionV {
            key: self.key@,
            contributions: self.contributions@.map_values(|p: (usize, Vec<u8>)| (p.0, p.1@)),
            deadline: self.deadline,
            outcome: match self.outcome {
                Some(o) => Some(o@),
                None => None,
            },
        }
    }
}

impl DkgSession {
    /// Opens a round for `key`, expiring at `deadline`.
    pub fn start(key: DkgKey, deadline: u64) -> (r: DkgSession)
        ensures
            r@.key == key@,
            r@.contributions == Seq::<(usize, Seq<u8>)>::empty(),
            r@.deadline == deadline,
            r@.outcome is None,
            dkg_session_wf(r@),
    {
        let r = DkgSession { key, contributions: Vec::new(), deadline, outcome: None };
        assert(r@.contributions =~= Seq::<(usize, Seq<u8>)>::empty());
        r
    }

    /// The round's identity.
    pub fn key(&self) -> (r: &DkgKey)
        ensures
            r@ == self@.key,
    {
        &self.key
    }

    /// How the round ended, if it has.
    pub fn outcome(&self) -> (r: &Option<DkgOutcome>)
        ensures
            r is Some <==> self@.outcome is Some,
            r matches Some(o) ==> self@.outcome == Some(o@),
    {
        &self.outcome
    }

    /// How many participants have contributed.
    pub fn contribution_count(&self) -> (r: usize)
        ensures
            r == self@.contributions.len(),
    {
        self.contributions.len()
    }

    /// Whether every participant's contribution is in.
    pub fn is_complete(&self) -> (r: bool)
        ensures
            r == (self@.contributions.len() == self@.key.participants.len()),
    {
        self.contributions.len() == self.key.participants.len()
    }

    /// Records the commitment bytes that participant `index` broadcast.
    /// Refused once the round has concluded, for an index outside the
    /// candidate set, and as a no-op when that participant already
    /// contributed.
    pub fn add_contribution(&mut self, index: usize, commitment: Vec<u8>) -> (r: Result<
        bool,
        Error,
    >)
        requires
            dkg_session_wf(old(self)@),
        ensures
            dkg_session_wf(final(self)@),
            final(self)@.key == old(self)@.key,
            final(self)@.deadline == old(self)@.deadline,
            final(self)@.outcome == old(self)@.outcome,
            r is Err <==> old(self)@.outcome is Some || index >= old(
                self,
            )@.key.participants.len(),
            r is Err ==> final(self)@ == old(self)@,
            r matches Ok(added) ==> {
                &&& (added <==> !exists|k: int|
                    0 <= k < old(self)@.contributions.len() && (#[trigger] old(
                        self,
                    )@.contributions[k]).0 == index)
                &&& added ==> final(self)@.contributions == old(self)@.contributions.push(
                    (index, commitment@),
                )
                &&& !added ==> final(self)@ == old(self)@
            },
    {
        if self.outcome.is_some() {
            return Err(Error::InvalidLength);
        }
        if index >= self.key.participants.len() {
            return Err(Error::InvalidLength);
        }
        let n = self.contributions.len();
        let mut k: usize = 0;
        while k < n
            invariant
                k <= n,
                n == self.contributions@.len(),
                n == self@.contributions.len(),
                self@ == old(self)@,
                dkg_session_wf(old(self)@),
                old(self)@.outcome is None,
                index < old(self)@.key.participants.len(),
                forall|m: int| 0 <= m < k ==> (#[trigger] self@.contributions[m]).0 != index,
            decreases n - k,
        {
            if self.contributions[k].0 == index {
                assert(self@.contributions[k as int].0 == index);
                return Ok(false);
            }
            assert(self@.contributions[k as int].0 != index);
            k = k + 1;
        }
        let ghost pre = self@.contributions;
        self.contributions.push((index, commitment));
        proof {
            assert(self@.contributions =~= pre.push((index, commitment@)));
            assert(dkg_session_wf(self@));
        }
        Ok(true)
    }

    /// Concludes the round with the group key the crypto layer derived.
    /// Accepted exactly once, only while the round is unconcluded, only with
    /// every contribution in, and only for bytes that encode a real key set:
    /// a round ends with one key or with failure, never both.
    pub fn conclude_success(&mut self, pk_set: Vec<u8>) -> (r: Result<(), Error>)
        requires
            dkg_session_wf(old(self)@),
        ensures
            dkg_session_wf(final(self)@),
            final(self)@.key == old(self)@.key,
            final(self)@.contributions == old(self)@.contributions,
            final(self)@.deadline == old(self)@.deadline,
            r is Ok <==> old(self)@.outcome is None && old(self)@.contributions.len() == old(
                self,
            )@.key.participants.len() && bls_pks_wf(pk_set@),
            r is Ok ==> final(self)@.outcome == Some(DkgOutcomeV::Succeeded(pk_set@)),
            r is Err ==> final(self)@ == old(self)@,
    {
        if self.outcome.is_some() {
            return Err(Error::InvalidLength);
        }
        if self.contributions.len() != self.key.participants.len() {
            return Err(Error::InvalidLength);
        }
        if bls_threshold(&pk_set).is_none() {
            return Err(Error::InvalidKeySet);
        }
        let ghost pkv = pk_set@;
        self.outcome = Some(DkgOutcome::Succeeded(pk_set));
        proof {
            assert(self@.contributions == old(self)@.contributions);
            assert(self@.outcome == Some(DkgOutcomeV::Succeeded(pkv)));
            assert(bls_pks_wf(pkv));
            assert(dkg_session_wf(self@));
        }
        Ok(())
    }

    /// Concludes the round as failed: on its own timeout, or once a quorum
    /// of participants signed the same failure. Accepted exactly once, only
    /// while the round is unconcluded: a round ends with one key or with
    /// failure, never both.
    pub fn conclude_failure(&mut self) -> (r: Result<(), Error>)
        requires
            dkg_session_wf(old(self)@),
        ensures
            dkg_session_wf(final(self)@),
            final(self)@.key == old(self)@.key,
            final(self)@.contributions == old(self)@.contributions,
            final(self)@.deadline == old(self)@.deadline,
            r is Ok <==> old(self)@.outcome is None,
            r is Ok ==> final(self)@.outcome == Some(DkgOutcomeV::Failed),
            r is Err ==> final(self)@ == old(self)@,
    {
        if self.outcome.is_some() {
            return Err(Error::InvalidLength);
        }
        self.outcome = Some(DkgOutcome::Failed);
        proof {
            assert(self@.contributions == old(self)@.contributions);
            assert(self@.outcome == Some(DkgOutcomeV::Failed));
            assert(dkg_session_wf(self@));
        }
        Ok(())
    }

    /// Whether the round has passed its deadline without concluding, so
    /// that the caller should fail it and retry under a fresh identity.
    pub fn expired(&self, now: u64) -> (r: bool)
        ensures
            r == (now > self@.deadline && self@.outcome is None),
    {
        now > self.deadline && self.outcome.is_none()
    }
}

/// One participant's signed claim that the round failed for it.
pub struct DkgFailureSigned {
    /// The participant's slot in the candidate set.
    pub participant: usize,
    /// Its signature over the round's failure bytes.
    pub signature: Vec<u8>,
}

/// The spec-level image of a failure vote set.
pub struct DkgFailureSetV {
    pub key: DkgKeyV,
    pub votes: Seq<(usize, Seq<u8>)>,
}

/// The failure votes collected for one round: one valid vote per
/// participant, each signature checked against that participant's public
/// key over the round's failure bytes.
pub struct DkgFailureSet {
    key: DkgKey,
    votes: Vec<(usize, Vec<u8>)>,
}

impl View for DkgFailureSet {
    type V = DkgFailureSetV;

    closed spec fn view(&self) -> DkgFailureSetV {
        DkgFailureSetV {
            key: self.key@,
            votes: self.votes@.map_values(|p: (usize, Vec<u8>)| (p.0, p.1@)),
        }
    }
}

/// Whether a vote set is sound: distinct participants, each inside the
/// candidate set, each vote verified under that participant's key.
pub open spec fn failure_set_wf(s: DkgFailureSetV, pks: Seq<Seq<u8>>) -> bool {
    &&& forall|i: int, j: int|
        0 <= i < j < s.votes.len() ==> (#[trigger] s.votes[i]).0 != (#[trigger] s.votes[j]).0
    &&& forall|i: int|
        0 <= i < s.votes.len() ==> (#[trigger] s.votes[i]).0 < s.key.participants.len()
    &&& forall|i: int|
        0 <= i < s.votes.len() && (#[trigger] s.votes[i]).0 < pks.len() ==> bls_verified(
            pks[s.votes[i].0 as int],
            s.votes[i].1,
            enc_dkg_failure(s.key),
        )
}

impl DkgFailureSet {
    /// An empty vote set for the round `key`.
    pub fn new(key: DkgKey) -> (r: DkgFailureSet)
        ensures
            r@.key == key@,
            r@.votes == Seq::<(usize, Seq<u8>)>::empty(),
    {
        let r = DkgFailureSet { key, votes: Vec::new() };
        assert(r@.votes =~= Seq::<(usize, Seq<u8>)>::empty());
        r
    }

    /// How many distinct participants have voted failure.
    pub fn len(&self) -> (r: usize)
        ensures
            r == self@.votes.len(),
    {
        self.votes.len()
    }

    /// Feeds one failure vote, verified against the voter's public key over
    /// this round's failure bytes. A vote is taken exactly when it names a
    /// real participant, its signature verifies, and that participant has
    /// not voted yet; an invalid vote, a vote from outside the candidate
    /// set and a repeated voter leave the set unchanged.
    pub fn add_vote(&mut self, vote: &DkgFailureSigned, voter_keys: &Vec<Vec<u8>>) -> (r: bool)
        requires
            voter_keys@.len() == old(self)@.key.participants.len(),
        ensures
            final(self)@.key == old(self)@.key,
            r <==> (vote.participant < voter_keys@.len() && bls_verified(
                voter_keys@[vote.participant as int]@,
                vote.signature@,
                enc_dkg_failure(old(self)@.key),
            ) && !(exists|k: int|
                0 <= k < old(self)@.votes.len() && (#[trigger] old(self)@.votes[k]).0
                    == vote.participant)),
            r ==> final(self)@.votes == old(self)@.votes.push(
                (vote.participant, vote.signature@),
            ),
            !r ==> final(self)@ == old(self)@,
    {
        if vote.participant >= voter_keys.len() {
            return false;
        }
        let mut msg: Vec<u8> = Vec::new();
        msg.push(4u8);
        self.key.write(&mut msg);
        proof {
            assert(msg@ =~= enc_dkg_failure(self@.key));
        }
        if !bls_verify(&voter_keys[vote.participant], &vote.signature, &msg) {
            return false;
        }
        let n = self.votes.len();
        let mut k: usize = 0;
        while k < n
            invariant
                k <= n,
                n == self.votes@.len(),
                n == self@.votes.len(),
                self@ == old(self)@,
                vote.participant < voter_keys@.len(),
                bls_verified(
                    voter_keys@[vote.participant as int]@,
                    vote.signature@,
                    enc_dkg_failure(old(self)@.key),
                ),
                forall|m: int| 0 <= m < k ==> (#[trigger] self@.votes[m]).0 != vote.participant,
            decreases n - k,
        {
            if self.votes[k].0 == vote.participant {
                assert(self@.votes[k as int].0 == vote.participant);
                return false;
            }
            assert(self@.votes[k as int].0 != vote.participant);
            k = k + 1;
        }
        let ghost pre = self@.votes;
        self.votes.push((vote.participant, copy_vec(&vote.signature)));
        proof {
            assert(self@.votes =~= pre.push((vote.participant, vote.signature@)));
        }
        true
    }

    /// Whether more than two thirds of the round's participants have signed
    /// the same failure: the quorum at which the round is abandoned.
    pub fn has_quorum(&self) -> (r: bool)
        ensures
            r == (3 * self@.votes.len() > 2 * self@.key.participants.len()),
    {
        let n = self.key.participants.len() as u128;
        let v = self.votes.len() as u128;
        3 * v > 2 * n
    }
}

/// Whether a session identity view is within machine bounds; every
/// identity actually built is.
pub open spec fn dkg_key_v_bounded(k: DkgKeyV) -> bool {
    &&& k.participants.len() <= u64::MAX
    &&& forall|i: int| 0 <= i < k.participants.len() ==> (#[trigger] k.participants[i]).len()
        <= u64::MAX
}

/// A name list's canonical bytes pin the list and the remainder, once the
/// count is known.
proof fn lemma_enc_names_bind(x: Seq<Seq<bool>>, y: Seq<Seq<bool>>, r1: Seq<u8>, r2: Seq<u8>)
    requires
        x.len() == y.len(),
        forall|i: int| 0 <= i < x.len() ==> (#[trigger] x[i]).len() <= u64::MAX,
        forall|i: int| 0 <= i < y.len() ==> (#[trigger] y[i]).len() <= u64::MAX,
        enc_names(x) + r1 == enc_names(y) + r2,
    ensures
        x == y,
        r1 == r2,
    decreases x.len(),
{
    if x.len() == 0 {
        assert(enc_names(x) + r1 =~= r1);
        assert(enc_names(y) + r2 =~= r2);
        assert(x =~= y);
    } else {
        let xd = x.drop_last();
        let yd = y.drop_last();
        assert(enc_names(xd) + (enc_bits(x.last()) + r1) =~= enc_names(x) + r1);
        assert(enc_names(yd) + (enc_bits(y.last()) + r2) =~= enc_names(y) + r2);
        assert forall|i: int| 0 <= i < xd.len() implies (#[trigger] xd[i]).len() <= u64::MAX by {
            assert(xd[i] == x[i]);
        }
        assert forall|i: int| 0 <= i < yd.len() implies (#[trigger] yd[i]).len() <= u64::MAX by {
            assert(yd[i] == y[i]);
        }
        lemma_enc_names_bind(xd, yd, enc_bits(x.last()) + r1, enc_bits(y.last()) + r2);
        assert(x.last().len() <= u64::MAX);
        assert(y.last().len() <= u64::MAX);
        crate::codec::lemma_enc_bits_bind(x.last(), y.last(), r1, r2);
        assert forall|i: int| 0 <= i < x.len() implies x[i] == y[i] by {
            if i < x.len() - 1 {
                assert(x[i] == xd[i]);
                assert(y[i] == yd[i]);
            } else {
                assert(x[i] == x.last());
                assert(y[i] == y.last());
            }
        }
        assert(x =~= y);
    }
}

/// A session identity's canonical bytes pin the identity and the
/// remainder.
pub proof fn lemma_enc_dkg_key_bind(a: DkgKeyV, b: DkgKeyV, r1: Seq<u8>, r2: Seq<u8>)
    requires
        dkg_key_v_bounded(a),
        dkg_key_v_bounded(b),
        enc_dkg_key(a) + r1 == enc_dkg_key(b) + r2,
    ensures
        a == b,
        r1 == r2,
{
    assert(enc_u64(a.participants.len() as u64) + (enc_names(a.participants) + (enc_u64(
        a.generation,
    ) + r1)) =~= enc_dkg_key(a) + r1);
    assert(enc_u64(b.participants.len() as u64) + (enc_names(b.participants) + (enc_u64(
        b.generation,
    ) + r2)) =~= enc_dkg_key(b) + r2);
    crate::codec::lemma_enc_u64_bind(
        a.participants.len() as u64,
        b.participants.len() as u64,
        enc_names(a.participants) + (enc_u64(a.generation) + r1),
        enc_names(b.participants) + (enc_u64(b.generation) + r2),
    );
    lemma_enc_names_bind(
        a.participants,
        b.participants,
        enc_u64(a.generation) + r1,
        enc_u64(b.generation) + r2,
    );
    crate::codec::lemma_enc_u64_bind(a.generation, b.generation, r1, r2);
    assert(a =~= b);
}

/// A failure vote's bytes name one round: a participant's signature over
/// them votes down exactly that round, never a rival or retry round.
pub proof fn lemma_dkg_failure_binding(a: DkgKeyV, b: DkgKeyV)
    requires
        dkg_key_v_bounded(a),
        dkg_key_v_bounded(b),
        enc_dkg_failure(a) == enc_dkg_failure(b),
    ensures
        a == b,
{
    assert(seq![4u8] + (enc_dkg_key(a) + Seq::<u8>::empty()) =~= enc_dkg_failure(a) + Seq::<
        u8,
    >::empty());
    assert(seq![4u8] + (enc_dkg_key(b) + Seq::<u8>::empty()) =~= enc_dkg_failure(b) + Seq::<
        u8,
    >::empty());
    assert(enc_dkg_failure(a) + Seq::<u8>::empty() =~= enc_dkg_failure(b) + Seq::<u8>::empty());
    crate::codec::lemma_enc_tag_bind(
        4u8,
        4u8,
        enc_dkg_key(a) + Seq::<u8>::empty(),
        enc_dkg_key(b) + Seq::<u8>::empty(),
    );
    lemma_enc_dkg_key_bind(a, b, Seq::empty(), Seq::empty());
}

/// The canonical bytes of the participant names from position `i` on.
pub open spec fn enc_names_from(s: Seq<Seq<bool>>, i: int) -> Seq<u8>
    decreases s.len() - i,
{
    if i < 0 || i >= s.len() {
        Seq::empty()
    } else {
        enc_bits(s[i]) + enc_names_from(s, i + 1)
    }
}

/// The whole name list's bytes split at any position.
pub proof fn lemma_enc_names_split(s: Seq<Seq<bool>>, i: int)
    requires
        0 <= i <= s.len(),
    ensures
        enc_names(s) == enc_names(s.take(i)) + enc_names_from(s, i),
    decreases s.len() - i,
{
    if i == s.len() {
        assert(s.take(i) =~= s);
        assert(enc_names(s) =~= enc_names(s.take(i)) + enc_names_from(s, i));
    } else {
        lemma_enc_names_split(s, i + 1);
        let t1 = s.take(i + 1);
        assert(t1.drop_last() =~= s.take(i));
        assert(t1.last() == s[i]);
        assert(enc_names(t1) == enc_names(s.take(i)) + enc_bits(s[i]));
        assert(enc_names(s.take(i)) + enc_bits(s[i]) + enc_names_from(s, i + 1) =~= enc_names(
            s.take(i),
        ) + (enc_bits(s[i]) + enc_names_from(s, i + 1)));
    }
}

/// A name list's bytes hold at least one byte per name.
pub proof fn lemma_enc_names_len(s: Seq<Seq<bool>>)
    ensures
        enc_names(s).len() >= s.len(),
    decreases s.len(),
{
    if s.len() > 0 {
        lemma_enc_names_len(s.drop_last());
    }
}

} // verus!
