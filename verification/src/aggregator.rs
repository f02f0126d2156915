//! Threshold signature aggregation: partial signature shares are collected
//! per (message, key set) identity until more than the threshold are present,
//! then combined into one section signature that verifies under the master
//! key. Invalid shares never count, a replayed share is a no-op, the combined
//! signature is delivered exactly once, and idle collections can be expired.

use vstd::prelude::*;
use crate::crypto::{
    bls_combine, bls_master_key, bls_pks_threshold, bls_pks_wf, bls_public_key, bls_share_verified,
    bls_share_wf, bls_threshold, bls_verified, bls_verify_share, identity_pk_bytes,
};
use crate::name::copy_vec;
use crate::signed::Signed;

verus! {

/// The spec-level image of one in-flight collection.
pub struct SessionV {
    pub msg: Seq<u8>,
    pub pk_set: Seq<u8>,
    pub shares: Seq<(usize, Seq<u8>)>,
    pub created: u64,
}

/// One in-flight collection: the message bytes being signed, the key set
/// they are signed under, the valid shares seen so far, and when the
/// collection was opened.
struct Session {
    msg: Vec<u8>,
    pk_set: Vec<u8>,
    shares: Vec<(usize, Vec<u8>)>,
    created: u64,
}

impl View for Session {
    type V = SessionV;

    closed spec fn view(&self) -> SessionV {
        SessionV {
            msg: self.msg@,
            pk_set: self.pk_set@,
            shares: self.shares@.map_values(|p: (usize, Vec<u8>)| (p.0, p.1@)),
            created: self.created,
        }
    }
}

/// Whether a collection is internally sound: a real key set whose master
/// key is not the identity element, strictly fewer shares than needed to
/// finish (a finished collection is discarded at once), pairwise distinct
/// signer indices, and every held share verified against its signer's key
/// share over the collection's message.
pub open spec fn session_wf(s: SessionV) -> bool {
    &&& bls_pks_wf(s.pk_set)
    &&& bls_master_key(s.pk_set) != identity_pk_bytes()
    &&& s.shares.len() <= bls_pks_threshold(s.pk_set)
    &&& forall|i: int, j: int|
        0 <= i < j < s.shares.len() ==> (#[trigger] s.shares[i]).0 != (#[trigger] s.shares[j]).0
    &&& forall|i: int|
        0 <= i < s.shares.len() ==> bls_share_verified(
            s.pk_set,
            (#[trigger] s.shares[i]).0 as int,
            s.shares[i].1,
            s.msg,
        ) && bls_share_wf(s.shares[i].1)
}

/// Whether a collection belongs to the aggregation identity `(msg, pks)`.
pub open spec fn session_key_is(s: SessionV, msg: Seq<u8>, pks: Seq<u8>) -> bool {
    s.msg == msg && s.pk_set == pks
}

/// Whether the collection already holds a share from signer `index`.
pub open spec fn has_share_index(s: SessionV, index: usize) -> bool {
    exists|k: int| 0 <= k < s.shares.len() && (#[trigger] s.shares[k]).0 == index
}

/// Whether an aggregator state is well formed: every collection sound, and
/// at most one collection per aggregation identity.
pub open spec fn aggregator_wf(ss: Seq<SessionV>) -> bool {
    &&& forall|i: int| 0 <= i < ss.len() ==> session_wf(#[trigger] ss[i])
    &&& forall|i: int, j: int|
        0 <= i < j < ss.len() ==> !session_key_is(
            #[trigger] ss[i],
            (#[trigger] ss[j]).msg,
            ss[j].pk_set,
        )
}

/// The collections still fresh at `now` under the lifetime `ttl`.
pub open spec fn fresh_at(now: u64, ttl: u64) -> spec_fn(SessionV) -> bool {
    |s: SessionV| s.created <= now && now - s.created <= ttl
}

/// What one share contributed: nothing (it was invalid), progress (it was
/// recorded, or already known), or the finished section signature.
pub enum ShareOutcome {
    /// The share did not verify against the signer's key share: rejected
    /// without affecting the collection, as faulty-signer evidence.
    ShareInvalid,
    /// The share was recorded, or was already known; more are needed.
    Pending,
    /// Shares from more than the threshold of distinct signers are in: the
    /// combined signature, under the master public key. Delivered exactly
    /// once; the collection is discarded with it.
    Aggregated(Signed),
}

/// Accumulates partial signature shares into section signatures, one
/// collection per (message, key set) identity, with a bounded lifetime.
pub struct SignatureAggregator {
    sessions: Vec<Session>,
    ttl: u64,
}

impl View for SignatureAggregator {
    type V = Seq<SessionV>;

    closed spec fn view(&self) -> Seq<SessionV> {
        self.sessions@.map_values(|s: Session| s@)
    }
}

impl SignatureAggregator {
    /// An empty aggregator whose collections live for `ttl` ticks.
    pub fn new(ttl: u64) -> (r: SignatureAggregator)
        ensures
            r@ == Seq::<SessionV>::empty(),
            aggregator_wf(r@),
            r.lifetime_spec() == ttl,
    {
        let r = SignatureAggregator { sessions: Vec::new(), ttl };
        assert(r@ =~= Seq::<SessionV>::empty());
        r
    }

    /// How long a collection lives without finishing.
    pub fn lifetime(&self) -> (r: u64)
        ensures
            r == self.lifetime_spec(),
    {
        self.ttl
    }

    /// The configured collection lifetime.
    pub closed spec fn lifetime_spec(&self) -> u64 {
        self.ttl
    }

    /// How many collections are in flight.
    pub fn len(&self) -> (r: usize)
        ensures
            r == self@.len(),
    {
        self.sessions.len()
    }

    /// Where the collection for `(msg, pks)` sits, if one is in flight.
    fn find(&self, msg: &Vec<u8>, pks: &Vec<u8>) -> (r: Option<usize>)
        ensures
            r matches Some(j) ==> j < self@.len() && session_key_is(self@[j as int], msg@, pks@),
            r is None ==> forall|j: int|
                0 <= j < self@.len() ==> !session_key_is(#[trigger] self@[j], msg@, pks@),
    {
        let n = self.sessions.len();
        let mut i: usize = 0;
        while i < n
            invariant
                i <= n,
                n == self.sessions@.len(),
                self@ == self.sessions@.map_values(|s: Session| s@),
                forall|k: int| 0 <= k < i ==> !session_key_is(#[trigger] self@[k], msg@, pks@),
            decreases n - i,
        {
            if crate::codec::bytes_eq(&self.sessions[i].msg, msg) && crate::codec::bytes_eq(
                &self.sessions[i].pk_set,
                pks,
            ) {
                assert(session_key_is(self@[i as int], msg@, pks@));
                return Some(i);
            }
            assert(!session_key_is(self@[i as int], msg@, pks@));
            i = i + 1;
        }
        None
    }

    /// Whether the collection at `j` already holds a share from `index`.
    fn session_has_index(&self, j: usize, index: usize) -> (r: bool)
        requires
            j < self@.len(),
        ensures
            r == has_share_index(self@[j as int], index),
    {
        let shares = &self.sessions[j].shares;
        let n = shares.len();
        let mut k: usize = 0;
        while k < n
            invariant
                k <= n,
                j < self.sessions@.len(),
                self@ == self.sessions@.map_values(|s: Session| s@),
                n == self@[j as int].shares.len(),
                n == self.sessions@[j as int].shares@.len(),
                forall|m: int| 0 <= m < k ==> (#[trigger] self@[j as int].shares[m]).0 != index,
            decreases n - k,
        {
            if self.sessions[j].shares[k].0 == index {
                assert(self@[j as int].shares[k as int].0 == index);
                return true;
            }
            assert(self@[j as int].shares[k as int].0 != index);
            k = k + 1;
        }
        false
    }

    /// Feeds one partial signature share into the collection for
    /// `(msg, pk_set)`, opening it at tick `now` if none is in flight.
    ///
    /// An invalid share is rejected without touching any state and never
    /// counts toward the threshold; so is any share offered under a rogue
    /// key set whose master key is the identity element, under which no
    /// combined signature could ever verify. A share from a signer already
    /// counted is a no-op. A valid share from a fresh signer is recorded;
    /// the one that brings the count of distinct signers past the key set's
    /// threshold yields the combined signature, which verifies under the
    /// master public key, and closes the collection so nothing is delivered
    /// twice.
    pub fn add_share(
        &mut self,
        msg: &Vec<u8>,
        pk_set: &Vec<u8>,
        index: usize,
        share: &Vec<u8>,
        now: u64,
    ) -> (r: ShareOutcome)
        requires
            aggregator_wf(old(self)@),
        ensures
            aggregator_wf(final(self)@),
            (r is ShareInvalid) <==> (!bls_share_verified(pk_set@, index as int, share@, msg@)
                || bls_master_key(pk_set@) == identity_pk_bytes()),
            r is ShareInvalid ==> final(self)@ == old(self)@,
            r matches ShareOutcome::Aggregated(sig) ==> sig@.public_key == bls_master_key(pk_set@)
                && bls_verified(bls_master_key(pk_set@), sig@.signature, msg@),
            bls_share_verified(pk_set@, index as int, share@, msg@) && bls_master_key(pk_set@)
                != identity_pk_bytes() ==> {
                ||| (exists|j: int|
                    {
                        &&& 0 <= j < old(self)@.len()
                        &&& session_key_is(#[trigger] old(self)@[j], msg@, pk_set@)
                        &&& has_share_index(old(self)@[j], index)
                        &&& r is Pending
                        &&& final(self)@ == old(self)@
                    })
                ||| (exists|j: int|
                    {
                        &&& 0 <= j < old(self)@.len()
                        &&& session_key_is(#[trigger] old(self)@[j], msg@, pk_set@)
                        &&& !has_share_index(old(self)@[j], index)
                        &&& old(self)@[j].shares.len() + 1 > bls_pks_threshold(pk_set@)
                        &&& r is Aggregated
                        &&& final(self)@ == old(self)@.remove(j)
                    })
                ||| (exists|j: int|
                    {
                        &&& 0 <= j < old(self)@.len()
                        &&& session_key_is(#[trigger] old(self)@[j], msg@, pk_set@)
                        &&& !has_share_index(old(self)@[j], index)
                        &&& old(self)@[j].shares.len() + 1 <= bls_pks_threshold(pk_set@)
                        &&& r is Pending
                        &&& final(self)@ == old(self)@.remove(j).push(
                            SessionV {
                                msg: old(self)@[j].msg,
                                pk_set: old(self)@[j].pk_set,
                                shares: old(self)@[j].shares.push((index, share@)),
                                created: old(self)@[j].created,
                            },
                        )
                    })
                ||| ((forall|j: int|
                    0 <= j < old(self)@.len() ==> !session_key_is(
                        #[trigger] old(self)@[j],
                        msg@,
                        pk_set@,
                    )) && {
                    ||| (bls_pks_threshold(pk_set@) == 0 && r is Aggregated && final(self)@ == old(
                        self,
                    )@)
                    ||| (bls_pks_threshold(pk_set@) > 0 && r is Pending && final(self)@ == old(
                        self,
                    )@.push(
                        SessionV {
                            msg: msg@,
                            pk_set: pk_set@,
                            shares: seq![(index, share@)],
                            created: now,
                        },
                    ))
                })
            },
    {
        if !bls_verify_share(pk_set, index, share, msg) {
            return ShareOutcome::ShareInvalid;
        }
        if bls_public_key(pk_set).is_none() {
            return ShareOutcome::ShareInvalid;
        }
        let threshold = bls_threshold(pk_set).unwrap();
        match self.find(msg, pk_set) {
            Some(j) => {
                if self.session_has_index(j, index) {
                    return ShareOutcome::Pending;
                }
                let ghost oldv = self@;
                let mut sess = self.sessions.remove(j);
                proof {
                    assert(self@ =~= oldv.remove(j as int));
                }
                let ghost sessv = sess@;
                sess.shares.push((index, copy_vec(share)));
                proof {
                    assert(sess@.shares =~= sessv.shares.push((index, share@)));
                }
                if sess.shares.len() > threshold {
                    let combined = combine_session(&sess, threshold);
                    let master = bls_public_key(&sess.pk_set).unwrap();
                    return ShareOutcome::Aggregated(
                        Signed { public_key: master, signature: combined },
                    );
                }
                let ghost midv = self@;
                self.sessions.push(sess);
                proof {
                    assert(self@ =~= midv.push(sess@));
                }
                ShareOutcome::Pending
            },
            None => {
                if threshold == 0 {
                    let mut single: Session = Session {
                        msg: copy_vec(msg),
                        pk_set: copy_vec(pk_set),
                        shares: Vec::new(),
                        created: now,
                    };
                    single.shares.push((index, copy_vec(share)));
                    proof {
                        assert(single@.shares =~= seq![(index, share@)]);
                    }
                    let combined = combine_session(&single, threshold);
                    let master = bls_public_key(&single.pk_set).unwrap();
                    return ShareOutcome::Aggregated(
                        Signed { public_key: master, signature: combined },
                    );
                }
                let ghost oldv = self@;
                let mut sess: Session = Session {
                    msg: copy_vec(msg),
                    pk_set: copy_vec(pk_set),
                    shares: Vec::new(),
                    created: now,
                };
                sess.shares.push((index, copy_vec(share)));
                proof {
                    assert(sess@.shares =~= seq![(index, share@)]);
                }
                self.sessions.push(sess);
                proof {
                    assert(self@ =~= oldv.push(
                        SessionV {
                            msg: msg@,
                            pk_set: pk_set@,
                            shares: seq![(index, share@)],
                            created: now,
                        },
                    ));
                }
                ShareOutcome::Pending
            },
        }
    }

    /// Evicts every collection opened more than the lifetime before `now`:
    /// an elder change invalidates old in-flight identities, and memory
    /// stays bounded. A fresh collection for the same identity may be opened
    /// afterwards.
    pub fn prune(&mut self, now: u64)
        requires
            aggregator_wf(old(self)@),
        ensures
            aggregator_wf(final(self)@),
            final(self)@ == old(self)@.filter(fresh_at(now, old(self).lifetime_spec())),
            final(self).lifetime_spec() == old(self).lifetime_spec(),
    {
        let ghost oldv = self@;
        let ghost pred = fresh_at(now, self.ttl);
        let n = self.sessions.len();
        let mut kept: Vec<Session> = Vec::new();
        proof {
            reveal(Seq::filter);
            assert(kept@.map_values(|s: Session| s@) =~= Seq::<SessionV>::empty());
            assert(oldv.subrange(0, 0).filter(pred) =~= Seq::<SessionV>::empty());
            assert(oldv.skip(0) =~= oldv);
        }
        let mut i: usize = 0;
        while i < n
            invariant
                i <= n,
                n == oldv.len(),
                oldv == old(self)@,
                self.sessions@.map_values(|s: Session| s@) == oldv.skip(i as int),
                self.ttl == old(self).lifetime_spec(),
                aggregator_wf(oldv),
                pred == fresh_at(now, old(self).lifetime_spec()),
                kept@.map_values(|s: Session| s@) == oldv.subrange(0, i as int).filter(pred),
            decreases n - i,
        {
            let ghost seen = oldv.subrange(0, i as int);
            let ghost seen1 = oldv.subrange(0, i + 1);
            proof {
                reveal(Seq::filter);
                assert(seen1.drop_last() =~= seen);
                assert(seen1.last() == oldv[i as int]);
                assert(oldv.skip(i as int)[0] == oldv[i as int]);
            }
            let ghost curv = self.sessions@.map_values(|s: Session| s@);
            proof {
                assert(curv.len() == self.sessions@.len());
                assert(oldv.skip(i as int).len() == n - i);
            }
            let sess = self.sessions.remove(0);
            proof {
                assert(self.sessions@.map_values(|s: Session| s@) =~= curv.remove(0));
                assert(curv.remove(0) =~= oldv.skip(i + 1));
                assert(sess@ == oldv[i as int]);
            }
            if sess.created <= now && now - sess.created <= self.ttl {
                kept.push(sess);
                proof {
                    reveal(Seq::filter);
                    assert(pred(oldv[i as int]));
                    assert(kept@.map_values(|s: Session| s@) =~= seen.filter(pred).push(
                        oldv[i as int],
                    ));
                }
            } else {
                proof {
                    reveal(Seq::filter);
                    assert(!pred(oldv[i as int]));
                }
            }
            i = i + 1;
        }
        proof {
            assert(oldv.subrange(0, n as int) =~= oldv);
        }
        self.sessions = kept;
        proof {
            assert forall|a: int|
                0 <= a < final(self)@.len() implies session_wf(#[trigger] final(self)@[a]) by {
                lemma_filter_member_wf(oldv, pred, a);
            }
            assert forall|a: int, b: int| 0 <= a < b < final(self)@.len() implies !session_key_is(
                #[trigger] final(self)@[a],
                (#[trigger] final(self)@[b]).msg,
                final(self)@[b].pk_set,
            ) by {
                lemma_filter_pair_distinct_keys(oldv, pred, a, b);
            }
        }
    }
}

/// A surviving collection of a filtering step is one of the originals, so it
/// is still sound.
proof fn lemma_filter_member_wf(s: Seq<SessionV>, pred: spec_fn(SessionV) -> bool, a: int)
    requires
        forall|i: int| 0 <= i < s.len() ==> session_wf(#[trigger] s[i]),
        0 <= a < s.filter(pred).len(),
    ensures
        session_wf(s.filter(pred)[a]),
    decreases s.len(),
{
    reveal(Seq::filter);
    s.lemma_filter_len(pred);
    if s.len() > 0 {
        let rest = s.drop_last();
        rest.lemma_filter_len(pred);
        if pred(s.last()) && a == s.filter(pred).len() - 1 {
        } else {
            lemma_filter_member_wf(rest, pred, a);
        }
    }
}

/// Two distinct survivors of a filtering step still carry distinct
/// aggregation identities.
proof fn lemma_filter_pair_distinct_keys(
    s: Seq<SessionV>,
    pred: spec_fn(SessionV) -> bool,
    a: int,
    b: int,
)
    requires
        aggregator_wf(s),
        0 <= a < b < s.filter(pred).len(),
    ensures
        !session_key_is(s.filter(pred)[a], s.filter(pred)[b].msg, s.filter(pred)[b].pk_set),
    decreases s.len(),
{
    reveal(Seq::filter);
    s.lemma_filter_len(pred);
    if s.len() > 0 {
        let last = s.last();
        let rest = s.drop_last();
        assert(aggregator_wf(rest));
        rest.lemma_filter_len(pred);
        if pred(last) && b == s.filter(pred).len() - 1 {
            assert(s.filter(pred) == rest.filter(pred).push(last));
            let fa = s.filter(pred)[a];
            assert(fa == rest.filter(pred)[a]);
            assert(rest.filter(pred).contains(fa));
            rest.lemma_filter_contains_rev(pred, fa);
            let k = choose|k: int| 0 <= k < rest.len() && rest[k] == fa;
            assert(s[k] == fa);
            assert(!session_key_is(s[k], s[s.len() - 1].msg, s[s.len() - 1].pk_set));
        } else {
            lemma_filter_pair_distinct_keys(rest, pred, a, b);
            assert(s.filter(pred)[a] == rest.filter(pred)[a]);
            assert(s.filter(pred)[b] == rest.filter(pred)[b]);
        }
    }
}

/// Combines the shares of a finished collection. The collection is sound and
/// holds `threshold + 1` shares, so the combination succeeds and the result
/// verifies under the master key.
fn combine_session(sess: &Session, threshold: usize) -> (r: Vec<u8>)
    requires
        bls_pks_wf(sess@.pk_set),
        bls_master_key(sess@.pk_set) != identity_pk_bytes(),
        threshold == bls_pks_threshold(sess@.pk_set),
        sess@.shares.len() > threshold,
        forall|i: int, j: int|
            0 <= i < j < sess@.shares.len() ==> (#[trigger] sess@.shares[i]).0 != (
            #[trigger] sess@.shares[j]).0,
        forall|i: int|
            0 <= i < sess@.shares.len() ==> bls_share_verified(
                sess@.pk_set,
                (#[trigger] sess@.shares[i]).0 as int,
                sess@.shares[i].1,
                sess@.msg,
            ) && bls_share_wf(sess@.shares[i].1),
    ensures
        bls_verified(bls_master_key(sess@.pk_set), r@, sess@.msg),
{
    proof {
        assert forall|i: int|
            0 <= i < sess.shares@.len() implies bls_share_wf(
            (#[trigger] sess.shares@[i]).1@,
        ) && bls_share_verified(
            sess@.pk_set,
            sess.shares@[i].0 as int,
            sess.shares@[i].1@,
            sess@.msg,
        ) by {
            assert(sess@.shares[i] == (sess.shares@[i].0, sess.shares@[i].1@));
        }
        assert forall|i: int, j: int|
            0 <= i < j < sess.shares@.len() implies (#[trigger] sess.shares@[i]).0 != (
        #[trigger] sess.shares@[j]).0 by {
            assert(sess@.shares[i] == (sess.shares@[i].0, sess.shares@[i].1@));
            assert(sess@.shares[j] == (sess.shares@[j].0, sess.shares@[j].1@));
        }
    }
    let r = bls_combine(&sess.pk_set, &sess.shares, &sess.msg);
    r.unwrap()
}

/// Whether a collection finishes on the next fresh valid share, and whether
/// a signer is already counted, depend only on the multiset of held shares:
/// the order in which shares arrived cannot matter.
pub proof fn lemma_outcome_order_blind(s1: SessionV, s2: SessionV, index: usize)
    requires
        s1.msg == s2.msg,
        s1.pk_set == s2.pk_set,
        s1.shares.to_multiset() == s2.shares.to_multiset(),
    ensures
        (s1.shares.len() + 1 > bls_pks_threshold(s1.pk_set)) <==> (s2.shares.len() + 1
            > bls_pks_threshold(s2.pk_set)),
        has_share_index(s1, index) <==> has_share_index(s2, index),
{
    s1.shares.to_multiset_ensures();
    s2.shares.to_multiset_ensures();
    assert(s1.shares.len() == s2.shares.len());
    if has_share_index(s1, index) {
        let k = choose|k: int| 0 <= k < s1.shares.len() && (#[trigger] s1.shares[k]).0 == index;
        assert(s1.shares.contains(s1.shares[k]));
        assert(s2.shares.to_multiset().count(s1.shares[k]) > 0);
        assert(s2.shares.contains(s1.shares[k]));
        let m = choose|m: int| 0 <= m < s2.shares.len() && s2.shares[m] == s1.shares[k];
        assert(s2.shares[m].0 == index);
        assert(has_share_index(s2, index));
    }
    if has_share_index(s2, index) {
        let k = choose|k: int| 0 <= k < s2.shares.len() && (#[trigger] s2.shares[k]).0 == index;
        assert(s2.shares.contains(s2.shares[k]));
        assert(s1.shares.to_multiset().count(s2.shares[k]) > 0);
        assert(s1.shares.contains(s2.shares[k]));
        let m = choose|m: int| 0 <= m < s1.shares.len() && s1.shares[m] == s2.shares[k];
        assert(s1.shares[m].0 == index);
        assert(has_share_index(s1, index));
    }
}

} // verus!
