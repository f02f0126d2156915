//! The data manager's ledger: which nodes hold each stored chunk. Records
//! are kept per chunk name; when the close group around a chunk changes, the
//! ledger is rebuilt so that every chunk keeps at least three holders, the
//! closest available ones, and replication orders are handed out for every
//! close node.

use vstd::prelude::*;
use crate::codec::{enc_u64, write_u64, write_bits};
use crate::dkg::enc_names;
use crate::name::{
    closer_to_target, lemma_closer_trans, lemma_lex_lt_irrefl, names_contain, names_view, name_in,
    xor_bits, Name,
};

verus! {

/// The fewest holders a chunk keeps.
pub const MIN_HOLDERS: usize = 3;

/// The views of the ledger's records.
pub open spec fn db_view(s: Seq<(Name, Vec<Name>)>) -> Seq<(Seq<bool>, Seq<Seq<bool>>)> {
    s.map_values(|p: (Name, Vec<Name>)| (p.0@, names_view(p.1@)))
}

/// Whether the ledger holds a record for `key`.
pub open spec fn db_contains_key(s: Seq<(Seq<bool>, Seq<Seq<bool>>)>, key: Seq<bool>) -> bool {
    exists|i: int| 0 <= i < s.len() && (#[trigger] s[i]).0 == key
}

/// Whether the ledger's records carry pairwise distinct chunk names.
pub open spec fn db_wf(s: Seq<(Seq<bool>, Seq<Seq<bool>>)>) -> bool {
    forall|i: int, j: int| 0 <= i < j < s.len() ==> (#[trigger] s[i]).0 != (#[trigger] s[j]).0
}

/// Whether earlier names sit no farther from `t`.
pub open spec fn sorted_names(s: Seq<Seq<bool>>, t: Seq<bool>) -> bool {
    forall|i: int, j: int|
        0 <= i < j < s.len() ==> !closer_to_target(#[trigger] s[j], #[trigger] s[i], t)
}

/// The names of `group` that appear in `kept` already.
pub open spec fn absent_from(kept: Seq<Seq<bool>>) -> spec_fn(Seq<bool>) -> bool {
    |n: Seq<bool>| !names_contain(kept, n)
}

/// The names of `nodes` that sit in `group`.
pub open spec fn present_in(group: Seq<Seq<bool>>) -> spec_fn(Seq<bool>) -> bool {
    |n: Seq<bool>| names_contain(group, n)
}

/// Whether `vs` is the rebuilt holder list for a chunk named `target` whose
/// old holders were `nodes`, around the close group `group`: the holders
/// still close are kept, and where fewer than the floor remain, the close
/// group's names, ordered closest to the chunk first, are appended,
/// skipping those already kept.
pub open spec fn rebuilt_ok(
    nodes: Seq<Seq<bool>>,
    group: Seq<Seq<bool>>,
    target: Seq<bool>,
    vs: Seq<Seq<bool>>,
) -> bool {
    let kept = nodes.filter(present_in(group));
    if kept.len() >= MIN_HOLDERS {
        vs == kept
    } else {
        exists|g: Seq<Seq<bool>>|
            {
                &&& #[trigger] g.to_multiset() == group.to_multiset()
                &&& sorted_names(g, target)
                &&& vs == kept + g.filter(absent_from(kept))
            }
    }
}

/// Two name lists with the same multiset hold the same names.
proof fn lemma_contains_same_multiset(g1: Seq<Seq<bool>>, g2: Seq<Seq<bool>>, x: Seq<bool>)
    requires
        g1.to_multiset() == g2.to_multiset(),
    ensures
        names_contain(g1, x) == names_contain(g2, x),
{
    g1.to_multiset_ensures();
    g2.to_multiset_ensures();
    assert(g1.to_multiset().count(x) == g2.to_multiset().count(x));
    assert(g1.contains(x) <==> g1.to_multiset().count(x) > 0);
    assert(g2.contains(x) <==> g2.to_multiset().count(x) > 0);
    assert(names_contain(g1, x) == g1.contains(x));
    assert(names_contain(g2, x) == g2.contains(x));
}

/// Filtering with predicates that agree on every element gives the same
/// list.
proof fn lemma_filter_equiv_preds(
    s: Seq<Seq<bool>>,
    p1: spec_fn(Seq<bool>) -> bool,
    p2: spec_fn(Seq<bool>) -> bool,
)
    requires
        forall|i: int| 0 <= i < s.len() ==> p1(#[trigger] s[i]) == p2(s[i]),
    ensures
        s.filter(p1) == s.filter(p2),
    decreases s.len(),
{
    reveal(Seq::filter);
    if s.len() > 0 {
        let rest = s.drop_last();
        assert forall|i: int| 0 <= i < rest.len() implies p1(#[trigger] rest[i]) == p2(
            rest[i],
        ) by {
            assert(rest[i] == s[i]);
        }
        lemma_filter_equiv_preds(rest, p1, p2);
        assert(s.last() == s[s.len() - 1]);
    }
}

/// The spec-level image of a replication order's payload.
pub struct SendableRecordV {
    pub name: Seq<bool>,
    pub type_tag: u64,
    pub content: Seq<u8>,
}

/// A chunk record ready to send: the chunk's name, a type tag, and the
/// encoded holder list.
#[derive(Debug)]
pub struct SendableRecord {
    pub name: Name,
    pub type_tag: u64,
    pub content: Vec<u8>,
}

impl View for SendableRecord {
    type V = SendableRecordV;

    open spec fn view(&self) -> SendableRecordV {
        SendableRecordV { name: self.name@, type_tag: self.type_tag, content: self.content@ }
    }
}

/// The spec-level image of a [`NodeAction`].
pub enum NodeActionV {
    Put { destination: Seq<bool>, content: SendableRecordV },
}

/// An order for the routing layer: store this record at that node.
#[derive(Debug)]
pub enum NodeAction {
    /// Deliver `content` to the node named `destination`.
    Put { destination: Name, content: SendableRecord },
}

impl View for NodeAction {
    type V = NodeActionV;

    open spec fn view(&self) -> NodeActionV {
        match self {
            NodeAction::Put { destination, content } => NodeActionV::Put {
                destination: destination@,
                content: content@,
            },
        }
    }
}

/// Clones a list of names, keeping its views.
pub fn clone_names(v: &Vec<Name>) -> (r: Vec<Name>)
    ensures
        names_view(r@) == names_view(v@),
{
    let n = v.len();
    let mut r: Vec<Name> = Vec::new();
    let mut i: usize = 0;
    while i < n
        invariant
            i <= n,
            n == v@.len(),
            r@.len() == i,
            forall|k: int| 0 <= k < i ==> names_view(r@)[k] == names_view(v@)[k],
        decreases n - i,
    {
        r.push(v[i].clone());
        i = i + 1;
    }
    assert(names_view(r@) =~= names_view(v@));
    r
}

/// The position at which `x` is strictly closer to `target` than the entry
/// there, in a distance-sorted list of names.
fn name_insertion_point(sorted: &Vec<Name>, x: &Name, target: &Name) -> (pos: usize)
    ensures
        pos <= sorted@.len(),
        forall|k: int|
            0 <= k < pos ==> !closer_to_target(x@, #[trigger] names_view(sorted@)[k], target@),
        pos < sorted@.len() ==> closer_to_target(x@, names_view(sorted@)[pos as int], target@),
{
    let n = sorted.len();
    let mut pos: usize = 0;
    while pos < n
        invariant
            pos <= n,
            n == sorted@.len(),
            forall|k: int|
                0 <= k < pos ==> !closer_to_target(x@, #[trigger] names_view(sorted@)[k], target@),
        decreases n - pos,
    {
        if crate::name::closer(x, &sorted[pos], target) {
            assert(closer_to_target(x@, names_view(sorted@)[pos as int], target@));
            return pos;
        }
        assert(!closer_to_target(x@, names_view(sorted@)[pos as int], target@));
        pos = pos + 1;
    }
    pos
}

/// Inserting a name at the first position it is strictly closer than keeps
/// the list sorted.
proof fn lemma_sorted_names_insert(s: Seq<Seq<bool>>, pos: int, x: Seq<bool>, t: Seq<bool>)
    requires
        t.len() == 256,
        x.len() == 256,
        forall|k: int| 0 <= k < s.len() ==> (#[trigger] s[k]).len() == 256,
        sorted_names(s, t),
        0 <= pos <= s.len(),
        forall|k: int| 0 <= k < pos ==> !closer_to_target(x, #[trigger] s[k], t),
        pos < s.len() ==> closer_to_target(x, s[pos], t),
    ensures
        sorted_names(s.insert(pos, x), t),
{
    s.insert_ensures(pos, x);
    let s2 = s.insert(pos, x);
    assert forall|i: int, j: int| 0 <= i < j < s2.len() implies !closer_to_target(
        #[trigger] s2[j],
        #[trigger] s2[i],
        t,
    ) by {
        if j < pos {
            assert(s2[i] == s[i] && s2[j] == s[j]);
        } else if i < pos && j == pos {
            assert(s2[i] == s[i] && s2[j] == x);
        } else if i < pos && j > pos {
            assert(s2[i] == s[i] && s2[j] == s[j - 1]);
            assert(i < j - 1);
        } else if i == pos && j > pos {
            assert(s2[i] == x && s2[j] == s[j - 1]);
            if closer_to_target(s[j - 1], x, t) {
                lemma_closer_trans(s[j - 1], x, s[pos], t);
                if j - 1 == pos {
                    lemma_lex_lt_irrefl(xor_bits(s[pos], t));
                } else {
                    assert(!closer_to_target(s[j - 1], s[pos], t));
                }
            }
        } else {
            assert(s2[i] == s[i - 1] && s2[j] == s[j - 1]);
        }
    }
}

/// The same names, ordered closest first by XOR distance to `target`.
pub fn sort_names_by_distance(v: &Vec<Name>, target: &Name) -> (r: Vec<Name>)
    ensures
        names_view(r@).to_multiset() == names_view(v@).to_multiset(),
        sorted_names(names_view(r@), target@),
{
    proof {
        use_type_invariant(target);
        target.wf_len();
    }
    let n = v.len();
    let mut sorted: Vec<Name> = Vec::new();
    proof {
        assert(names_view(sorted@) =~= Seq::<Seq<bool>>::empty());
        assert(names_view(v@).subrange(0, 0) =~= Seq::<Seq<bool>>::empty());
    }
    let mut i: usize = 0;
    while i < n
        invariant
            i <= n,
            n == v@.len(),
            target@.len() == 256,
            sorted@.len() == i,
            forall|k: int| 0 <= k < i ==> (#[trigger] names_view(sorted@)[k]).len() == 256,
            sorted_names(names_view(sorted@), target@),
            names_view(sorted@).to_multiset() == names_view(v@).subrange(0, i as int).to_multiset(),
        decreases n - i,
    {
        let ghost pre = names_view(sorted@);
        let ghost seen = names_view(v@).subrange(0, i as int);
        let x = v[i].clone();
        proof {
            use_type_invariant(&x);
            x.wf_len();
            assert(names_view(v@)[i as int] == x@);
        }
        let pos = name_insertion_point(&sorted, &x, target);
        sorted.insert(pos, x);
        proof {
            assert(names_view(sorted@) =~= pre.insert(pos as int, names_view(v@)[i as int]));
            vstd::seq_lib::to_multiset_insert(pre, pos as int, names_view(v@)[i as int]);
            seen.to_multiset_ensures();
            assert(seen.push(names_view(v@)[i as int]).to_multiset() =~= seen.to_multiset().insert(
                names_view(v@)[i as int],
            ));
            assert(names_view(v@).subrange(0, i + 1) =~= seen.push(names_view(v@)[i as int]));
            lemma_sorted_names_insert(pre, pos as int, names_view(v@)[i as int], target@);
            assert forall|k: int|
                0 <= k < names_view(sorted@).len() implies (#[trigger] names_view(
                sorted@,
            )[k]).len() == 256 by {
                pre.insert_ensures(pos as int, names_view(v@)[i as int]);
            }
        }
        i = i + 1;
    }
    proof {
        assert(names_view(v@).subrange(0, n as int) =~= names_view(v@));
    }
    sorted
}

/// The encoded holder list: the count, then each name.
pub open spec fn enc_holder_list(s: Seq<Seq<bool>>) -> Seq<u8> {
    enc_u64(s.len() as u64) + enc_names(s)
}

/// Encodes a holder list into its canonical bytes.
pub fn encode_holder_list(v: &Vec<Name>) -> (r: Vec<u8>)
    ensures
        r@ == enc_holder_list(names_view(v@)),
{
    let mut out: Vec<u8> = Vec::new();
    write_u64(&mut out, v.len() as u64);
    let ghost namesv = names_view(v@);
    let n = v.len();
    let mut i: usize = 0;
    while i < n
        invariant
            i <= n,
            n == v@.len(),
            namesv == names_view(v@),
            out@ == enc_u64(n as u64) + enc_names(namesv.subrange(0, i as int)),
        decreases n - i,
    {
        let bits = v[i].to_bits();
        write_bits(&mut out, &bits);
        proof {
            let sub = namesv.subrange(0, i + 1);
            assert(sub.drop_last() =~= namesv.subrange(0, i as int));
            assert(sub.last() == namesv[i as int]);
            assert(enc_u64(n as u64) + enc_names(namesv.subrange(0, i as int)) + crate::codec::enc_bits(
                namesv[i as int],
            ) =~= enc_u64(n as u64) + enc_names(sub));
        }
        i = i + 1;
    }
    assert(namesv.subrange(0, n as int) =~= namesv);
    out
}

/// Rebuilds one chunk's holder list after churn: holders outside the close
/// group are dropped; if fewer than three remain, the close group is sorted
/// by distance to the chunk and the missing closest nodes are drawn from it.
/// The close group keeps its members, only their order changes, and it is
/// reordered only when a refill was needed.
pub fn adjust_record(nodes: &Vec<Name>, close_group: &mut Vec<Name>, target: &Name) -> (r: Vec<
    Name,
>)
    requires
        old(close_group)@.len() >= MIN_HOLDERS,
    ensures
        names_view(final(close_group)@).to_multiset() == names_view(
            old(close_group)@,
        ).to_multiset(),
        ({
            let kept = names_view(nodes@).filter(present_in(names_view(old(close_group)@)));
            if kept.len() >= MIN_HOLDERS {
                final(close_group)@ == old(close_group)@ && names_view(r@) == kept
            } else {
                sorted_names(names_view(final(close_group)@), target@) && names_view(r@) == kept
                    + names_view(final(close_group)@).filter(absent_from(kept))
            }
        }),
{
    let ghost groupv = names_view(close_group@);
    let ghost pred = present_in(groupv);
    let mut kept: Vec<Name> = Vec::new();
    proof {
        reveal(Seq::filter);
        assert(names_view(kept@) =~= Seq::<Seq<bool>>::empty());
        assert(names_view(nodes@).subrange(0, 0) =~= Seq::<Seq<bool>>::empty());
    }
    let n = nodes.len();
    let mut i: usize = 0;
    while i < n
        invariant
            i <= n,
            n == nodes@.len(),
            groupv == names_view(old(close_group)@),
            close_group@ == old(close_group)@,
            pred == present_in(groupv),
            names_view(kept@) == names_view(nodes@).subrange(0, i as int).filter(pred),
        decreases n - i,
    {
        let ghost seen = names_view(nodes@).subrange(0, i as int);
        let ghost seen1 = names_view(nodes@).subrange(0, i + 1);
        proof {
            reveal(Seq::filter);
            assert(seen1.drop_last() =~= seen);
            assert(seen1.last() == names_view(nodes@)[i as int]);
        }
        if name_in(close_group, &nodes[i]) {
            let ghost prev = names_view(kept@);
            kept.push(nodes[i].clone());
            proof {
                reveal(Seq::filter);
                assert(pred(names_view(nodes@)[i as int]));
                assert(names_view(kept@) =~= prev.push(names_view(nodes@)[i as int]));
                assert(seen1.filter(pred) == seen.filter(pred).push(names_view(nodes@)[i as int]));
            }
        } else {
            proof {
                reveal(Seq::filter);
                assert(!pred(names_view(nodes@)[i as int]));
                assert(seen1.filter(pred) == seen.filter(pred));
            }
        }
        i = i + 1;
    }
    proof {
        assert(names_view(nodes@).subrange(0, n as int) =~= names_view(nodes@));
    }
    if kept.len() >= MIN_HOLDERS {
        proof {
            assert(names_view(final(close_group)@).to_multiset() == names_view(
                old(close_group)@,
            ).to_multiset());
        }
        return kept;
    }
    let sorted = sort_names_by_distance(close_group, target);
    *close_group = sorted;
    let kept_len = kept.len();
    let ghost keptv = names_view(kept@);
    let ghost fgroup = names_view(close_group@);
    let ghost apred = absent_from(keptv);
    let mut r = kept;
    proof {
        reveal(Seq::filter);
        assert(fgroup.subrange(0, 0) =~= Seq::<Seq<bool>>::empty());
        assert(fgroup.subrange(0, 0).filter(apred) =~= Seq::<Seq<bool>>::empty());
        assert(names_view(r@) =~= keptv + fgroup.subrange(0, 0).filter(apred));
    }
    let m = close_group.len();
    let mut j: usize = 0;
    while j < m
        invariant
            j <= m,
            m == close_group@.len(),
            fgroup == names_view(close_group@),
            keptv == names_view(nodes@).filter(present_in(groupv)),
            apred == absent_from(keptv),
            kept_len == keptv.len(),
            names_view(r@) == keptv + fgroup.subrange(0, j as int).filter(apred),
        decreases m - j,
    {
        let ghost seen = fgroup.subrange(0, j as int);
        let ghost seen1 = fgroup.subrange(0, j + 1);
        proof {
            reveal(Seq::filter);
            assert(seen1.drop_last() =~= seen);
            assert(seen1.last() == fgroup[j as int]);
        }
        let candidate = &close_group[j];
        proof {
            assert(fgroup[j as int] == candidate@);
            assert(names_view(r@).len() == r@.len());
            assert(names_view(r@).len() >= kept_len);
            assert(names_view(r@).subrange(0, kept_len as int) =~= keptv);
        }
        let found = name_in_prefix(&r, candidate, kept_len);
        if !found {
            let ghost prev = names_view(r@);
            r.push(candidate.clone());
            proof {
                reveal(Seq::filter);
                assert(!names_contain(keptv, fgroup[j as int]));
                assert(apred(fgroup[j as int]));
                assert(names_view(r@) =~= prev.push(fgroup[j as int]));
                assert(seen1.filter(apred) == seen.filter(apred).push(fgroup[j as int]));
                assert(keptv + seen.filter(apred).push(fgroup[j as int]) =~= (keptv + seen.filter(
                    apred,
                )).push(fgroup[j as int]));
            }
        } else {
            proof {
                reveal(Seq::filter);
                assert(names_contain(keptv, fgroup[j as int]));
                assert(!apred(fgroup[j as int]));
                assert(seen1.filter(apred) == seen.filter(apred));
            }
        }
        j = j + 1;
    }
    proof {
        assert(fgroup.subrange(0, m as int) =~= fgroup);
    }
    r
}

/// Whether the first `limit` entries of the list hold the name.
fn name_in_prefix(list: &Vec<Name>, name: &Name, limit: usize) -> (r: bool)
    requires
        limit <= list@.len(),
    ensures
        r == names_contain(names_view(list@).subrange(0, limit as int), name@),
{
    let mut i: usize = 0;
    while i < limit
        invariant
            i <= limit,
            limit <= list@.len(),
            forall|k: int| 0 <= k < i ==> names_view(list@)[k] != name@,
        decreases limit - i,
    {
        if list[i].equals(name) {
            assert(names_view(list@).subrange(0, limit as int)[i as int] == name@);
            return true;
        }
        assert(names_view(list@)[i as int] != name@);
        i = i + 1;
    }
    proof {
        if names_contain(names_view(list@).subrange(0, limit as int), name@) {
            let k = choose|k: int|
                0 <= k < limit && names_view(list@).subrange(0, limit as int)[k] == name@;
            assert(names_view(list@)[k] == name@);
        }
    }
    false
}


/// Whether `(name, content)` is the prepared record for chunk `k` of the
/// stored ledger: named after the chunk, holding the encoded rebuilt
/// holder list.
pub open spec fn prepared_ok(
    storage: Seq<(Seq<bool>, Seq<Seq<bool>>)>,
    group: Seq<Seq<bool>>,
    k: int,
    name: Seq<bool>,
    content: Seq<u8>,
) -> bool {
    &&& name == storage[k].0
    &&& exists|vs: Seq<Seq<bool>>|
        #[trigger] enc_holder_list(vs) == content && rebuilt_ok(
            storage[k].1,
            group,
            storage[k].0,
            vs,
        )
}

/// Whether `act` is replication order `k` for the stored ledger: with the
/// close group's length as the stride, order `k` sends the prepared record
/// of chunk `k / stride` to the close node at position `k % stride` of the
/// group as handed back.
pub open spec fn action_ok(
    storage: Seq<(Seq<bool>, Seq<Seq<bool>>)>,
    group: Seq<Seq<bool>>,
    group_after: Seq<Seq<bool>>,
    k: int,
    act: NodeActionV,
) -> bool {
    let stride = group.len() as int;
    &&& act matches NodeActionV::Put { destination, content }
    &&& act->Put_destination == group_after[k % stride]
    &&& act->Put_content.type_tag == 1
    &&& prepared_ok(storage, group, k / stride, act->Put_content.name, act->Put_content.content)
}

/// The ledger: one holder list per chunk name, each name held at most once.
pub struct DataManagerDatabase {
    storage: Vec<(Name, Vec<Name>)>,
}

impl View for DataManagerDatabase {
    type V = Seq<(Seq<bool>, Seq<Seq<bool>>)>;

    closed spec fn view(&self) -> Seq<(Seq<bool>, Seq<Seq<bool>>)> {
        db_view(self.storage@)
    }
}

impl DataManagerDatabase {
    /// An empty ledger.
    pub fn new() -> (r: DataManagerDatabase)
        ensures
            r@ == Seq::<(Seq<bool>, Seq<Seq<bool>>)>::empty(),
            db_wf(r@),
    {
        let r = DataManagerDatabase { storage: Vec::new() };
        assert(r@ =~= Seq::<(Seq<bool>, Seq<Seq<bool>>)>::empty());
        r
    }

    /// How many chunks the ledger tracks.
    pub fn len(&self) -> (r: usize)
        ensures
            r == self@.len(),
    {
        self.storage.len()
    }

    /// Where the record for `name` sits, if anywhere.
    fn position(&self, name: &Name) -> (r: Option<usize>)
        ensures
            r matches Some(i) ==> i < self@.len() && self@[i as int].0 == name@,
            r is None ==> !db_contains_key(self@, name@),
    {
        let n = self.storage.len();
        let mut i: usize = 0;
        while i < n
            invariant
                i <= n,
                n == self.storage@.len(),
                self@ == db_view(self.storage@),
                forall|k: int| 0 <= k < i ==> (#[trigger] self@[k]).0 != name@,
            decreases n - i,
        {
            if self.storage[i].0.equals(name) {
                assert(self@[i as int].0 == name@);
                return Some(i);
            }
            assert(self@[i as int].0 != name@);
            i = i + 1;
        }
        None
    }

    /// Whether a record for `name` exists.
    pub fn exist(&mut self, name: &Name) -> (r: bool)
        ensures
            final(self)@ == old(self)@,
            r == db_contains_key(old(self)@, name@),
    {
        match self.position(name) {
            Some(i) => {
                assert(db_contains_key(self@, name@));
                true
            },
            None => false,
        }
    }

    /// Records the holder list for a chunk not yet tracked; a chunk already
    /// tracked keeps the list it has.
    pub fn put_pmid_nodes(&mut self, name: &Name, pmid_nodes: Vec<Name>)
        requires
            db_wf(old(self)@),
        ensures
            db_wf(final(self)@),
            db_contains_key(old(self)@, name@) ==> final(self)@ == old(self)@,
            !db_contains_key(old(self)@, name@) ==> final(self)@ == old(self)@.push(
                (name@, names_view(pmid_nodes@)),
            ),
    {
        if self.exist(name) {
            return ;
        }
        let ghost pre = self@;
        self.storage.push((name.clone(), pmid_nodes));
        proof {
            assert(self@ =~= pre.push((name@, names_view(self.storage@.last().1@))));
        }
    }

    /// Adds one holder to a chunk's list: a chunk not yet tracked starts a
    /// list of just this holder, a holder already listed is not listed
    /// twice, and a fresh holder is appended. A touched record moves to the
    /// end of the ledger.
    pub fn add_pmid_node(&mut self, name: &Name, pmid_node: Name)
        requires
            db_wf(old(self)@),
        ensures
            db_wf(final(self)@),
            !db_contains_key(old(self)@, name@) ==> final(self)@ == old(self)@.push(
                (name@, seq![pmid_node@]),
            ),
            db_contains_key(old(self)@, name@) ==> exists|i: int|
                {
                    &&& 0 <= i < old(self)@.len()
                    &&& (#[trigger] old(self)@[i]).0 == name@
                    &&& if names_contain(old(self)@[i].1, pmid_node@) {
                        final(self)@ == old(self)@.remove(i).push(old(self)@[i])
                    } else {
                        final(self)@ == old(self)@.remove(i).push(
                            (name@, old(self)@[i].1.push(pmid_node@)),
                        )
                    }
                },
    {
        let ghost pre = self@;
        match self.position(name) {
            Some(i) => {
                let ghost entry = self@[i as int];
                let mut taken = self.storage.remove(i);
                proof {
                    assert(self@ =~= pre.remove(i as int));
                }
                if !name_in(&taken.1, &pmid_node) {
                    taken.1.push(pmid_node);
                    proof {
                        assert(names_view(taken.1@) =~= entry.1.push(names_view(taken.1@).last()));
                    }
                    let ghost mid = self@;
                    self.storage.push(taken);
                    proof {
                        assert(self@ =~= mid.push((entry.0, entry.1.push(names_view(
                            self.storage@.last().1@,
                        ).last()))));
                    }
                } else {
                    let ghost mid = self@;
                    self.storage.push(taken);
                    proof {
                        assert(self@ =~= mid.push(entry));
                    }
                }
            },
            None => {
                let mut list: Vec<Name> = Vec::new();
                list.push(pmid_node);
                self.storage.push((name.clone(), list));
                proof {
                    assert(names_view(self.storage@.last().1@) =~= seq![names_view(
                        self.storage@.last().1@,
                    ).last()]);
                    assert(self@ =~= pre.push((name@, names_view(self.storage@.last().1@))));
                }
            },
        }
    }

    /// Drops one holder from a chunk's list: the first listing of that
    /// holder goes, an unlisted holder or an untracked chunk changes
    /// nothing. A touched record moves to the end of the ledger.
    pub fn remove_pmid_node(&mut self, name: &Name, pmid_node: Name)
        requires
            db_wf(old(self)@),
        ensures
            db_wf(final(self)@),
            !db_contains_key(old(self)@, name@) ==> final(self)@ == old(self)@,
            db_contains_key(old(self)@, name@) ==> exists|i: int|
                {
                    &&& 0 <= i < old(self)@.len()
                    &&& (#[trigger] old(self)@[i]).0 == name@
                    &&& if names_contain(old(self)@[i].1, pmid_node@) {
                        exists|j: int|
                            {
                                &&& 0 <= j < old(self)@[i].1.len()
                                &&& old(self)@[i].1[j] == pmid_node@
                                &&& forall|k: int| 0 <= k < j ==> old(self)@[i].1[k] != pmid_node@
                                &&& final(self)@ == old(self)@.remove(i).push(
                                    (name@, #[trigger] old(self)@[i].1.remove(j)),
                                )
                            }
                    } else {
                        final(self)@ == old(self)@.remove(i).push(old(self)@[i])
                    }
                },
    {
        let ghost pre = self@;
        match self.position(name) {
            Some(i) => {
                let ghost entry = self@[i as int];
                let mut taken = self.storage.remove(i);
                proof {
                    assert(self@ =~= pre.remove(i as int));
                }
                let m = taken.1.len();
                let mut j: usize = 0;
                let mut found: Option<usize> = None;
                while j < m
                    invariant
                        j <= m,
                        m == taken.1@.len(),
                        entry.1 == names_view(taken.1@),
                        found matches Some(f) ==> f < m && entry.1[f as int] == pmid_node@ && (
                        forall|k: int| 0 <= k < f ==> entry.1[k] != pmid_node@),
                        found is None ==> forall|k: int| 0 <= k < j ==> entry.1[k] != pmid_node@,
                        found is None || (found matches Some(f) && f < j),
                    decreases m - j,
                {
                    if found.is_none() && taken.1[j].equals(&pmid_node) {
                        assert(entry.1[j as int] == pmid_node@);
                        found = Some(j);
                    } else {
                        proof {
                            if found is None {
                                assert(entry.1[j as int] == names_view(taken.1@)[j as int]);
                            }
                        }
                    }
                    j = j + 1;
                }
                match found {
                    Some(f) => {
                        let removed = taken.1.remove(f);
                        proof {
                            assert(names_view(taken.1@) =~= entry.1.remove(f as int));
                        }
                        let ghost mid = self@;
                        self.storage.push(taken);
                        proof {
                            assert(self@ =~= mid.push((entry.0, entry.1.remove(f as int))));
                            assert(names_contain(entry.1, pmid_node@));
                        }
                    },
                    None => {
                        proof {
                            if names_contain(entry.1, pmid_node@) {
                                let k = choose|k: int|
                                    0 <= k < entry.1.len() && entry.1[k] == pmid_node@;
                                assert(false);
                            }
                        }
                        let ghost mid = self@;
                        self.storage.push(taken);
                        proof {
                            assert(self@ =~= mid.push(entry));
                        }
                    },
                }
            },
            None => {},
        }
    }

    /// The holder list recorded for a chunk, or an empty list for a chunk
    /// not tracked.
    pub fn get_pmid_nodes(&mut self, name: &Name) -> (r: Vec<Name>)
        ensures
            final(self)@ == old(self)@,
            db_contains_key(old(self)@, name@) ==> exists|i: int|
                0 <= i < old(self)@.len() && (#[trigger] old(self)@[i]).0 == name@ && names_view(
                    r@,
                ) == old(self)@[i].1,
            !db_contains_key(old(self)@, name@) ==> r@.len() == 0,
    {
        match self.position(name) {
            Some(i) => {
                let r = clone_names(&self.storage[i].1);
                proof {
                    assert(names_view(r@) == self@[i as int].1);
                    assert(db_contains_key(self@, name@));
                }
                r
            },
            None => Vec::new(),
        }
    }

    /// Rebuilds every holder list around the new close group, empties the
    /// ledger, and hands out the replication orders: for stored record `i`
    /// and close-group position `j`, order `i * len + j` carries a record
    /// named after chunk `i` with type tag one and the encoded rebuilt
    /// holder list of that chunk, addressed to the close node at position
    /// `j` of the close group as handed back.
    pub fn retrieve_all_and_reset(&mut self, close_group: &mut Vec<Name>) -> (r: Vec<NodeAction>)
        requires
            db_wf(old(self)@),
            old(close_group)@.len() >= MIN_HOLDERS,
        ensures
            final(self)@ == Seq::<(Seq<bool>, Seq<Seq<bool>>)>::empty(),
            names_view(final(close_group)@).to_multiset() == names_view(
                old(close_group)@,
            ).to_multiset(),
            final(close_group)@.len() == old(close_group)@.len(),
            r@.len() == old(self)@.len() * old(close_group)@.len(),
            forall|k: int|
                0 <= k < r@.len() ==> action_ok(
                    old(self)@,
                    names_view(old(close_group)@),
                    names_view(final(close_group)@),
                    k,
                    (#[trigger] r@[k])@,
                ),
    {
        let ghost oldv = self@;
        let ghost oldgroup = names_view(close_group@);
        let n = self.storage.len();
        let mut prepared: Vec<(Name, Vec<u8>)> = Vec::new();
        let mut i: usize = 0;
        while i < n
            invariant
                i <= n,
                n == oldv.len(),
                oldv == old(self)@,
                oldgroup == names_view(old(close_group)@),
                self@ == db_view(self.storage@),
                self.storage@.len() == n - i,
                db_view(self.storage@) == oldv.skip(i as int),
                close_group@.len() == old(close_group)@.len(),
                close_group@.len() >= MIN_HOLDERS,
                names_view(close_group@).to_multiset() == oldgroup.to_multiset(),
                prepared@.len() == i,
                forall|k: int|
                    0 <= k < i ==> prepared_ok(
                        oldv,
                        oldgroup,
                        k,
                        (#[trigger] prepared@[k]).0@,
                        prepared@[k].1@,
                    ),
            decreases n - i,
        {
            proof {
                assert(oldv.skip(i as int).len() == n - i);
                assert(oldv.skip(i as int)[0] == oldv[i as int]);
            }
            let ghost curv = db_view(self.storage@);
            let entry = self.storage.remove(0);
            proof {
                assert(db_view(self.storage@) =~= curv.remove(0));
                assert(curv.remove(0) =~= oldv.skip(i + 1));
                assert((entry.0@, names_view(entry.1@)) == oldv[i as int]);
            }
            let ghost group_before = names_view(close_group@);
            let adjusted = adjust_record(&entry.1, close_group, &entry.0);
            let ghost vsb = names_view(adjusted@);
            proof {
                group_before.to_multiset_ensures();
                names_view(close_group@).to_multiset_ensures();
                assert(names_view(close_group@).len() == close_group@.len());
                assert(group_before.len() == names_view(close_group@).len());
                let nodes = oldv[i as int].1;
                assert(names_view(entry.1@) == nodes);
                assert forall|j: int|
                    0 <= j < nodes.len() implies present_in(oldgroup)(#[trigger] nodes[j])
                        == present_in(group_before)(nodes[j]) by {
                    lemma_contains_same_multiset(oldgroup, group_before, nodes[j]);
                }
                lemma_filter_equiv_preds(nodes, present_in(oldgroup), present_in(group_before));
                let kept = nodes.filter(present_in(oldgroup));
                assert(kept == nodes.filter(present_in(group_before)));
                if kept.len() >= MIN_HOLDERS {
                    assert(vsb == kept);
                } else {
                    let g = names_view(close_group@);
                    assert(g.to_multiset() == oldgroup.to_multiset());
                    assert(sorted_names(g, oldv[i as int].0));
                    assert(vsb == kept + g.filter(absent_from(kept)));
                }
                assert(rebuilt_ok(oldv[i as int].1, oldgroup, oldv[i as int].0, vsb));
            }
            let content = encode_holder_list(&adjusted);
            let ghost prevp = prepared@;
            prepared.push((entry.0, content));
            proof {
                assert(prepared@[i as int].0@ == oldv[i as int].0);
                assert(prepared@[i as int].1@ == enc_holder_list(vsb));
                assert(prepared_ok(oldv, oldgroup, i as int, prepared@[i as int].0@, prepared@[i as int].1@));
                assert forall|k: int|
                    0 <= k < i + 1 implies prepared_ok(
                    oldv,
                    oldgroup,
                    k,
                    (#[trigger] prepared@[k]).0@,
                    prepared@[k].1@,
                ) by {
                    if k < i {
                        assert(prepared@[k] == prevp[k]);
                    }
                }
            }
            i = i + 1;
        }
        proof {
            assert(oldv.skip(n as int) =~= Seq::<(Seq<bool>, Seq<Seq<bool>>)>::empty());
            assert(self@ =~= Seq::<(Seq<bool>, Seq<Seq<bool>>)>::empty());
        }
        let group_len = close_group.len();
        let ghost groupfin = names_view(close_group@);
        let mut r: Vec<NodeAction> = Vec::new();
        let mut a: usize = 0;
        while a < n
            invariant
                a <= n,
                n == oldv.len(),
                oldv == old(self)@,
                oldgroup == names_view(old(close_group)@),
                group_len == close_group@.len(),
                group_len >= MIN_HOLDERS,
                oldgroup.len() == group_len,
                groupfin == names_view(close_group@),
                prepared@.len() == n,
                forall|k: int|
                    0 <= k < n ==> prepared_ok(
                        oldv,
                        oldgroup,
                        k,
                        (#[trigger] prepared@[k]).0@,
                        prepared@[k].1@,
                    ),
                r@.len() == a * group_len,
                forall|k: int|
                    0 <= k < r@.len() ==> action_ok(oldv, oldgroup, groupfin, k, (#[trigger] r@[k])@),
            decreases n - a,
        {
            let mut b: usize = 0;
            proof {
                assert(a * group_len + group_len == (a + 1) * group_len) by (nonlinear_arith);
                assert(a * group_len <= a * group_len + group_len);
                assert((a + 1) * group_len <= n * group_len) by (nonlinear_arith)
                    requires
                        a + 1 <= n,
                        group_len >= 0,
                ;
            }
            while b < group_len
                invariant
                    b <= group_len,
                    a < n,
                    n == oldv.len(),
                    oldv == old(self)@,
                    oldgroup == names_view(old(close_group)@),
                    group_len == close_group@.len(),
                    group_len >= MIN_HOLDERS,
                    oldgroup.len() == group_len,
                    groupfin == names_view(close_group@),
                    prepared@.len() == n,
                    forall|k: int|
                        0 <= k < n ==> prepared_ok(
                            oldv,
                            oldgroup,
                            k,
                            (#[trigger] prepared@[k]).0@,
                            prepared@[k].1@,
                        ),
                    r@.len() == a * group_len + b,
                    forall|k: int|
                        0 <= k < r@.len() ==> action_ok(
                            oldv,
                            oldgroup,
                            groupfin,
                            k,
                            (#[trigger] r@[k])@,
                        ),
                decreases group_len - b,
            {
                let destination = close_group[b].clone();
                let record = SendableRecord {
                    name: prepared[a].0.clone(),
                    type_tag: 1,
                    content: crate::name::copy_vec(&prepared[a].1),
                };
                let ghost prev = r@;
                r.push(NodeAction::Put { destination, content: record });
                proof {
                    let newk = prev.len() as int;
                    let gl = oldgroup.len() as int;
                    assert(newk == a * group_len + b);
                    assert(newk / gl == a as int && newk % gl == b as int) by (nonlinear_arith)
                        requires
                            newk == (a as int) * gl + (b as int),
                            0 <= b < gl,
                            0 <= a,
                            gl == group_len as int,
                    ;
                    assert(r@[newk]@->Put_destination == groupfin[b as int]);
                    assert(r@[newk]@->Put_content.name == prepared@[a as int].0@);
                    assert(r@[newk]@->Put_content.content == prepared@[a as int].1@);
                    assert(prepared_ok(
                        oldv,
                        oldgroup,
                        a as int,
                        prepared@[a as int].0@,
                        prepared@[a as int].1@,
                    ));
                    let vs0 = choose|vs: Seq<Seq<bool>>|
                        #[trigger] enc_holder_list(vs) == prepared@[a as int].1@ && rebuilt_ok(
                            oldv[a as int].1,
                            oldgroup,
                            oldv[a as int].0,
                            vs,
                        );
                    assert(enc_holder_list(vs0) == r@[newk]@->Put_content.content);
                    assert(action_ok(oldv, oldgroup, groupfin, newk, r@[newk]@));
                    assert forall|k: int|
                        0 <= k < r@.len() implies action_ok(
                        oldv,
                        oldgroup,
                        groupfin,
                        k,
                        (#[trigger] r@[k])@,
                    ) by {
                        if k < newk {
                            assert(r@[k] == prev[k]);
                        }
                    }
                }
                b = b + 1;
            }
            a = a + 1;
        }
        proof {
            assert(n * group_len == oldv.len() * old(close_group)@.len());
        }
        r
    }
}

} // verus!
