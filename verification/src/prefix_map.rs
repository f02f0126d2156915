//! The routing table: the section authority records a node knows, keyed by
//! prefix. The regions of the held prefixes never overlap, a stale record is
//! refused, and a newly agreed record evicts the records it supersedes.

use vstd::prelude::*;
use vstd::seq_lib::to_multiset_insert;
use crate::error::Error;
use crate::name::{closer_to_target, lemma_closer_trans, Name};
use crate::prefix::{lemma_matching_prefixes_overlap, midpoint_bits, prefix_matches, prefixes_overlap};
use crate::section::{SapV, SectionAuthorityProvider};

verus! {

/// The views of a list of authority records.
pub open spec fn saps_view(s: Seq<SectionAuthorityProvider>) -> Seq<SapV> {
    s.map_values(|x: SectionAuthorityProvider| x@)
}

/// Whether a routing table is well formed: the regions of its entries never
/// overlap, so no name can fall under two of them.
pub open spec fn prefix_map_wf(s: Seq<SapV>) -> bool {
    forall|i: int, j: int|
        0 <= i < j < s.len() ==> !prefixes_overlap(
            (#[trigger] s[i]).prefix,
            (#[trigger] s[j]).prefix,
        )
}

/// When a table accepts a new record: every entry whose region overlaps the
/// new one carries a strictly older generation. A record that is not newer
/// than some overlapping entry is stale and refused.
pub open spec fn prefix_map_accepts(s: Seq<SapV>, new: SapV) -> bool {
    forall|i: int|
        0 <= i < s.len() && prefixes_overlap((#[trigger] s[i]).prefix, new.prefix) ==> s[i].generation
            < new.generation
}

/// The entries that survive inserting a record for the region `p`: those
/// whose own region does not overlap it.
pub open spec fn outside_region(p: Seq<bool>) -> spec_fn(SapV) -> bool {
    |e: SapV| !prefixes_overlap(e.prefix, p)
}

/// Whether earlier entries sit no farther from `t`, measured by the XOR
/// distance of their region midpoints.
pub open spec fn sorted_by_midpoint_distance(s: Seq<SapV>, t: Seq<bool>) -> bool {
    forall|i: int, j: int|
        0 <= i < j < s.len() ==> !closer_to_target(
            midpoint_bits((#[trigger] s[j]).prefix),
            midpoint_bits((#[trigger] s[i]).prefix),
            t,
        )
}

/// A node's table of known sections: one authority record per disjoint
/// region, replaced wholesale as newer records are agreed.
pub struct PrefixMap {
    entries: Vec<SectionAuthorityProvider>,
}

impl View for PrefixMap {
    type V = Seq<SapV>;

    closed spec fn view(&self) -> Seq<SapV> {
        saps_view(self.entries@)
    }
}

impl PrefixMap {
    /// An empty table.
    pub fn new() -> (r: PrefixMap)
        ensures
            r@ == Seq::<SapV>::empty(),
            prefix_map_wf(r@),
    {
        let r = PrefixMap { entries: Vec::new() };
        assert(r@ =~= Seq::<SapV>::empty());
        r
    }

    /// How many sections the table knows.
    pub fn len(&self) -> (r: usize)
        ensures
            r == self@.len(),
    {
        self.entries.len()
    }

    /// The record at position `i`.
    pub fn get_at(&self, i: usize) -> (r: &SectionAuthorityProvider)
        requires
            i < self@.len(),
        ensures
            r@ == self@[i as int],
    {
        &self.entries[i]
    }

    /// Records a newly agreed section authority. The record is refused as
    /// stale unless its generation is strictly newer than that of every
    /// entry whose region overlaps its own; on acceptance those overlapping
    /// entries are evicted, since the new record supersedes them, and the
    /// regions held stay pairwise disjoint.
    pub fn insert(&mut self, sap: SectionAuthorityProvider) -> (r: Result<(), Error>)
        requires
            prefix_map_wf(old(self)@),
        ensures
            prefix_map_wf(final(self)@),
            r is Ok <==> prefix_map_accepts(old(self)@, sap@),
            r is Ok ==> final(self)@ == old(self)@.filter(outside_region(sap@.prefix)).push(sap@),
            r matches Err(e) ==> final(self)@ == old(self)@ && e == Error::StaleGeneration,
    {
        proof {
            use_type_invariant(&sap);
        }
        let ghost oldv = old(self)@;
        let n = self.entries.len();
        let mut i: usize = 0;
        while i < n
            invariant
                i <= n,
                n == self.entries@.len(),
                oldv == old(self)@,
                oldv == saps_view(self.entries@),
                prefix_map_wf(oldv),
                forall|k: int|
                    0 <= k < i && prefixes_overlap((#[trigger] oldv[k]).prefix, sap@.prefix)
                        ==> oldv[k].generation < sap@.generation,
            decreases n - i,
        {
            if self.entries[i].prefix().overlaps(sap.prefix()) {
                if self.entries[i].generation() >= sap.generation() {
                    assert(prefixes_overlap(oldv[i as int].prefix, sap@.prefix));
                    assert(oldv[i as int].generation >= sap@.generation);
                    assert(!prefix_map_accepts(oldv, sap@));
                    return Err(Error::StaleGeneration);
                }
            }
            i = i + 1;
        }
        let ghost pred = outside_region(sap@.prefix);
        let mut kept: Vec<SectionAuthorityProvider> = Vec::new();
        proof {
            reveal(Seq::filter);
            assert(saps_view(kept@) =~= Seq::<SapV>::empty());
            assert(oldv.subrange(0, 0).filter(pred) =~= Seq::<SapV>::empty());
        }
        let mut j: usize = 0;
        while j < n
            invariant
                j <= n,
                n == self.entries@.len(),
                oldv == old(self)@,
                oldv == saps_view(self.entries@),
                prefix_map_wf(oldv),
                pred == outside_region(sap@.prefix),
                saps_view(kept@) == oldv.subrange(0, j as int).filter(pred),
                prefix_map_accepts(oldv, sap@),
            decreases n - j,
        {
            let ghost seen = oldv.subrange(0, j as int);
            let ghost seen1 = oldv.subrange(0, j + 1);
            proof {
                reveal(Seq::filter);
                assert(seen1.drop_last() =~= seen);
                assert(seen1.last() == oldv[j as int]);
            }
            if !self.entries[j].prefix().overlaps(sap.prefix()) {
                kept.push(self.entries[j].clone());
                proof {
                    reveal(Seq::filter);
                    assert(pred(oldv[j as int]));
                    assert(saps_view(kept@) =~= seen.filter(pred).push(oldv[j as int]));
                    assert(seen1.filter(pred) == seen.filter(pred).push(oldv[j as int]));
                }
            } else {
                proof {
                    reveal(Seq::filter);
                    assert(!pred(oldv[j as int]));
                    assert(seen1.filter(pred) == seen.filter(pred));
                }
            }
            j = j + 1;
        }
        proof {
            assert(oldv.subrange(0, n as int) =~= oldv);
        }
        let ghost keptv = saps_view(kept@);
        kept.push(sap);
        proof {
            assert(saps_view(kept@) =~= keptv.push(sap@));
        }
        self.entries = kept;
        proof {
            let f = final(self)@;
            assert(f == oldv.filter(pred).push(sap@));
            assert forall|a: int, b: int| 0 <= a < b < f.len() implies !prefixes_overlap(
                (#[trigger] f[a]).prefix,
                (#[trigger] f[b]).prefix,
            ) by {
                oldv.lemma_filter_len(pred);
                if b == f.len() - 1 {
                    oldv.lemma_filter_pred(pred, a);
                    assert(f[a] == oldv.filter(pred)[a]);
                    assert(pred(f[a]));
                } else {
                    assert(f[a] == oldv.filter(pred)[a]);
                    assert(f[b] == oldv.filter(pred)[b]);
                    lemma_filter_pair_from_wf(oldv, pred, a, b);
                }
            }
        }
        Ok(())
    }

    /// The record of the section responsible for `name`: the unique entry
    /// whose prefix matches it, or nothing while the table does not yet
    /// cover that part of the space.
    pub fn section_by_name(&self, name: &Name) -> (r: Option<SectionAuthorityProvider>)
        ensures
            r is Some <==> exists|i: int|
                0 <= i < self@.len() && prefix_matches((#[trigger] self@[i]).prefix, name@),
            r matches Some(s) ==> prefix_matches(s@.prefix, name@) && exists|i: int|
                0 <= i < self@.len() && #[trigger] self@[i] == s@,
    {
        let n = self.entries.len();
        let mut i: usize = 0;
        while i < n
            invariant
                i <= n,
                n == self.entries@.len(),
                self@ == saps_view(self.entries@),
                forall|k: int| 0 <= k < i ==> !prefix_matches((#[trigger] self@[k]).prefix, name@),
            decreases n - i,
        {
            if self.entries[i].prefix().matches(name) {
                let s = self.entries[i].clone();
                assert(self@[i as int] == s@);
                return Some(s);
            }
            assert(!prefix_matches(self@[i as int].prefix, name@));
            i = i + 1;
        }
        None
    }

    /// Up to `n` known sections, closest first by the XOR distance of their
    /// region midpoints to `name`: the head of some distance-sorted
    /// arrangement of the whole table.
    pub fn closest_sections(&self, name: &Name, n: usize) -> (r: Vec<SectionAuthorityProvider>)
        ensures
            saps_view(r@).len() == if n <= self@.len() {
                n as int
            } else {
                self@.len() as int
            },
            exists|full: Seq<SapV>|
                {
                    &&& #[trigger] full.to_multiset() == self@.to_multiset()
                    &&& sorted_by_midpoint_distance(full, name@)
                    &&& saps_view(r@) == full.subrange(0, r@.len() as int)
                },
    {
        proof {
            use_type_invariant(name);
            name.wf_len();
        }
        let total = self.entries.len();
        let mut sorted: Vec<SectionAuthorityProvider> = Vec::new();
        proof {
            assert(saps_view(sorted@) =~= Seq::<SapV>::empty());
            assert(self@.subrange(0, 0) =~= Seq::<SapV>::empty());
        }
        let mut i: usize = 0;
        while i < total
            invariant
                i <= total,
                total == self.entries@.len(),
                self@ == saps_view(self.entries@),
                name@.len() == 256,
                sorted@.len() == i,
                sorted_by_midpoint_distance(saps_view(sorted@), name@),
                saps_view(sorted@).to_multiset() == self@.subrange(0, i as int).to_multiset(),
            decreases total - i,
        {
            let ghost pre = saps_view(sorted@);
            let ghost seen = self@.subrange(0, i as int);
            let x = self.entries[i].clone();
            let mid_x = x.prefix().midpoint();
            let pos = insertion_point(&sorted, &mid_x, name);
            sorted.insert(pos, x);
            proof {
                assert(saps_view(sorted@) =~= pre.insert(pos as int, self@[i as int]));
                to_multiset_insert(pre, pos as int, self@[i as int]);
                seen.to_multiset_ensures();
                assert(seen.push(self@[i as int]).to_multiset() =~= seen.to_multiset().insert(
                    self@[i as int],
                ));
                assert(self@.subrange(0, i + 1) =~= seen.push(self@[i as int]));
                lemma_sorted_insert(pre, pos as int, self@[i as int], name@);
            }
            i = i + 1;
        }
        proof {
            assert(self@.subrange(0, total as int) =~= self@);
        }
        let ghost full = saps_view(sorted@);
        let keep = if n <= total {
            n
        } else {
            total
        };
        sorted.truncate(keep);
        proof {
            assert(saps_view(sorted@) =~= full.subrange(0, keep as int));
        }
        sorted
    }
}

/// In a well-formed table, two distinct survivors of a filtering step still
/// do not overlap.
proof fn lemma_filter_pair_from_wf(s: Seq<SapV>, pred: spec_fn(SapV) -> bool, a: int, b: int)
    requires
        prefix_map_wf(s),
        0 <= a < b < s.filter(pred).len(),
    ensures
        !prefixes_overlap(s.filter(pred)[a].prefix, s.filter(pred)[b].prefix),
    decreases s.len(),
{
    reveal(Seq::filter);
    s.lemma_filter_len(pred);
    if s.len() > 0 {
        let last = s.last();
        let rest = s.drop_last();
        assert(prefix_map_wf(rest));
        rest.lemma_filter_len(pred);
        if pred(last) && b == s.filter(pred).len() - 1 {
            assert(s.filter(pred) == rest.filter(pred).push(last));
            assert(s.filter(pred)[b] == last);
            let fa = s.filter(pred)[a];
            assert(fa == rest.filter(pred)[a]);
            assert(rest.filter(pred).contains(fa));
            rest.lemma_filter_contains_rev(pred, fa);
            let k = choose|k: int| 0 <= k < rest.len() && rest[k] == fa;
            assert(s[k] == fa);
            assert(!prefixes_overlap(s[k].prefix, s[s.len() - 1].prefix));
        } else {
            lemma_filter_pair_from_wf(rest, pred, a, b);
            assert(s.filter(pred)[a] == rest.filter(pred)[a]);
            assert(s.filter(pred)[b] == rest.filter(pred)[b]);
        }
    }
}

/// Inserting an element at the first position it is strictly closer than
/// keeps the arrangement sorted.
proof fn lemma_sorted_insert(s: Seq<SapV>, pos: int, x: SapV, t: Seq<bool>)
    requires
        t.len() == 256,
        sorted_by_midpoint_distance(s, t),
        0 <= pos <= s.len(),
        forall|k: int|
            0 <= k < pos ==> !closer_to_target(
                midpoint_bits(x.prefix),
                midpoint_bits((#[trigger] s[k]).prefix),
                t,
            ),
        pos < s.len() ==> closer_to_target(
            midpoint_bits(x.prefix),
            midpoint_bits(s[pos].prefix),
            t,
        ),
    ensures
        sorted_by_midpoint_distance(s.insert(pos, x), t),
{
    s.insert_ensures(pos, x);
    let s2 = s.insert(pos, x);
    assert forall|i: int, j: int| 0 <= i < j < s2.len() implies !closer_to_target(
        midpoint_bits((#[trigger] s2[j]).prefix),
        midpoint_bits((#[trigger] s2[i]).prefix),
        t,
    ) by {
        if j < pos {
            assert(s2[i] == s[i] && s2[j] == s[j]);
        } else if i < pos && j == pos {
            assert(s2[i] == s[i] && s2[j] == x);
        } else if i < pos && j > pos {
            assert(s2[i] == s[i] && s2[j] == s[j - 1]);
            assert(i < j - 1);
        } else if i == pos && j > pos {
            assert(s2[i] == x && s2[j] == s[j - 1]);
            if closer_to_target(midpoint_bits(s[j - 1].prefix), midpoint_bits(x.prefix), t) {
                lemma_closer_trans(
                    midpoint_bits(s[j - 1].prefix),
                    midpoint_bits(x.prefix),
                    midpoint_bits(s[pos].prefix),
                    t,
                );
                if j - 1 == pos {
                    crate::name::lemma_lex_lt_irrefl(
                        crate::name::xor_bits(midpoint_bits(s[pos].prefix), t),
                    );
                } else {
                    assert(!closer_to_target(
                        midpoint_bits(s[j - 1].prefix),
                        midpoint_bits(s[pos].prefix),
                        t,
                    ));
                }
            }
        } else {
            assert(s2[i] == s[i - 1] && s2[j] == s[j - 1]);
        }
    }
}

/// The first position in a distance-sorted list at which `mid_x` is
/// strictly closer to `target` than the entry there.
fn insertion_point(
    sorted: &Vec<SectionAuthorityProvider>,
    mid_x: &Name,
    target: &Name,
) -> (pos: usize)
    ensures
        pos <= sorted@.len(),
        forall|k: int|
            0 <= k < pos ==> !closer_to_target(
                mid_x@,
                midpoint_bits((#[trigger] saps_view(sorted@)[k]).prefix),
                target@,
            ),
        pos < sorted@.len() ==> closer_to_target(
            mid_x@,
            midpoint_bits(saps_view(sorted@)[pos as int].prefix),
            target@,
        ),
{
    let n = sorted.len();
    let mut pos: usize = 0;
    while pos < n
        invariant
            pos <= n,
            n == sorted@.len(),
            forall|k: int|
                0 <= k < pos ==> !closer_to_target(
                    mid_x@,
                    midpoint_bits((#[trigger] saps_view(sorted@)[k]).prefix),
                    target@,
                ),
        decreases n - pos,
    {
        let mid_e = sorted[pos].prefix().midpoint();
        if crate::name::closer(mid_x, &mid_e, target) {
            assert(closer_to_target(
                mid_x@,
                midpoint_bits(saps_view(sorted@)[pos as int].prefix),
                target@,
            ));
            return pos;
        }
        assert(!closer_to_target(
            mid_x@,
            midpoint_bits(saps_view(sorted@)[pos as int].prefix),
            target@,
        ));
        pos = pos + 1;
    }
    pos
}

/// Two rival records for overlapping regions with the same fresh generation
/// never both enter one table: once the first is accepted, the second is
/// stale for the slot the first now holds and is refused.
pub proof fn lemma_rival_sap_rejected(s: Seq<SapV>, s1: SapV, s2: SapV)
    requires
        prefix_map_accepts(s, s1),
        prefixes_overlap(s2.prefix, s1.prefix),
        s2.generation <= s1.generation,
    ensures
        !prefix_map_accepts(s.filter(outside_region(s1.prefix)).push(s1), s2),
{
    let m2 = s.filter(outside_region(s1.prefix)).push(s1);
    let idx = m2.len() - 1;
    assert(m2[idx] == s1);
    assert(prefixes_overlap(m2[idx].prefix, s2.prefix));
    if prefix_map_accepts(m2, s2) {
        assert(m2[idx].generation < s2.generation);
    }
}

/// Whether some entry of the table matches `name`.
pub open spec fn covered(s: Seq<SapV>, name: Seq<bool>) -> bool {
    exists|i: int| 0 <= i < s.len() && prefix_matches((#[trigger] s[i]).prefix, name)
}

/// Whether the table's regions cover the whole name space.
pub open spec fn covers(s: Seq<SapV>) -> bool {
    forall|name: Seq<bool>| name.len() == 256 ==> #[trigger] covered(s, name)
}

/// At most one entry of a well-formed table matches any one name: matching
/// entries at two positions are the same position.
pub proof fn lemma_at_most_one_match(s: Seq<SapV>, name: Seq<bool>, i: int, j: int)
    requires
        prefix_map_wf(s),
        0 <= i < s.len(),
        0 <= j < s.len(),
        prefix_matches(s[i].prefix, name),
        prefix_matches(s[j].prefix, name),
    ensures
        i == j,
{
    if i != j {
        lemma_matching_prefixes_overlap(s[i].prefix, s[j].prefix, name);
    }
}

/// The partition invariant: once a well-formed table covers the whole
/// space, every name matches exactly one of its entries.
pub proof fn lemma_partition(s: Seq<SapV>, name: Seq<bool>)
    requires
        prefix_map_wf(s),
        covers(s),
        name.len() == 256,
    ensures
        exists|i: int|
            {
                &&& 0 <= i < s.len()
                &&& prefix_matches((#[trigger] s[i]).prefix, name)
                &&& forall|j: int|
                    0 <= j < s.len() && prefix_matches((#[trigger] s[j]).prefix, name) ==> j == i
            },
{
    assert(covered(s, name));
    let i = choose|i: int| 0 <= i < s.len() && prefix_matches((#[trigger] s[i]).prefix, name);
    assert(0 <= i < s.len() && prefix_matches(s[i].prefix, name));
    assert forall|j: int|
        0 <= j < s.len() && prefix_matches((#[trigger] s[j]).prefix, name) implies j == i by {
        lemma_at_most_one_match(s, name, i, j);
    }
}

} // verus!
