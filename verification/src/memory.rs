//! In-memory representation of a merged firmware image.
use vstd::prelude::*;

use std::collections::BTreeMap;

use vstd::std_specs::btree::{spec_btree_map_iter, increasing_seq};
use vstd::std_specs::iter::IteratorSpec;
use vstd::std_specs::cmp::OrdSpec;

use crate::text::{lowercase_of, str_equals, to_lowercase};
use crate::MergehexError;

verus! {

broadcast use {vstd::laws_cmp::group_laws_cmp, vstd::std_specs::btree::group_btree_axioms};

/// Policy for handling overlapping bytes when merging inputs.
#[derive(Debug, Clone, Copy, PartialEq, Eq, Structural)]
pub enum OverlapPolicy {
    /// Abort with an error when an overlap is detected.
    Error,
    /// Replace existing bytes with bytes from the new input.
    Replace,
    /// Keep existing bytes and ignore bytes from the new input.
    Ignore,
}

impl Default for OverlapPolicy {
    fn default() -> (p: Self)
        ensures
            p == OverlapPolicy::Error,
    {
        OverlapPolicy::Error
    }
}

/// The policy that a lower-cased policy name names.
pub open spec fn policy_of_name(lower: Seq<char>) -> Option<OverlapPolicy> {
    if lower == "error"@ {
        Some(OverlapPolicy::Error)
    } else if lower == "replace"@ {
        Some(OverlapPolicy::Replace)
    } else if lower == "ignore"@ {
        Some(OverlapPolicy::Ignore)
    } else {
        None
    }
}

impl OverlapPolicy {
    /// The policy that an already lower-cased name names.
    pub fn from_lowercase_name(lower: &str) -> (r: Option<Self>)
        ensures
            r == policy_of_name(lower@),
    {
        if str_equals(lower, "error") {
            Some(OverlapPolicy::Error)
        } else if str_equals(lower, "replace") {
            Some(OverlapPolicy::Replace)
        } else if str_equals(lower, "ignore") {
            Some(OverlapPolicy::Ignore)
        } else {
            None
        }
    }
}

impl std::str::FromStr for OverlapPolicy {
    type Err = MergehexError;

    /// Read a policy name, ignoring case.
    fn from_str(s: &str) -> (r: Result<Self, Self::Err>)
        ensures
            match policy_of_name(lowercase_of(s@)) {
                Some(p) => r == Ok::<OverlapPolicy, MergehexError>(p),
                None => r matches Err(MergehexError::InvalidArgument { detail }) && detail@
                    == "invalid overlap policy '"@ + s@ + "'; expected 'error', 'replace', or 'ignore'"@,
            },
    {
        let lower = to_lowercase(s);
        match Self::from_lowercase_name(lower.as_str()) {
            Some(p) => Ok(p),
            None => {
                let mut detail = "invalid overlap policy '".to_owned();
                detail.append(s);
                detail.append("'; expected 'error', 'replace', or 'ignore'");
                Err(MergehexError::InvalidArgument { detail })
            },
        }
    }
}

/* The sorted listing of a map */

/// `s` lists the entries of `m` by strictly increasing address.
pub open spec fn is_listing(s: Seq<(u64, u8)>, m: Map<u64, u8>) -> bool {
    &&& forall|i: int, j: int| 0 <= i < j < s.len() ==> s[i].0 < s[j].0
    &&& forall|i: int| 0 <= i < s.len() ==> #[trigger] m.contains_key(s[i].0) && m[s[i].0] == s[i].1
    &&& forall|a: u64| #[trigger] m.contains_key(a) ==> exists|i: int| 0 <= i < s.len() && s[i].0 == a
}

/// The entries of `m` in increasing address order.
pub open spec fn listing(m: Map<u64, u8>) -> Seq<(u64, u8)> {
    choose|s: Seq<(u64, u8)>| is_listing(s, m)
}

/// Two listings of the same map are the same sequence.
pub proof fn lemma_listing_unique(s1: Seq<(u64, u8)>, s2: Seq<(u64, u8)>, m: Map<u64, u8>)
    requires
        is_listing(s1, m),
        is_listing(s2, m),
    ensures
        s1 == s2,
{
    assert forall|i: int| 0 <= i < s1.len() && 0 <= i < s2.len() implies s1[i] == s2[i] by {
        lemma_listing_agree_upto(s1, s2, m, i);
    }
    lemma_listing_longer(s1, s2, m);
    lemma_listing_longer(s2, s1, m);
    assert(s1 =~= s2);
}

proof fn lemma_listing_agree_upto(s1: Seq<(u64, u8)>, s2: Seq<(u64, u8)>, m: Map<u64, u8>, n: int)
    requires
        is_listing(s1, m),
        is_listing(s2, m),
        0 <= n < s1.len(),
        n < s2.len(),
    ensures
        forall|i: int| 0 <= i <= n ==> s1[i] == s2[i],
    decreases n,
{
    if n > 0 {
        lemma_listing_agree_upto(s1, s2, m, n - 1);
    }
    let a1 = s1[n].0;
    let a2 = s2[n].0;
    assert(m.contains_key(a1));
    assert(m.contains_key(a2));
    let k2 = choose|i: int| 0 <= i < s2.len() && s2[i].0 == a1;
    let k1 = choose|i: int| 0 <= i < s1.len() && s1[i].0 == a2;
    if k2 < n {
        assert(s1[k2] == s2[k2]);
    }
    if k1 < n {
        assert(s1[k1] == s2[k1]);
    }
    assert(a1 == a2);
}

proof fn lemma_listing_longer(s1: Seq<(u64, u8)>, s2: Seq<(u64, u8)>, m: Map<u64, u8>)
    requires
        is_listing(s1, m),
        is_listing(s2, m),
    ensures
        s1.len() <= s2.len(),
{
    if s1.len() <= s2.len() {
        return;
    }
    let n = s2.len() as int;
    if n > 0 {
        lemma_listing_agree_upto(s1, s2, m, n - 1);
    }
    let a = s1[n].0;
    assert(m.contains_key(a));
    let k = choose|i: int| 0 <= i < s2.len() && s2[i].0 == a;
    assert(s1[k] == s2[k]);
}

/// A sparse memory image keyed by absolute address.
#[derive(Debug, Clone)]
pub struct MemoryMap {
    data: BTreeMap<u64, u8>,
}

impl View for MemoryMap {
    type V = Map<u64, u8>;

    closed spec fn view(&self) -> Map<u64, u8> {
        self.data@
    }
}

impl Default for MemoryMap {
    fn default() -> (m: Self)
        ensures
            m@ == Map::<u64, u8>::empty(),
    {
        MemoryMap { data: BTreeMap::new() }
    }
}

impl MemoryMap {
    /// Create an empty memory map.
    pub fn new() -> (m: Self)
        ensures
            m@ == Map::<u64, u8>::empty(),
    {
        MemoryMap { data: BTreeMap::new() }
    }

    /// The sorted `(address, byte)` pairs of the map.
    pub fn iter(&self) -> (r: Vec<(u64, u8)>)
        ensures
            is_listing(r@, self@),
            r@ == listing(self@),
    {
        let mut out: Vec<(u64, u8)> = Vec::new();
        let ghost v = spec_btree_map_iter(&self.data).remaining();
        for kv in it: self.data.iter()
            invariant
                it.seq() == v,
                out@.len() == it.index(),
                forall|i: int| 0 <= i < out@.len() ==> out@[i] == (*v[i].0, *v[i].1),
        {
            let (a, b) = kv;
            out.push((*a, *b));
        }
        proof {
            assert(out@.len() == v.len());
            let keys = v.map_values(|kv: (&u64, &u8)| *kv.0);
            assert(vstd::laws_cmp::obeys_cmp::<u64>());
            assert(increasing_seq(keys));
            assert forall|i: int, j: int| 0 <= i < j < out@.len() implies out@[i].0 < out@[j].0 by {
                assert(keys[i] == out@[i].0);
                assert(keys[j] == out@[j].0);
                assert(keys[i].cmp_spec(&keys[j]) is Less);
            }
            assert forall|a: u64| #[trigger] self@.contains_key(a) implies exists|i: int| 0 <= i < out@.len() && out@[i].0 == a by {
                assert(v.contains((&a, &self.data@[a])));
                let i = choose|i: int| 0 <= i < v.len() && v[i] == (&a, &self.data@[a]);
                assert(out@[i].0 == a);
            }
            assert forall|i: int| 0 <= i < out@.len() implies #[trigger] self@.contains_key(out@[i].0) && self@[out@[i].0] == out@[i].1 by {
                assert(self.data@.contains_key(*v[i].0));
            }
            assert(is_listing(out@, self@));
            lemma_listing_unique(out@, listing(self@), self@);
        }
        out
    }
}


/* Merging */

/// The map after writing `byte` at `address` under `policy`, or `None` when the
/// address is taken and the policy forbids overlaps.
pub open spec fn insert_outcome(m: Map<u64, u8>, address: u64, byte: u8, policy: OverlapPolicy) -> Option<Map<u64, u8>> {
    if !m.contains_key(address) {
        Some(m.insert(address, byte))
    } else {
        match policy {
            OverlapPolicy::Error => None,
            OverlapPolicy::Replace => Some(m.insert(address, byte)),
            OverlapPolicy::Ignore => Some(m),
        }
    }
}

/// The map after writing the pairs `ps` one after the other under `policy`: `Ok`
/// with the final map, or `Err` with the first refused address and the map as it
/// stood when that address was refused.
pub open spec fn merge_outcome(m: Map<u64, u8>, ps: Seq<(u64, u8)>, policy: OverlapPolicy) -> Result<Map<u64, u8>, (u64, Map<u64, u8>)>
    decreases ps.len(),
{
    if ps.len() == 0 {
        Ok(m)
    } else {
        match merge_outcome(m, ps.drop_last(), policy) {
            Ok(m1) => match insert_outcome(m1, ps.last().0, ps.last().1, policy) {
                Some(m2) => Ok(m2),
                None => Err((ps.last().0, m1)),
            },
            Err(e) => Err(e),
        }
    }
}

/// `e` reports an overlap at `address` while merging the input named `input`.
pub open spec fn is_overlap_error(e: MergehexError, address: u64, input: Seq<char>) -> bool {
    e matches MergehexError::Overlap { address: a, input: i } && a == address && i@ == input
}

/* Contiguous chunks */

/// The pairs that a chunk of `bytes` placed at `start` covers.
pub open spec fn expand_chunk(start: u64, bytes: Seq<u8>) -> Seq<(u64, u8)> {
    Seq::new(bytes.len(), |i: int| ((start + i) as u64, bytes[i]))
}

/// The pairs that a sequence of chunks covers, in order.
pub open spec fn expand_chunks(cs: Seq<(u64, Seq<u8>)>) -> Seq<(u64, u8)>
    decreases cs.len(),
{
    if cs.len() == 0 {
        Seq::empty()
    } else {
        expand_chunks(cs.drop_last()) + expand_chunk(cs.last().0, cs.last().1)
    }
}

/// The chunks as start addresses and byte sequences.
pub open spec fn chunks_view(v: Seq<(u64, Vec<u8>)>) -> Seq<(u64, Seq<u8>)> {
    v.map_values(|c: (u64, Vec<u8>)| (c.0, c.1@))
}

/// `cs` splits its pairs into maximal runs of consecutive addresses: every chunk is
/// non-empty, stays within the address space, and does not continue the chunk before it.
pub open spec fn chunks_are_maximal(cs: Seq<(u64, Seq<u8>)>) -> bool {
    &&& forall|k: int| 0 <= k < cs.len() ==> (#[trigger] cs[k]).1.len() > 0
    &&& forall|k: int| 0 <= k < cs.len() ==> (#[trigger] cs[k]).0 + cs[k].1.len() - 1 <= u64::MAX
    &&& forall|k: int| 0 < k < cs.len() ==> (#[trigger] cs[k]).0 != cs[k - 1].0 + cs[k - 1].1.len()
}

impl MemoryMap {
    /// Insert a single byte at `address` according to the overlap policy.
    /// `input` names the input in the error that an overlap raises.
    pub fn insert(&mut self, address: u64, byte: u8, policy: OverlapPolicy, input: &str) -> (r: Result<(), MergehexError>)
        ensures
            match insert_outcome(old(self)@, address, byte, policy) {
                Some(m) => r is Ok && final(self)@ == m,
                None => r matches Err(e) && is_overlap_error(e, address, input@) && final(self)@ == old(self)@,
            },
    {
        if !self.data.contains_key(&address) {
            self.data.insert(address, byte);
            Ok(())
        } else {
            match policy {
                OverlapPolicy::Error => Err(MergehexError::Overlap { address, input: input.to_owned() }),
                OverlapPolicy::Replace => {
                    self.data.insert(address, byte);
                    Ok(())
                },
                OverlapPolicy::Ignore => Ok(()),
            }
        }
    }

    /// Set a byte unconditionally.
    pub fn set(&mut self, address: u64, byte: u8) -> (r: Result<(), MergehexError>)
        ensures
            r is Ok,
            final(self)@ == old(self)@.insert(address, byte),
    {
        self.data.insert(address, byte);
        Ok(())
    }

    /// Merge the pairs into this map in order, stopping at the first overlap that
    /// `policy` refuses (the pairs before it stay merged).
    pub fn merge_bytes(&mut self, pairs: &[(u64, u8)], policy: OverlapPolicy, input: &str) -> (r: Result<(), MergehexError>)
        ensures
            match merge_outcome(old(self)@, pairs@, policy) {
                Ok(m) => r is Ok && final(self)@ == m,
                Err((a, m)) => r matches Err(e) && is_overlap_error(e, a, input@) && final(self)@ == m,
            },
    {
        let n = pairs.len();
        for i in 0..n
            invariant
                n == pairs@.len(),
                merge_outcome(old(self)@, pairs@.take(i as int), policy) == Ok::<Map<u64, u8>, (u64, Map<u64, u8>)>(self@),
        {
            let (addr, byte) = pairs[i];
            proof {
                assert(pairs@.take(i + 1).drop_last() =~= pairs@.take(i as int));
            }
            let res = self.insert(addr, byte, policy, input);
            if res.is_err() {
                proof {
                    lemma_merge_outcome_stops(old(self)@, pairs@, policy, i + 1);
                }
                return res;
            }
        }
        proof {
            assert(pairs@.take(n as int) =~= pairs@);
        }
        Ok(())
    }

    /// The number of bytes stored.
    pub fn len(&self) -> (n: usize)
        ensures
            n == self@.len(),
    {
        self.data.len()
    }

    /// Whether no byte is stored.
    pub fn is_empty(&self) -> (b: bool)
        ensures
            b == (self@.len() == 0),
    {
        self.data.is_empty()
    }

    /// Split the memory map into maximal runs of consecutive addresses, as
    /// `(start_address, bytes)` in address order.
    pub fn chunks(&self) -> (r: Vec<(u64, Vec<u8>)>)
        ensures
            expand_chunks(chunks_view(r@)) == listing(self@),
            chunks_are_maximal(chunks_view(r@)),
    {
        let pairs = self.iter();
        let mut chunks: Vec<(u64, Vec<u8>)> = Vec::new();
        let mut current_start: Option<u64> = None;
        let mut current: Vec<u8> = Vec::new();
        let n = pairs.len();
        for idx in 0..n
            invariant
                n == pairs@.len(),
                is_listing(pairs@, self@),
                idx == 0 <==> current_start is None,
                current_start matches Some(s) ==> current@.len() > 0,
                current_start matches Some(s) ==> s + current@.len() - 1 == pairs@[idx - 1].0,
                current_start matches Some(s) ==> expand_chunks(chunks_view(chunks@)) + expand_chunk(s, current@) == pairs@.take(idx as int),
                current_start matches Some(s) ==> chunks_are_maximal(chunks_view(chunks@).push((s, current@))),
                current_start is None ==> chunks@.len() == 0,
        {
            let (addr, byte) = pairs[idx];
            let mut extend = false;
            if let Some(start) = current_start {
                if addr == start + current.len() as u64 {
                    extend = true;
                }
            }
            if extend {
                proof {
                    let s = current_start->0;
                    assert(expand_chunk(s, current@.push(byte)) =~= expand_chunk(s, current@).push((addr, byte)));
                    assert(pairs@.take(idx + 1) =~= pairs@.take(idx as int).push(pairs@[idx as int]));
                    lemma_maximal_grow_last(chunks_view(chunks@), s, current@, byte);
                }
                current.push(byte);
            } else {
                let ghost old_chunks = chunks_view(chunks@);
                if let Some(start) = current_start {
                    let ghost cur = current@;
                    chunks.push((start, current));
                    proof {
                        assert(chunks_view(chunks@) =~= old_chunks.push((start, cur)));
                        assert(chunks_view(chunks@).drop_last() =~= old_chunks);
                    }
                }
                current_start = Some(addr);
                current = vec![byte];
                proof {
                    let cv = chunks_view(chunks@);
                    if cv.len() > 0 {
                        assert(cv.last().0 + cv.last().1.len() - 1 == pairs@[idx - 1].0);
                    }
                    lemma_maximal_push(cv, (addr, current@));
                    assert(expand_chunk(addr, current@) =~= seq![(addr, byte)]);
                    assert(pairs@.take(idx + 1) =~= pairs@.take(idx as int).push(pairs@[idx as int]));
                    if idx == 0 {
                        assert(chunks_view(chunks@) =~= Seq::<(u64, Seq<u8>)>::empty());
                        assert(pairs@.take(0) =~= Seq::<(u64, u8)>::empty());
                    }
                }
            }
        }
        if let Some(start) = current_start {
            let ghost old_chunks = chunks_view(chunks@);
            let ghost cur = current@;
            chunks.push((start, current));
            proof {
                assert(chunks_view(chunks@) =~= old_chunks.push((start, cur)));
                assert(chunks_view(chunks@).drop_last() =~= old_chunks);
                assert(pairs@.take(n as int) =~= pairs@);
            }
        } else {
            proof {
                assert(chunks_view(chunks@) =~= Seq::<(u64, Seq<u8>)>::empty());
                assert(pairs@ =~= Seq::<(u64, u8)>::empty());
            }
        }
        chunks
    }
}

proof fn lemma_maximal_push(cs: Seq<(u64, Seq<u8>)>, c: (u64, Seq<u8>))
    requires
        chunks_are_maximal(cs),
        c.1.len() > 0,
        c.0 + c.1.len() - 1 <= u64::MAX,
        cs.len() > 0 ==> c.0 != cs.last().0 + cs.last().1.len(),
    ensures
        chunks_are_maximal(cs.push(c)),
{
    let n = cs.push(c);
    assert forall|k: int| 0 <= k < n.len() implies (#[trigger] n[k]).1.len() > 0 by {
        if k < cs.len() {
            assert(n[k] == cs[k]);
        }
    }
    assert forall|k: int| 0 <= k < n.len() implies (#[trigger] n[k]).0 + n[k].1.len() - 1 <= u64::MAX by {
        if k < cs.len() {
            assert(n[k] == cs[k]);
        }
    }
    assert forall|k: int| 0 < k < n.len() implies (#[trigger] n[k]).0 != n[k - 1].0 + n[k - 1].1.len() by {
        if k < cs.len() {
            assert(n[k] == cs[k]);
            assert(n[k - 1] == cs[k - 1]);
        }
    }
}

proof fn lemma_maximal_grow_last(cs: Seq<(u64, Seq<u8>)>, st: u64, b: Seq<u8>, x: u8)
    requires
        chunks_are_maximal(cs.push((st, b))),
        st + b.len() <= u64::MAX,
    ensures
        chunks_are_maximal(cs.push((st, b.push(x)))),
{
    let o = cs.push((st, b));
    assert(o.last() == (st, b));
    assert(o.drop_last() =~= cs);
    assert(chunks_are_maximal(cs)) by {
        assert forall|k: int| 0 <= k < cs.len() implies (#[trigger] cs[k]).1.len() > 0 by {
            assert(o[k] == cs[k]);
        }
        assert forall|k: int| 0 <= k < cs.len() implies (#[trigger] cs[k]).0 + cs[k].1.len() - 1 <= u64::MAX by {
            assert(o[k] == cs[k]);
        }
        assert forall|k: int| 0 < k < cs.len() implies (#[trigger] cs[k]).0 != cs[k - 1].0 + cs[k - 1].1.len() by {
            assert(o[k] == cs[k]);
            assert(o[k - 1] == cs[k - 1]);
        }
    }
    if cs.len() > 0 {
        assert(o[cs.len() as int] == (st, b));
        assert(o[cs.len() - 1] == cs.last());
        let k = cs.len() as int;
        assert(o[k].0 != o[k - 1].0 + o[k - 1].1.len());
    }
    lemma_maximal_push(cs, (st, b.push(x)));
}

/// Once a merge is refused, merging more pairs after it is refused the same way.
proof fn lemma_merge_outcome_stops(m: Map<u64, u8>, ps: Seq<(u64, u8)>, policy: OverlapPolicy, k: int)
    requires
        0 <= k <= ps.len(),
        merge_outcome(m, ps.take(k), policy) is Err,
    ensures
        merge_outcome(m, ps, policy) == merge_outcome(m, ps.take(k), policy),
    decreases ps.len() - k,
{
    if k < ps.len() {
        assert(ps.take(k + 1).drop_last() =~= ps.take(k));
        lemma_merge_outcome_stops(m, ps, policy, k + 1);
    } else {
        assert(ps.take(k) =~= ps);
    }
}


/// A finite map has a listing.
pub proof fn lemma_listing_exists(m: Map<u64, u8>)
    requires
        m.dom().finite(),
    ensures
        is_listing(listing(m), m),
    decreases m.dom().len(),
{
    if m.dom().len() == 0 {
        assert(is_listing(Seq::<(u64, u8)>::empty(), m)) by {
            assert forall|a: u64| #[trigger] m.contains_key(a) implies exists|i: int| 0 <= i < 0 && Seq::<(u64, u8)>::empty()[i].0 == a by {
                assert(m.dom().contains(a));
            }
        }
    } else {
        let leq = |x: u64, y: u64| x <= y;
        assert(vstd::relations::total_ordering(leq));
        m.dom().find_unique_maximal_ensures(leq);
        let top = m.dom().find_unique_maximal(leq);
        let rest = m.remove(top);
        assert(rest.dom() =~= m.dom().remove(top));
        lemma_listing_exists(rest);
        let s = listing(rest);
        let s2 = s.push((top, m[top]));
        assert forall|i: int| 0 <= i < s.len() implies #[trigger] s[i].0 < top by {
            assert(rest.contains_key(s[i].0));
            assert(leq(s[i].0, top) || leq(top, s[i].0));
        }
        assert forall|i: int, j: int| 0 <= i < j < s2.len() implies s2[i].0 < s2[j].0 by {
            if j < s.len() {
                assert(s2[i] == s[i] && s2[j] == s[j]);
            } else {
                assert(s2[i] == s[i]);
            }
        }
        assert forall|i: int| 0 <= i < s2.len() implies #[trigger] m.contains_key(s2[i].0) && m[s2[i].0] == s2[i].1 by {
            if i < s.len() {
                assert(s2[i] == s[i]);
                assert(rest.contains_key(s[i].0));
            }
        }
        assert forall|a: u64| #[trigger] m.contains_key(a) implies exists|i: int| 0 <= i < s2.len() && s2[i].0 == a by {
            if a == top {
                assert(s2[s.len() as int].0 == a);
            } else {
                assert(rest.contains_key(a));
                let i = choose|i: int| 0 <= i < s.len() && s[i].0 == a;
                assert(s2[i] == s[i]);
            }
        }
        assert(is_listing(s2, m));
    }
}

/// The map of a memory image has a listing.
pub proof fn lemma_memory_listing(memory: &MemoryMap)
    ensures
        is_listing(listing(memory@), memory@),
{
    assert(memory.data@.dom().finite());
    lemma_listing_exists(memory@);
}


/* What the policies promise */

/// The bytes of the pairs by address, the last pair for an address winning.
pub open spec fn last_wins(ps: Seq<(u64, u8)>) -> Map<u64, u8>
    decreases ps.len(),
{
    if ps.len() == 0 {
        Map::empty()
    } else {
        last_wins(ps.drop_last()).insert(ps.last().0, ps.last().1)
    }
}

/// The bytes of the pairs by address, the first pair for an address winning.
pub open spec fn first_wins(ps: Seq<(u64, u8)>) -> Map<u64, u8>
    decreases ps.len(),
{
    if ps.len() == 0 {
        Map::empty()
    } else if first_wins(ps.drop_last()).contains_key(ps.last().0) {
        first_wins(ps.drop_last())
    } else {
        first_wins(ps.drop_last()).insert(ps.last().0, ps.last().1)
    }
}

/// No two pairs share an address, and none is already in `m`.
pub open spec fn fresh_and_distinct(m: Map<u64, u8>, ps: Seq<(u64, u8)>) -> bool {
    &&& forall|i: int| 0 <= i < ps.len() ==> !m.contains_key(#[trigger] ps[i].0)
    &&& forall|i: int, j: int| 0 <= i < j < ps.len() ==> #[trigger] ps[i].0 != #[trigger] ps[j].0
}

proof fn lemma_last_wins_dom(ps: Seq<(u64, u8)>, a: u64)
    ensures
        last_wins(ps).contains_key(a) <==> exists|i: int| 0 <= i < ps.len() && ps[i].0 == a,
    decreases ps.len(),
{
    if ps.len() > 0 {
        lemma_last_wins_dom(ps.drop_last(), a);
        if exists|i: int| 0 <= i < ps.len() && ps[i].0 == a {
            let i = choose|i: int| 0 <= i < ps.len() && ps[i].0 == a;
            if i < ps.len() - 1 {
                assert(ps.drop_last()[i].0 == a);
            }
        }
    }
}

/// With `Replace`, merging always succeeds and later bytes overwrite earlier ones:
/// each address of the pairs ends up with the byte of its last pair, and every other
/// address keeps its byte.
pub proof fn law_replace_later_wins(m: Map<u64, u8>, ps: Seq<(u64, u8)>)
    ensures
        merge_outcome(m, ps, OverlapPolicy::Replace) == Ok::<Map<u64, u8>, (u64, Map<u64, u8>)>(
            m.union_prefer_right(last_wins(ps)),
        ),
    decreases ps.len(),
{
    if ps.len() == 0 {
        assert(m.union_prefer_right(Map::empty()) =~= m);
    } else {
        law_replace_later_wins(m, ps.drop_last());
        let m1 = m.union_prefer_right(last_wins(ps.drop_last()));
        assert(m1.insert(ps.last().0, ps.last().1) =~= m.union_prefer_right(last_wins(ps)));
    }
}

/// With `Ignore`, merging always succeeds and existing bytes are kept: an address
/// already present keeps its byte, and a new address gets the byte of its first pair.
pub proof fn law_ignore_earlier_wins(m: Map<u64, u8>, ps: Seq<(u64, u8)>)
    ensures
        merge_outcome(m, ps, OverlapPolicy::Ignore) == Ok::<Map<u64, u8>, (u64, Map<u64, u8>)>(
            first_wins(ps).union_prefer_right(m),
        ),
    decreases ps.len(),
{
    if ps.len() == 0 {
        assert(Map::<u64, u8>::empty().union_prefer_right(m) =~= m);
    } else {
        law_ignore_earlier_wins(m, ps.drop_last());
        let m1 = first_wins(ps.drop_last()).union_prefer_right(m);
        let (a, b) = ps.last();
        if m1.contains_key(a) {
            assert(first_wins(ps).union_prefer_right(m) =~= m1);
        } else {
            assert(m1.insert(a, b) =~= first_wins(ps).union_prefer_right(m));
        }
    }
}

/// With `Error` (the default), merging succeeds exactly when no address repeats and
/// none is already present; then every pair is added.
pub proof fn law_error_refuses_overlap(m: Map<u64, u8>, ps: Seq<(u64, u8)>)
    ensures
        (merge_outcome(m, ps, OverlapPolicy::Error) is Ok) == fresh_and_distinct(m, ps),
        fresh_and_distinct(m, ps) ==> merge_outcome(m, ps, OverlapPolicy::Error) == Ok::<
            Map<u64, u8>,
            (u64, Map<u64, u8>),
        >(m.union_prefer_right(last_wins(ps))),
    decreases ps.len(),
{
    if ps.len() == 0 {
        assert(m.union_prefer_right(Map::empty()) =~= m);
    } else {
        let d = ps.drop_last();
        let (a, b) = ps.last();
        law_error_refuses_overlap(m, d);
        lemma_last_wins_dom(d, a);
        if fresh_and_distinct(m, d) {
            let m1 = m.union_prefer_right(last_wins(d));
            if m1.contains_key(a) {
                if !m.contains_key(a) {
                    let i = choose|i: int| 0 <= i < d.len() && d[i].0 == a;
                    assert(ps[i].0 == ps[ps.len() - 1].0);
                }
                assert(!fresh_and_distinct(m, ps));
            } else {
                assert forall|i: int, j: int| 0 <= i < j < ps.len() implies #[trigger] ps[i].0 != #[trigger] ps[j].0 by {
                    if j < ps.len() - 1 {
                        assert(d[i] == ps[i] && d[j] == ps[j]);
                    } else if ps[i].0 == a {
                        assert(d[i].0 == a);
                    }
                }
                assert forall|i: int| 0 <= i < ps.len() implies !m.contains_key(#[trigger] ps[i].0) by {
                    if i < ps.len() - 1 {
                        assert(d[i] == ps[i]);
                    }
                }
                assert(m1.insert(a, b) =~= m.union_prefer_right(last_wins(ps)));
            }
        } else {
            assert(!fresh_and_distinct(m, ps)) by {
                if fresh_and_distinct(m, ps) {
                    assert forall|i: int, j: int| 0 <= i < j < d.len() implies #[trigger] d[i].0 != #[trigger] d[j].0 by {
                        assert(d[i] == ps[i] && d[j] == ps[j]);
                    }
                    assert forall|i: int| 0 <= i < d.len() implies !m.contains_key(#[trigger] d[i].0) by {
                        assert(d[i] == ps[i]);
                    }
                }
            }
        }
    }
}

/// The pairs of a listing, read back into a map (last or first pair winning alike),
/// give the map again.
pub proof fn lemma_listing_maps_back(s: Seq<(u64, u8)>, m: Map<u64, u8>)
    requires
        is_listing(s, m),
    ensures
        last_wins(s) == m,
        first_wins(s) == m,
        fresh_and_distinct(Map::empty(), s),
    decreases s.len(),
{
    if s.len() == 0 {
        assert(m =~= Map::<u64, u8>::empty()) by {
            assert forall|a: u64| !m.contains_key(a) by {
                if m.contains_key(a) {
                    let i = choose|i: int| 0 <= i < s.len() && s[i].0 == a;
                }
            }
        }
    } else {
        let d = s.drop_last();
        let (k, v) = s.last();
        let m1 = m.remove(k);
        assert(is_listing(d, m1)) by {
            assert forall|i: int| 0 <= i < d.len() implies #[trigger] m1.contains_key(d[i].0) && m1[d[i].0] == d[i].1 by {
                assert(d[i] == s[i]);
                assert(s[i].0 < s[s.len() - 1].0);
                assert(m.contains_key(s[i].0));
            }
            assert forall|a: u64| #[trigger] m1.contains_key(a) implies exists|i: int| 0 <= i < d.len() && d[i].0 == a by {
                assert(m.contains_key(a));
                let i = choose|i: int| 0 <= i < s.len() && s[i].0 == a;
                assert(i != s.len() - 1);
                assert(d[i] == s[i]);
            }
        }
        lemma_listing_maps_back(d, m1);
        assert(m.contains_key(k));
        assert(m1.insert(k, v) =~= m);
        assert(!first_wins(d).contains_key(k));
        assert forall|i: int, j: int| 0 <= i < j < s.len() implies #[trigger] s[i].0 != #[trigger] s[j].0 by {}
        assert forall|i: int| 0 <= i < s.len() implies !Map::<u64, u8>::empty().contains_key(#[trigger] s[i].0) by {}
    }
}


/// The overlap policy names, in any case: `error`, `replace` and `ignore` name
/// their policies, and no other name is a policy.
pub proof fn law_policy_names(s: Seq<char>)
    ensures
        lowercase_of(s) == "error"@ ==> policy_of_name(lowercase_of(s)) == Some(OverlapPolicy::Error),
        lowercase_of(s) == "replace"@ ==> policy_of_name(lowercase_of(s)) == Some(OverlapPolicy::Replace),
        lowercase_of(s) == "ignore"@ ==> policy_of_name(lowercase_of(s)) == Some(OverlapPolicy::Ignore),
        !(lowercase_of(s) == "error"@ || lowercase_of(s) == "replace"@ || lowercase_of(s) == "ignore"@)
            ==> policy_of_name(lowercase_of(s)) is None,
{
    reveal_strlit("error");
    reveal_strlit("replace");
    reveal_strlit("ignore");
    assert("error"@.len() == 5 && "error"@[0] == 'e');
    assert("replace"@.len() == 7 && "replace"@[0] == 'r');
    assert("ignore"@.len() == 6 && "ignore"@[0] == 'i');
}


proof fn lemma_chunk_entry_listed(cs: Seq<(u64, Seq<u8>)>, k: int, i: int)
    requires
        0 <= k < cs.len(),
        0 <= i < cs[k].1.len(),
    ensures
        expand_chunks(cs).contains(((cs[k].0 + i) as u64, cs[k].1[i])),
    decreases cs.len(),
{
    let front = cs.drop_last();
    let tail = expand_chunk(cs.last().0, cs.last().1);
    assert(expand_chunks(cs) == expand_chunks(front) + tail);
    if k == cs.len() - 1 {
        assert(tail[i] == ((cs[k].0 + i) as u64, cs[k].1[i]));
        assert(expand_chunks(cs)[expand_chunks(front).len() + i] == tail[i]);
    } else {
        assert(front[k] == cs[k]);
        lemma_chunk_entry_listed(front, k, i);
        let j = choose|j: int| 0 <= j < expand_chunks(front).len() && expand_chunks(front)[j] == ((cs[k].0 + i) as u64, cs[k].1[i]);
        assert(expand_chunks(cs)[j] == expand_chunks(front)[j]);
    }
}

proof fn lemma_listed_entry_in_chunk(cs: Seq<(u64, Seq<u8>)>, j: int)
    requires
        0 <= j < expand_chunks(cs).len(),
    ensures
        exists|k: int, i: int| #![trigger cs[k].1[i]] 0 <= k < cs.len() && 0 <= i < cs[k].1.len() && expand_chunks(cs)[j].0 == ((
            cs[k]).0 + i) as u64 && expand_chunks(cs)[j].1 == cs[k].1[i],
    decreases cs.len(),
{
    let front = cs.drop_last();
    let tail = expand_chunk(cs.last().0, cs.last().1);
    assert(expand_chunks(cs) == expand_chunks(front) + tail);
    let n = expand_chunks(front).len();
    if j < n {
        lemma_listed_entry_in_chunk(front, j);
        let (k, i) = choose|k: int, i: int| #![trigger front[k].1[i]] 0 <= k < front.len() && 0 <= i < front[k].1.len() && expand_chunks(front)[j].0 == ((
            front[k]).0 + i) as u64 && expand_chunks(front)[j].1 == front[k].1[i];
        assert(front[k] == cs[k]);
        assert(expand_chunks(cs)[j] == expand_chunks(front)[j]);
    } else {
        let k = cs.len() - 1;
        let i = j - n;
        assert(expand_chunks(cs)[j] == tail[i]);
        assert(cs[k] == cs.last());
    }
}

/// The chunks of a memory image hold exactly its bytes: byte `i` of a chunk that
/// starts at `a` is the image's byte at `a + i`, and every byte of the image lies
/// in some chunk at its address.
pub proof fn law_chunks_hold_the_image(cs: Seq<(u64, Seq<u8>)>, m: Map<u64, u8>)
    requires
        m.dom().finite(),
        expand_chunks(cs) == listing(m),
    ensures
        forall|k: int, i: int| #![trigger cs[k].1[i]] 0 <= k < cs.len() && 0 <= i < cs[k].1.len() ==> m.get(
            (cs[k].0 + i) as u64,
        ) == Some(cs[k].1[i]),
        forall|a: u64| #[trigger] m.contains_key(a) ==> exists|k: int, i: int| #![trigger cs[k].1[i]] 0 <= k < cs.len() && 0 <= i < cs[k].1.len()
            && (cs[k].0 + i) as u64 == a && cs[k].1[i] == m[a],
{
    lemma_listing_exists(m);
    let s = listing(m);
    assert forall|k: int, i: int| #![trigger cs[k].1[i]] 0 <= k < cs.len() && 0 <= i < cs[k].1.len() implies m.get(
        (cs[k].0 + i) as u64,
    ) == Some(cs[k].1[i]) by {
        let x = ((cs[k].0 + i) as u64, cs[k].1[i]);
        lemma_chunk_entry_listed(cs, k, i);
        assert(s.contains(x));
        let j = choose|j: int| 0 <= j < s.len() && s[j] == x;
        assert(m.contains_key(s[j].0) && m[s[j].0] == s[j].1);
        assert(s[j].0 == x.0 && s[j].1 == x.1);
        assert(m.contains_key(x.0));
    }
    assert forall|a: u64| #[trigger] m.contains_key(a) implies exists|k: int, i: int| #![trigger cs[k].1[i]] 0 <= k < cs.len() && 0 <= i < cs[k].1.len()
        && (cs[k].0 + i) as u64 == a && cs[k].1[i] == m[a] by {
        let j = choose|j: int| 0 <= j < s.len() && s[j].0 == a;
        assert(m.contains_key(s[j].0) && m[s[j].0] == s[j].1);
        lemma_listed_entry_in_chunk(cs, j);
    }
}


/// The listing of a memory image gives its addresses in strictly increasing
/// order, each with its byte, and leaves no address out.
pub proof fn law_listing_is_sorted_image(m: Map<u64, u8>)
    requires
        m.dom().finite(),
    ensures
        forall|i: int, j: int| 0 <= i < j < listing(m).len() ==> listing(m)[i].0 < listing(m)[j].0,
        forall|i: int| 0 <= i < listing(m).len() ==> m.get(#[trigger] listing(m)[i].0) == Some(listing(m)[i].1),
        forall|a: u64| #[trigger] m.contains_key(a) ==> exists|i: int| 0 <= i < listing(m).len() && listing(m)[i].0 == a,
{
    lemma_listing_exists(m);
    let s = listing(m);
    assert forall|i: int| 0 <= i < s.len() implies m.get(#[trigger] s[i].0) == Some(s[i].1) by {
        assert(m.contains_key(s[i].0));
    }
}

} // verus!
