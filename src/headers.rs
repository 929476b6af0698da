//! Header fields of a request, kept in the order received.
use vstd::prelude::*;
use crate::bytes::{bytes_match_at, matches_at};

verus! {

/// A header name and its value, as bytes.
pub type HeaderPair = (Seq<u8>, Seq<u8>);

/// The mapping that a list of header fields gives: a later field replaces an earlier one of the
/// same name.
pub open spec fn pairs_map(p: Seq<HeaderPair>) -> Map<Seq<u8>, Seq<u8>>
    decreases p.len(),
{
    if p.len() == 0 {
        Map::empty()
    } else {
        pairs_map(p.drop_last()).insert(p.last().0, p.last().1)
    }
}

/// The value that the last field named `k` in `p` carries.
pub proof fn lemma_pairs_map_last(p: Seq<HeaderPair>, k: Seq<u8>, j: int)
    requires
        0 <= j < p.len(),
        p[j].0 == k,
        forall|m: int| j < m < p.len() ==> (#[trigger] p[m]).0 != k,
    ensures
        pairs_map(p).contains_key(k),
        pairs_map(p)[k] == p[j].1,
    decreases p.len(),
{
    if j < p.len() - 1 {
        let q = p.drop_last();
        assert forall|m: int| j < m < q.len() implies (#[trigger] q[m]).0 != k by {
            assert(q[m] == p[m]);
        }
        lemma_pairs_map_last(q, k, j);
    }
}

/// A name that no field carries is absent from the mapping.
pub proof fn lemma_pairs_map_absent(p: Seq<HeaderPair>, k: Seq<u8>)
    requires
        forall|m: int| 0 <= m < p.len() ==> (#[trigger] p[m]).0 != k,
    ensures
        !pairs_map(p).contains_key(k),
    decreases p.len(),
{
    if p.len() > 0 {
        let q = p.drop_last();
        assert forall|m: int| 0 <= m < q.len() implies (#[trigger] q[m]).0 != k by {
            assert(q[m] == p[m]);
        }
        lemma_pairs_map_absent(q, k);
    }
}

/// Header fields in the order they arrived; looking a name up gives its last value.
#[derive(Debug)]
pub struct HeaderMap {
    entries: Vec<(Vec<u8>, Vec<u8>)>,
}

impl View for HeaderMap {
    type V = Map<Seq<u8>, Seq<u8>>;

    open spec fn view(&self) -> Map<Seq<u8>, Seq<u8>> {
        pairs_map(self.pairs())
    }
}

impl HeaderMap {
    /// The fields as received, duplicates included.
    pub closed spec fn pairs(&self) -> Seq<HeaderPair> {
        self.entries@.map_values(|e: (Vec<u8>, Vec<u8>)| (e.0@, e.1@))
    }

    pub fn new() -> (r: HeaderMap)
        ensures
            r.pairs() == Seq::<HeaderPair>::empty(),
            r@ == Map::<Seq<u8>, Seq<u8>>::empty(),
    {
        let r = HeaderMap { entries: Vec::new() };
        assert(r.pairs() =~= Seq::<HeaderPair>::empty());
        r
    }

    /// Records one more field; it replaces any earlier value of the same name.
    pub fn insert(&mut self, name: Vec<u8>, value: Vec<u8>)
        ensures
            final(self).pairs() == old(self).pairs().push((name@, value@)),
            final(self)@ == old(self)@.insert(name@, value@),
    {
        let ghost n = name@;
        let ghost v = value@;
        self.entries.push((name, value));
        assert(self.pairs() =~= old(self).pairs().push((n, v)));
        assert(self.pairs().drop_last() =~= old(self).pairs());
    }

    /// The value of the last field named `name`.
    pub fn get(&self, name: &[u8]) -> (r: Option<&Vec<u8>>)
        ensures
            match r {
                Some(v) => self@.contains_key(name@) && self@[name@] == v@,
                None => !self@.contains_key(name@),
            },
    {
        let ghost p = self.pairs();
        let mut i: usize = self.entries.len();
        while i > 0
            invariant
                i <= self.entries.len(),
                p == self.pairs(),
                p.len() == self.entries.len(),
                forall|m: int| i <= m < p.len() ==> (#[trigger] p[m]).0 != name@,
            decreases i,
        {
            i = i - 1;
            let e = &self.entries[i];
            assert(p[i as int] == (e.0@, e.1@));
            if e.0.len() == name.len() && bytes_match_at(e.0.as_slice(), name, 0) {
                assert(e.0@ =~= name@) by {
                    assert(e.0@.subrange(0, name@.len() as int) =~= e.0@);
                }
                proof {
                    lemma_pairs_map_last(p, name@, i as int);
                }
                return Some(&e.1);
            }
            proof {
                if e.0@ == name@ {
                    assert(e.0@.subrange(0, name@.len() as int) =~= e.0@);
                    assert(matches_at(e.0@, name@, 0));
                }
            }
        }
        proof {
            lemma_pairs_map_absent(p, name@);
        }
        None
    }
}

} // verus!
