//! A table from handles to nodes, kept in the order of insertion.

use vstd::prelude::*;
use crate::handle::{Handle, HandleView};

verus! {

/// An electrical node: an index into the circuit's node arrays.
pub type NodeId = usize;

/// The map that a sequence of entries defines; a later entry wins.
pub open spec fn entries_map(s: Seq<(HandleView, NodeId)>) -> Map<HandleView, NodeId>
    decreases s.len(),
{
    if s.len() == 0 {
        Map::empty()
    } else {
        entries_map(s.drop_last()).insert(s.last().0, s.last().1)
    }
}

/// No handle stands twice in `s`.
pub open spec fn unique_keys(s: Seq<(HandleView, NodeId)>) -> bool {
    forall|i: int, j: int| 0 <= i < j < s.len() ==> #[trigger] s[i].0 != #[trigger] s[j].0
}

/// With unique handles, the map holds exactly the entries.
pub proof fn lemma_entries_map(s: Seq<(HandleView, NodeId)>)
    requires
        unique_keys(s),
    ensures
        forall|i: int|
            0 <= i < s.len() ==> #[trigger] entries_map(s).contains_key(s[i].0) && entries_map(
                s,
            )[s[i].0] == s[i].1,
        forall|k: HandleView|
            #[trigger] entries_map(s).contains_key(k) ==> exists|i: int|
                0 <= i < s.len() && #[trigger] s[i].0 == k,
    decreases s.len(),
{
    if s.len() > 0 {
        let t = s.drop_last();
        assert(unique_keys(t));
        lemma_entries_map(t);
        assert(entries_map(s) == entries_map(t).insert(s.last().0, s.last().1));
        assert forall|k: HandleView| #[trigger] entries_map(s).contains_key(k) implies exists|i: int|
            0 <= i < s.len() && #[trigger] s[i].0 == k by {
            if k != s.last().0 {
                let i = choose|i: int| 0 <= i < t.len() && #[trigger] t[i].0 == k;
                assert(s[i].0 == k);
            } else {
                assert(s[s.len() - 1].0 == k);
            }
        }
        assert forall|i: int| 0 <= i < s.len() implies #[trigger] entries_map(s).contains_key(s[i].0)
            && entries_map(s)[s[i].0] == s[i].1 by {
            if i < s.len() - 1 {
                assert(t[i] == s[i]);
                assert(s[i].0 != s[s.len() - 1].0);
            }
        }
    }
}

/// Handles and the nodes they name, each handle once.
pub struct LabelTable {
    entries: Vec<(Handle, NodeId)>,
}

impl LabelTable {
    /// The entries, in the order of insertion.
    pub closed spec fn entries(&self) -> Seq<(HandleView, NodeId)> {
        self.entries@.map_values(|e: (Handle, NodeId)| (e.0@, e.1))
    }

    /// Which node each handle names.
    pub open spec fn map(&self) -> Map<HandleView, NodeId> {
        entries_map(self.entries())
    }

    pub open spec fn wf(&self) -> bool {
        unique_keys(self.entries())
    }

    /// Every node named is below `n`.
    pub open spec fn nodes_below(&self, n: nat) -> bool {
        forall|k: HandleView| #[trigger] self.map().contains_key(k) ==> self.map()[k] < n
    }

    /// The map holds exactly the entries.
    pub proof fn lemma_wf(&self)
        requires
            self.wf(),
        ensures
            forall|i: int|
                0 <= i < self.entries().len() ==> #[trigger] self.map().contains_key(
                    self.entries()[i].0,
                ) && self.map()[self.entries()[i].0] == self.entries()[i].1,
            forall|k: HandleView|
                #[trigger] self.map().contains_key(k) ==> exists|i: int|
                    0 <= i < self.entries().len() && #[trigger] self.entries()[i].0 == k,
    {
        lemma_entries_map(self.entries());
    }

    pub fn new() -> (r: LabelTable)
        ensures
            r.wf(),
            r.entries() == Seq::<(HandleView, NodeId)>::empty(),
            r.map() == Map::<HandleView, NodeId>::empty(),
    {
        let r = LabelTable { entries: Vec::new() };
        assert(r.entries() =~= Seq::<(HandleView, NodeId)>::empty());
        r
    }

    pub fn len(&self) -> (r: usize)
        ensures
            r == self.entries().len(),
    {
        self.entries.len()
    }

    pub fn entry(&self, i: usize) -> (r: (&Handle, NodeId))
        requires
            i < self.entries().len(),
        ensures
            (r.0@, r.1) == self.entries()[i as int],
    {
        (&self.entries[i].0, self.entries[i].1)
    }

    pub fn get(&self, h: &Handle) -> (r: Option<NodeId>)
        requires
            self.wf(),
        ensures
            r == (if self.map().contains_key(h@) {
                Some(self.map()[h@])
            } else {
                None
            }),
    {
        proof {
            self.lemma_wf();
        }
        let mut i: usize = 0;
        while i < self.entries.len()
            invariant
                self.wf(),
                0 <= i <= self.entries().len(),
                forall|j: int| 0 <= j < i ==> self.entries()[j].0 != h@,
            decreases self.entries().len() - i,
        {
            assert(self.entries()[i as int] == (self.entries@[i as int].0@, self.entries@[i as int].1));
            if self.entries[i].0 == *h {
                proof {
                    self.lemma_wf();
                }
                assert(self.entries@[i as int].0@ == h@);
                assert(self.entries()[i as int].0 == h@);
                return Some(self.entries[i].1);
            }
            i = i + 1;
        }
        None
    }

    pub fn insert(&mut self, h: Handle, n: NodeId)
        requires
            old(self).wf(),
            !old(self).map().contains_key(h@),
        ensures
            final(self).wf(),
            final(self).entries() == old(self).entries().push((h@, n)),
            final(self).map() == old(self).map().insert(h@, n),
    {
        proof {
            self.lemma_wf();
        }
        let ghost hv = h@;
        self.entries.push((h, n));
        assert(self.entries() =~= old(self).entries().push((hv, n)));
        assert(self.entries().drop_last() =~= old(self).entries());
    }
}

} // verus!
