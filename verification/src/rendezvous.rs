//! The rendezvous table: pending visitor connections keyed by connection
//! identifier. The server inserts an entry when a visitor arrives; exactly
//! one remover — the client's `Accept` or the stale evictor — takes it out
//! and with it the right to the visitor's socket.
//!
//! Sockets live outside this crate; an entry holds a plain handle that the
//! surrounding program maps to the visitor socket it owns.

use vstd::prelude::*;

use crate::id::ConnectionId;

verus! {

struct Entry {
    id: ConnectionId,
    handle: u64,
}

/// The pending entries as a map from identifier bytes to socket handles.
spec fn entries_map(s: Seq<Entry>) -> Map<Seq<u8>, u64>
    decreases s.len(),
{
    if s.len() == 0 {
        Map::empty()
    } else {
        entries_map(s.drop_last()).insert(s.last().id@, s.last().handle)
    }
}

spec fn distinct_ids(s: Seq<Entry>) -> bool {
    forall|i: int, j: int| 0 <= i < j < s.len() ==> s[i].id@ != s[j].id@
}

proof fn lemma_entries_map_dom(s: Seq<Entry>, k: Seq<u8>)
    ensures
        entries_map(s).contains_key(k) <==> exists|i: int| 0 <= i < s.len() && s[i].id@ == k,
    decreases s.len(),
{
    if s.len() > 0 {
        lemma_entries_map_dom(s.drop_last(), k);
        if entries_map(s).contains_key(k) {
            if s.last().id@ == k {
                assert(s[s.len() - 1].id@ == k);
            } else {
                let i = choose|i: int| 0 <= i < s.drop_last().len() && s.drop_last()[i].id@ == k;
                assert(s[i].id@ == k);
            }
        }
        if exists|i: int| 0 <= i < s.len() && s[i].id@ == k {
            let i = choose|i: int| 0 <= i < s.len() && s[i].id@ == k;
            if i < s.len() - 1 {
                assert(s.drop_last()[i].id@ == k);
            }
        }
    }
}

proof fn lemma_entries_map_get(s: Seq<Entry>, i: int)
    requires
        distinct_ids(s),
        0 <= i < s.len(),
    ensures
        entries_map(s).contains_key(s[i].id@),
        entries_map(s)[s[i].id@] == s[i].handle,
    decreases s.len(),
{
    if i == s.len() - 1 {
        assert(entries_map(s) == entries_map(s.drop_last()).insert(s.last().id@, s.last().handle));
    } else {
        assert(distinct_ids(s.drop_last()));
        assert(s.drop_last()[i] == s[i]);
        lemma_entries_map_get(s.drop_last(), i);
        assert(s[i].id@ != s.last().id@);
    }
}

proof fn lemma_entries_map_remove(s: Seq<Entry>, i: int)
    requires
        distinct_ids(s),
        0 <= i < s.len(),
    ensures
        entries_map(s.remove(i)) == entries_map(s).remove(s[i].id@),
        distinct_ids(s.remove(i)),
    decreases s.len(),
{
    let k = s[i].id@;
    assert(distinct_ids(s.remove(i))) by {
        assert forall|a: int, b: int| 0 <= a < b < s.remove(i).len() implies s.remove(i)[a].id@
            != s.remove(i)[b].id@ by {
            let a0 = if a < i {
                a
            } else {
                a + 1
            };
            let b0 = if b < i {
                b
            } else {
                b + 1
            };
            assert(s.remove(i)[a] == s[a0]);
            assert(s.remove(i)[b] == s[b0]);
        }
    }
    if i == s.len() - 1 {
        assert(s.remove(i) =~= s.drop_last());
        lemma_entries_map_dom(s.drop_last(), k);
        assert(!entries_map(s.drop_last()).contains_key(k)) by {
            if exists|j: int| 0 <= j < s.drop_last().len() && s.drop_last()[j].id@ == k {
                let j = choose|j: int| 0 <= j < s.drop_last().len() && s.drop_last()[j].id@ == k;
                assert(s[j].id@ == s[i].id@);
            }
        }
        assert(entries_map(s).remove(k) =~= entries_map(s.drop_last()));
    } else {
        let l = s.last();
        assert(s.remove(i).last() == l);
        assert(s.remove(i).drop_last() =~= s.drop_last().remove(i));
        assert(distinct_ids(s.drop_last()));
        assert(s.drop_last()[i] == s[i]);
        lemma_entries_map_remove(s.drop_last(), i);
        assert(entries_map(s.remove(i)) == entries_map(s.drop_last().remove(i)).insert(
            l.id@,
            l.handle,
        ));
        assert(l.id@ != k);
        assert(entries_map(s.drop_last()).remove(k).insert(l.id@, l.handle) =~= entries_map(
            s.drop_last(),
        ).insert(l.id@, l.handle).remove(k));
    }
}

/// The rendezvous table. Its view is the map from pending identifiers to
/// their socket handles.
pub struct RendezvousTable {
    entries: Vec<Entry>,
}

impl View for RendezvousTable {
    type V = Map<Seq<u8>, u64>;

    closed spec fn view(&self) -> Map<Seq<u8>, u64> {
        entries_map(self.entries@)
    }
}

impl RendezvousTable {
    /// No identifier is pending twice.
    pub closed spec fn wf(&self) -> bool {
        distinct_ids(self.entries@)
    }

    /// An empty table.
    pub fn new() -> (r: RendezvousTable)
        ensures
            r@ == Map::<Seq<u8>, u64>::empty(),
            r.wf(),
    {
        let r = RendezvousTable { entries: Vec::new() };
        proof {
            assert(r.entries@.len() == 0);
        }
        r
    }

    /// Finds the position of an identifier, if it is pending.
    fn find(&self, id: &ConnectionId) -> (r: Option<usize>)
        ensures
            match r {
                Some(i) => i < self.entries@.len() && self.entries@[i as int].id@ == id@,
                None => forall|i: int|
                    0 <= i < self.entries@.len() ==> #[trigger] self.entries@[i].id@ != id@,
            },
    {
        let mut i: usize = 0;
        while i < self.entries.len()
            invariant
                i <= self.entries@.len(),
                forall|j: int| 0 <= j < i ==> #[trigger] self.entries@[j].id@ != id@,
            decreases self.entries@.len() - i,
        {
            if self.entries[i].id.same_as(id) {
                return Some(i);
            }
            i = i + 1;
        }
        None
    }

    /// Whether an identifier is pending.
    pub fn contains(&self, id: &ConnectionId) -> (r: bool)
        ensures
            r == self@.contains_key(id@),
    {
        let found = self.find(id);
        proof {
            lemma_entries_map_dom(self.entries@, id@);
        }
        match found {
            Some(_) => true,
            None => false,
        }
    }

    /// Makes `id` pend with the given socket handle, replacing any previous
    /// entry under the same identifier.
    pub fn insert(&mut self, id: &ConnectionId, handle: u64)
        requires
            old(self).wf(),
        ensures
            final(self).wf(),
            final(self)@ == old(self)@.insert(id@, handle),
    {
        let _ = self.remove(id);
        let ghost mid = self@;
        proof {
            lemma_entries_map_dom(self.entries@, id@);
            assert(!mid.contains_key(id@));
        }
        let ghost pre = self.entries@;
        self.entries.push(Entry { id: id.duplicate(), handle });
        proof {
            assert(self.entries@.drop_last() =~= pre);
            assert(self@ == mid.insert(id@, handle));
            assert(self@ =~= old(self)@.insert(id@, handle));
            assert forall|a: int, b: int|
                0 <= a < b < self.entries@.len() implies self.entries@[a].id@
                != self.entries@[b].id@ by {
                if b == self.entries@.len() - 1 {
                    assert(pre[a].id@ != id@);
                } else {
                    assert(pre[a] == self.entries@[a] && pre[b] == self.entries@[b]);
                }
            }
        }
    }

    /// Takes the entry for `id` out of the table. Exactly the remover that
    /// gets back `Some` owns the visitor behind the handle; afterwards the
    /// identifier no longer pends, so no second remover can get it again.
    pub fn remove(&mut self, id: &ConnectionId) -> (r: Option<u64>)
        requires
            old(self).wf(),
        ensures
            final(self).wf(),
            old(self)@.contains_key(id@) ==> r == Some(old(self)@[id@]) && final(self)@ == old(
                self,
            )@.remove(id@),
            !old(self)@.contains_key(id@) ==> r is None && final(self)@ == old(self)@,
            !final(self)@.contains_key(id@),
    {
        let found = self.find(id);
        proof {
            lemma_entries_map_dom(self.entries@, id@);
        }
        match found {
            Some(i) => {
                proof {
                    lemma_entries_map_get(self.entries@, i as int);
                    lemma_entries_map_remove(self.entries@, i as int);
                }
                let e = self.entries.remove(i);
                proof {
                    assert(!self@.contains_key(id@));
                }
                Some(e.handle)
            },
            None => {
                proof {
                    assert(!self@.contains_key(id@));
                }
                None
            },
        }
    }
}

/// The life of a rendezvous entry: filing a visitor under `id` makes it
/// pending with its handle, and the first removal — by the matching
/// `Accept` or by the stale evictor, whichever comes first — takes it out
/// for good. By the contract of `remove`, the second remover then receives
/// nothing: the visitor socket is handed over exactly once.
pub proof fn lemma_exactly_one_consumer(before: Map<Seq<u8>, u64>, id: Seq<u8>, handle: u64)
    ensures
        before.insert(id, handle).contains_key(id),
        before.insert(id, handle)[id] == handle,
        !before.insert(id, handle).remove(id).contains_key(id),
        !before.remove(id).contains_key(id),
{
}

} // verus!
