//! The in-memory index: a map from each key to the log location of its most
//! recent live put record.  Rebuilding it by replaying the log is the heart
//! of crash recovery, so its model is kept explicit: a sequence of entries
//! with pairwise distinct keys, viewed as a map.

use vstd::prelude::*;

use crate::log::LogPointer;

verus! {

/// One key and the location of its latest live record.
pub struct IndexEntry {
    pub key: Vec<u8>,
    pub ptr: LogPointer,
}

/// The entries carry pairwise distinct keys.
pub open spec fn keys_distinct(s: Seq<IndexEntry>) -> bool {
    forall|i: int, j: int| 0 <= i < j < s.len() ==> s[i].key@ != s[j].key@
}

/// The map an entry sequence denotes; later entries win, though the store
/// never keeps two entries for one key.
pub open spec fn map_of(s: Seq<IndexEntry>) -> Map<Seq<u8>, LogPointer>
    decreases s.len(),
{
    if s.len() == 0 {
        Map::empty()
    } else {
        map_of(s.drop_last()).insert(s.last().key@, s.last().ptr)
    }
}

/// The number of live log bytes the entries point at.
pub open spec fn live_len(s: Seq<IndexEntry>) -> int
    decreases s.len(),
{
    if s.len() == 0 {
        0
    } else {
        live_len(s.drop_last()) + s.last().ptr.len
    }
}

pub proof fn lemma_map_of_contains(s: Seq<IndexEntry>)
    ensures
        forall|k: Seq<u8>|
            #[trigger] map_of(s).contains_key(k) <==> exists|i: int|
                0 <= i < s.len() && #[trigger] s[i].key@ == k,
    decreases s.len(),
{
    if s.len() == 0 {
    } else {
        lemma_map_of_contains(s.drop_last());
        assert forall|k: Seq<u8>| #[trigger] map_of(s).contains_key(k) implies exists|i: int|
            0 <= i < s.len() && #[trigger] s[i].key@ == k by {
            if k == s.last().key@ {
                assert(s[s.len() - 1].key@ == k);
            } else {
                assert(map_of(s.drop_last()).contains_key(k));
                let i = choose|i: int| 0 <= i < s.drop_last().len() && #[trigger] s.drop_last()[i].key@ == k;
                assert(s.drop_last()[i] == s[i]);
                assert(s[i].key@ == k);
            }
        }
        assert forall|k: Seq<u8>|
            exists|i: int| 0 <= i < s.len() && #[trigger] s[i].key@ == k implies #[trigger] map_of(
            s,
        ).contains_key(k) by {
            let i = choose|i: int| 0 <= i < s.len() && #[trigger] s[i].key@ == k;
            if i == s.len() - 1 {
            } else {
                assert(s.drop_last()[i] == s[i]);
                assert(s.drop_last()[i].key@ == k);
                assert(map_of(s.drop_last()).contains_key(k));
            }
        }
    }
}

pub proof fn lemma_map_of_at(s: Seq<IndexEntry>, i: int)
    requires
        keys_distinct(s),
        0 <= i < s.len(),
    ensures
        map_of(s).contains_key(s[i].key@),
        map_of(s)[s[i].key@] == s[i].ptr,
    decreases s.len(),
{
    if i == s.len() - 1 {
    } else {
        assert(s.drop_last()[i] == s[i]);
        lemma_map_of_at(s.drop_last(), i);
        assert(s[i].key@ != s.last().key@);
    }
}

pub proof fn lemma_map_of_push(s: Seq<IndexEntry>, e: IndexEntry)
    ensures
        map_of(s.push(e)) == map_of(s).insert(e.key@, e.ptr),
        live_len(s.push(e)) == live_len(s) + e.ptr.len,
{
    assert(s.push(e).drop_last() =~= s);
    assert(s.push(e).last() == e);
}

pub proof fn lemma_map_of_remove(s: Seq<IndexEntry>, i: int)
    requires
        keys_distinct(s),
        0 <= i < s.len(),
    ensures
        map_of(s.remove(i)) == map_of(s).remove(s[i].key@),
        live_len(s.remove(i)) == live_len(s) - s[i].ptr.len,
    decreases s.len(),
{
    lemma_map_of_contains(s.drop_last());
    if i == s.len() - 1 {
        assert(s.remove(i) =~= s.drop_last());
        assert(!map_of(s.drop_last()).contains_key(s[i].key@));
        assert(map_of(s.drop_last()).insert(s.last().key@, s.last().ptr).remove(s[i].key@)
            =~= map_of(s.drop_last()));
    } else {
        assert(s.remove(i).drop_last() =~= s.drop_last().remove(i));
        assert(s.remove(i).last() == s.last());
        assert(s.drop_last()[i] == s[i]);
        lemma_map_of_remove(s.drop_last(), i);
        assert(s[i].key@ != s.last().key@);
        assert(map_of(s.drop_last()).remove(s[i].key@).insert(s.last().key@, s.last().ptr)
            =~= map_of(s.drop_last()).insert(s.last().key@, s.last().ptr).remove(s[i].key@));
    }
}

pub proof fn lemma_live_len_nonneg(s: Seq<IndexEntry>)
    ensures
        live_len(s) >= 0,
    decreases s.len(),
{
    if s.len() > 0 {
        lemma_live_len_nonneg(s.drop_last());
    }
}

/// The index itself.  No I/O: a plain sequence of entries behind map
/// semantics.
pub struct Index {
    entries: Vec<IndexEntry>,
}

impl View for Index {
    type V = Seq<IndexEntry>;

    closed spec fn view(&self) -> Seq<IndexEntry> {
        self.entries@
    }
}

impl Index {
    /// Distinct keys: the well-formedness every operation preserves.
    pub open spec fn wf(self) -> bool {
        keys_distinct(self@)
    }

    /// The map this index denotes.
    pub open spec fn m(self) -> Map<Seq<u8>, LogPointer> {
        map_of(self@)
    }

    /// The live log bytes its pointers cover.
    pub open spec fn live(self) -> int {
        live_len(self@)
    }

    pub fn new() -> (r: Index)
        ensures
            r.wf(),
            r@ == Seq::<IndexEntry>::empty(),
            r.m() == Map::<Seq<u8>, LogPointer>::empty(),
            r.live() == 0,
    {
        let r = Index { entries: Vec::new() };
        assert(r@ =~= Seq::<IndexEntry>::empty());
        r
    }

    pub fn len(&self) -> (r: usize)
        ensures
            r == self@.len(),
    {
        self.entries.len()
    }

    pub fn entry_at(&self, i: usize) -> (r: (&Vec<u8>, LogPointer))
        requires
            i < self@.len(),
        ensures
            r.0@ == self@[i as int].key@,
            r.1 == self@[i as int].ptr,
    {
        (&self.entries[i].key, self.entries[i].ptr)
    }

    fn find(&self, key: &Vec<u8>) -> (r: Option<usize>)
        ensures
            match r {
                Some(i) => i < self@.len() && self@[i as int].key@ == key@,
                None => forall|i: int| 0 <= i < self@.len() ==> self@[i].key@ != key@,
            },
    {
        let n = self.entries.len();
        let mut i: usize = 0;
        while i < n
            invariant
                i <= n,
                n == self@.len(),
                forall|j: int| 0 <= j < i ==> self@[j].key@ != key@,
            decreases n - i,
        {
            if crate::codec::bytes_eq(&self.entries[i].key, key) {
                return Some(i);
            }
            i = i + 1;
        }
        None
    }

    /// The live log bytes in total, as a number.
    pub fn live_bytes(&self) -> (r: u128)
        ensures
            r == live_len(self@),
    {
        let n = self.entries.len();
        let mut acc: u128 = 0;
        let mut i: usize = 0;
        proof {
            assert(self@.subrange(0, 0) =~= Seq::<IndexEntry>::empty());
        }
        while i < n
            invariant
                i <= n,
                n == self@.len(),
                acc == live_len(self@.subrange(0, i as int)),
                acc <= i * 0x1_0000_0000_0000_0000,
            decreases n - i,
        {
            let l = self.entries[i].ptr.len;
            proof {
                let pre = self@.subrange(0, i as int);
                let post = self@.subrange(0, i + 1);
                assert(post.drop_last() =~= pre);
                assert(post.last() == self@[i as int]);
                assert(acc + l <= i * 0x1_0000_0000_0000_0000 + 0x1_0000_0000_0000_0000);
                assert(i * 0x1_0000_0000_0000_0000 + 0x1_0000_0000_0000_0000 == (i + 1)
                    * 0x1_0000_0000_0000_0000) by (nonlinear_arith);
                assert((i + 1) * 0x1_0000_0000_0000_0000 <= 0x1_0000_0000_0000_0000
                    * 0x1_0000_0000_0000_0000) by (nonlinear_arith)
                    requires
                        i + 1 <= 0x1_0000_0000_0000_0000,
                ;
            }
            acc = acc + l as u128;
            i = i + 1;
        }
        proof {
            assert(self@.subrange(0, n as int) =~= self@);
        }
        acc
    }

    /// Look a key up.
    pub fn get(&self, key: &Vec<u8>) -> (r: Option<LogPointer>)
        requires
            self.wf(),
        ensures
            match r {
                Some(p) => self.m().contains_key(key@) && self.m()[key@] == p,
                None => !self.m().contains_key(key@),
            },
    {
        proof {
            lemma_map_of_contains(self@);
        }
        match self.find(key) {
            Some(i) => {
                proof {
                    lemma_map_of_at(self@, i as int);
                }
                Some(self.entries[i].ptr)
            },
            None => None,
        }
    }

    /// Bind `key` to `p`, replacing any earlier binding.
    pub fn put(&mut self, key: Vec<u8>, p: LogPointer)
        requires
            old(self).wf(),
        ensures
            final(self).wf(),
            final(self).m() == old(self).m().insert(key@, p),
            old(self).m().contains_key(key@) ==> final(self).live() == old(self).live()
                - old(self).m()[key@].len + p.len,
            !old(self).m().contains_key(key@) ==> {
                &&& final(self).live() == old(self).live() + p.len
                &&& final(self)@ == old(self)@.push(IndexEntry { key, ptr: p })
            },
    {
        proof {
            lemma_map_of_contains(self@);
        }
        match self.find(&key) {
            Some(i) => {
                proof {
                    lemma_map_of_at(self@, i as int);
                    lemma_map_of_remove(self@, i as int);
                }
                let ghost removed = self@.remove(i as int);
                self.entries.remove(i);
                proof {
                    lemma_map_of_contains(removed);
                    lemma_map_of_push(removed, IndexEntry { key: key, ptr: p });
                    assert(map_of(removed).insert(key@, p) =~= map_of(old(self)@).insert(key@, p));
                }
                self.entries.push(IndexEntry { key, ptr: p });
            },
            None => {
                proof {
                    lemma_map_of_push(self@, IndexEntry { key: key, ptr: p });
                }
                self.entries.push(IndexEntry { key, ptr: p });
            },
        }
    }

    /// Drop any binding of `key`, returning the pointer it had.
    pub fn remove(&mut self, key: &Vec<u8>) -> (r: Option<LogPointer>)
        requires
            old(self).wf(),
        ensures
            final(self).wf(),
            match r {
                Some(p) => {
                    &&& old(self).m().contains_key(key@)
                    &&& old(self).m()[key@] == p
                    &&& final(self).m() == old(self).m().remove(key@)
                    &&& final(self).live() == old(self).live() - p.len
                },
                None => {
                    &&& !old(self).m().contains_key(key@)
                    &&& *final(self) == *old(self)
                },
            },
    {
        proof {
            lemma_map_of_contains(self@);
        }
        match self.find(key) {
            Some(i) => {
                proof {
                    lemma_map_of_at(self@, i as int);
                    lemma_map_of_remove(self@, i as int);
                }
                let p = self.entries[i].ptr;
                self.entries.remove(i);
                Some(p)
            },
            None => None,
        }
    }
}

} // verus!
