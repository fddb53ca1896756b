//! The segment manager: the append-only command log, split into segments.
//!
//! Each segment is an ordered concatenation of encoded commands, identified
//! by a generation number that only ever grows; the last segment is the
//! active one, the only one still written to.  Here the segments are byte
//! buffers owned by the store; persisting them to files is the caller's
//! concern, fed by `datas` and `KvStore::snapshot`.

use vstd::prelude::*;

use crate::KvError;
use crate::codec::{CommandModel, parse_all, parse_prefix, parse_record};
use crate::codec::{copy_bytes, lemma_parse_all_append, lemma_parse_prefix_of_clean,
    lemma_parse_record_bounds};

verus! {

/// Locates one encoded record inside the log.
#[derive(Clone, Copy, Debug, PartialEq, Eq, Structural)]
pub struct LogPointer {
    pub segment_id: u64,
    pub offset: usize,
    pub len: usize,
}

/// One unit of the log: a generation number and the record bytes appended so
/// far.
pub struct Segment {
    pub id: u64,
    pub data: Vec<u8>,
}

/// Generation numbers grow strictly along the segment list.
pub open spec fn seg_ids_increasing(ss: Seq<Segment>) -> bool {
    forall|i: int, j: int| 0 <= i < j < ss.len() ==> ss[i].id < ss[j].id
}

/// Every segment is a whole number of well-formed records.
pub open spec fn segs_parseable(ss: Seq<Segment>) -> bool {
    forall|i: int| 0 <= i < ss.len() ==> (#[trigger] parse_all(ss[i].data@)) is Some
}

/// All commands the segments hold, in replay order.
pub open spec fn log_cmds(ss: Seq<Segment>) -> Seq<CommandModel>
    decreases ss.len(),
{
    if ss.len() == 0 {
        Seq::empty()
    } else {
        log_cmds(ss.drop_last()) + parse_prefix(ss.last().data@)
    }
}

/// Total bytes the segments hold.
pub open spec fn total_len(ss: Seq<Segment>) -> int
    decreases ss.len(),
{
    if ss.len() == 0 {
        0
    } else {
        total_len(ss.drop_last()) + ss.last().data@.len()
    }
}

/// `p` locates, in some segment of `ss`, a put record binding `k` to `v`.
pub open spec fn ptr_valid(ss: Seq<Segment>, k: Seq<u8>, p: LogPointer, v: Seq<u8>) -> bool {
    exists|i: int|
        0 <= i < ss.len() && (#[trigger] ss[i]).id == p.segment_id && p.offset + p.len
            <= ss[i].data@.len() && parse_record(
            ss[i].data@.subrange(p.offset as int, p.offset + p.len),
        ) == Some((CommandModel::Put { key: k, value: v }, p.len as int))
}

/// A valid pointer stays valid when the active segment grows or a new
/// segment is pushed behind it.
pub proof fn lemma_ptr_valid_extend(ss: Seq<Segment>, tt: Seq<Segment>, k: Seq<u8>, p: LogPointer, v: Seq<u8>)
    requires
        ptr_valid(ss, k, p, v),
        tt.len() >= ss.len(),
        forall|i: int| 0 <= i < ss.len() - 1 ==> tt[i] == ss[i],
        tt[ss.len() - 1].id == ss.last().id,
        tt[ss.len() - 1].data@.len() >= ss.last().data@.len(),
        forall|j: int|
            0 <= j < ss.last().data@.len() ==> tt[ss.len() - 1].data@[j] == ss.last().data@[j],
    ensures
        ptr_valid(tt, k, p, v),
{
    let i = choose|i: int|
        0 <= i < ss.len() && (#[trigger] ss[i]).id == p.segment_id && p.offset + p.len
            <= ss[i].data@.len() && parse_record(
            ss[i].data@.subrange(p.offset as int, p.offset + p.len),
        ) == Some((CommandModel::Put { key: k, value: v }, p.len as int));
    if i < ss.len() - 1 {
        assert(tt[i] == ss[i]);
    } else {
        assert(tt[i].data@.subrange(p.offset as int, p.offset + p.len) =~= ss[i].data@.subrange(
            p.offset as int,
            p.offset + p.len,
        ));
    }
}

/// The segment manager: the ordered segment list, the last one active.
pub struct SegmentManager {
    segments: Vec<Segment>,
}

impl SegmentManager {
    /// The segment list.
    pub closed spec fn segs(self) -> Seq<Segment> {
        self.segments@
    }

    pub open spec fn wf(self) -> bool {
        &&& self.segs().len() >= 1
        &&& seg_ids_increasing(self.segs())
        &&& segs_parseable(self.segs())
    }

    /// Every command in the log, in replay order.
    pub open spec fn cmds(self) -> Seq<CommandModel> {
        log_cmds(self.segs())
    }

    /// The active (still writable) segment.
    pub open spec fn active(self) -> Segment {
        self.segs().last()
    }

    /// A fresh log: one empty segment, generation zero.
    pub fn new() -> (r: SegmentManager)
        ensures
            r.wf(),
            r.segs().len() == 1,
            r.segs()[0].id == 0,
            r.segs()[0].data@ == Seq::<u8>::empty(),
            r.cmds() == Seq::<CommandModel>::empty(),
            total_len(r.segs()) == 0,
    {
        let mut segments: Vec<Segment> = Vec::new();
        segments.push(Segment { id: 0, data: Vec::new() });
        let r = SegmentManager { segments };
        proof {
            assert(r.segs().drop_last() =~= Seq::<Segment>::empty());
            assert(log_cmds(Seq::<Segment>::empty()) == Seq::<CommandModel>::empty());
            assert(total_len(Seq::<Segment>::empty()) == 0);
            assert(r.segs().last().data@ =~= Seq::<u8>::empty());
            assert(parse_prefix(r.segs().last().data@) =~= Seq::<CommandModel>::empty());
            assert(r.cmds() =~= Seq::<CommandModel>::empty());
            assert(parse_all(r.segs()[0].data@) is Some);
        }
        r
    }

    /// Adopt an already well-formed segment list, as recovery builds it.
    pub(crate) fn from_segments(segments: Vec<Segment>) -> (r: SegmentManager)
        requires
            segments@.len() >= 1,
            seg_ids_increasing(segments@),
            segs_parseable(segments@),
        ensures
            r.wf(),
            r.segs() == segments@,
    {
        SegmentManager { segments }
    }

    pub fn active_id(&self) -> (r: u64)
        requires
            self.wf(),
        ensures
            r == self.active().id,
    {
        self.segments[self.segments.len() - 1].id
    }

    pub fn active_len(&self) -> (r: usize)
        requires
            self.wf(),
        ensures
            r == self.active().data@.len(),
    {
        self.segments[self.segments.len() - 1].data.len()
    }

    /// Append one whole encoded record to the active segment and return where
    /// it landed.  The write is modelled as immediately durable: the caller
    /// owns persisting the snapshot.
    pub fn append(&mut self, rec: &Vec<u8>) -> (r: LogPointer)
        requires
            old(self).wf(),
            parse_record(rec@) is Some,
            parse_record(rec@)->Some_0.1 == rec@.len(),
        ensures
            final(self).wf(),
            final(self).segs().len() == old(self).segs().len(),
            forall|i: int|
                0 <= i < old(self).segs().len() - 1 ==> final(self).segs()[i] == old(
                    self,
                ).segs()[i],
            final(self).active().id == old(self).active().id,
            final(self).active().data@ == old(self).active().data@ + rec@,
            r.segment_id == old(self).active().id,
            r.offset == old(self).active().data@.len(),
            r.len == rec@.len(),
            final(self).cmds() == old(self).cmds().push(parse_record(rec@)->Some_0.0),
            total_len(final(self).segs()) == total_len(old(self).segs()) + rec@.len(),
    {
        let ghost c = parse_record(rec@)->Some_0.0;
        let n = self.segments.len();
        let mut seg = match self.segments.pop() {
            Some(s) => s,
            None => {
                proof {
                    assert(false);
                }
                Segment { id: 0, data: Vec::new() }
            },
        };
        let offset = seg.data.len();
        crate::codec::append_bytes(&mut seg.data, rec);
        let id = seg.id;
        let len = rec.len();
        self.segments.push(seg);
        proof {
            let oss = old(self).segs();
            let nss = self.segs();
            assert(nss =~= oss.drop_last().push(nss.last()));
            assert(nss.drop_last() =~= oss.drop_last());
            assert(oss.last() == oss[oss.len() - 1]);
            assert(nss.last() == nss[nss.len() - 1]);
            assert(parse_all(oss[oss.len() - 1].data@) is Some);
            assert(nss.last().data@ == oss.last().data@ + rec@);
            lemma_parse_record_bounds(rec@);
            lemma_parse_prefix_of_clean(oss.last().data@);
            lemma_parse_all_append(oss.last().data@, rec@, c);
            lemma_parse_prefix_of_clean(nss.last().data@);
            assert(segs_parseable(nss)) by {
                assert forall|i: int| 0 <= i < nss.len() implies (#[trigger] parse_all(
                    nss[i].data@,
                )) is Some by {
                    if i < nss.len() - 1 {
                        assert(nss[i] == oss[i]);
                    }
                }
            }
            assert(parse_prefix(nss.last().data@) =~= parse_prefix(oss.last().data@).push(c));
            assert(log_cmds(nss) =~= log_cmds(oss).push(c)) by {
                assert(log_cmds(nss) == log_cmds(nss.drop_last()) + parse_prefix(nss.last().data@));
                assert(log_cmds(oss) == log_cmds(oss.drop_last()) + parse_prefix(oss.last().data@));
            }
        }
        LogPointer { segment_id: id, offset, len }
    }

    /// Read back the bytes a pointer covers.  A missing segment is
    /// `IoFailure`, a range past a segment's end `CorruptRecord`; neither can
    /// arise from a pointer the store's own index holds.
    pub fn read(&self, p: LogPointer) -> (r: Result<Vec<u8>, KvError>)
        requires
            self.wf(),
        ensures
            forall|i: int|
                0 <= i < self.segs().len() && (#[trigger] self.segs()[i]).id == p.segment_id
                    && p.offset + p.len <= self.segs()[i].data@.len() ==> (r matches Ok(bytes)
                    && bytes@ == self.segs()[i].data@.subrange(p.offset as int, p.offset + p.len)),
            (forall|i: int|
                0 <= i < self.segs().len() ==> (#[trigger] self.segs()[i]).id != p.segment_id)
                ==> r == Err::<Vec<u8>, KvError>(KvError::IoFailure),
            forall|i: int|
                0 <= i < self.segs().len() && (#[trigger] self.segs()[i]).id == p.segment_id
                    && p.offset + p.len > self.segs()[i].data@.len() ==> r == Err::<
                Vec<u8>,
                KvError,
            >(KvError::CorruptRecord),
    {
        let n = self.segments.len();
        let mut i: usize = 0;
        while i < n
            invariant
                i <= n,
                n == self.segs().len(),
                self.wf(),
                forall|j: int| 0 <= j < i ==> (#[trigger] self.segs()[j]).id != p.segment_id,
            decreases n - i,
        {
            if self.segments[i].id == p.segment_id {
                proof {
                    assert forall|j: int|
                        0 <= j < self.segs().len() && (#[trigger] self.segs()[j]).id
                            == p.segment_id implies j == i by {
                        if j < i as int {
                        } else if j > i as int {
                            assert(self.segs()[i as int].id < self.segs()[j].id);
                        }
                    }
                }
                let dlen = self.segments[i].data.len();
                if p.offset > dlen || p.len > dlen - p.offset {
                    return Err(KvError::CorruptRecord);
                }
                let bytes = crate::codec::copy_range(&self.segments[i].data, p.offset, p.len);
                return Ok(bytes);
            }
            i = i + 1;
        }
        Err(KvError::IoFailure)
    }

    /// Seal the active segment and start a new, empty one with the next
    /// generation number.  Skipped only when the generation counter has no
    /// headroom left.
    pub fn rotate(&mut self)
        requires
            old(self).wf(),
        ensures
            final(self).wf(),
            final(self).cmds() == old(self).cmds(),
            total_len(final(self).segs()) == total_len(old(self).segs()),
            old(self).active().id < u64::MAX ==> {
                &&& final(self).segs().drop_last() == old(self).segs()
                &&& final(self).active().id == old(self).active().id + 1
                &&& final(self).active().data@ == Seq::<u8>::empty()
            },
            old(self).active().id == u64::MAX ==> *final(self) == *old(self),
    {
        let id = self.active_id();
        if id == u64::MAX {
            return ;
        }
        self.segments.push(Segment { id: id + 1, data: Vec::new() });
        proof {
            let oss = old(self).segs();
            let nss = self.segs();
            assert(nss.drop_last() =~= oss);
            assert(segs_parseable(nss)) by {
                assert forall|i: int| 0 <= i < nss.len() implies (#[trigger] parse_all(
                    nss[i].data@,
                )) is Some by {
                    if i < nss.len() - 1 {
                        assert(nss[i] == oss[i]);
                    }
                }
            }
            assert(seg_ids_increasing(nss)) by {
                assert forall|i: int, j: int| 0 <= i < j < nss.len() implies nss[i].id
                    < nss[j].id by {
                    if j < nss.len() - 1 {
                        assert(nss[i] == oss[i] && nss[j] == oss[j]);
                    } else {
                        assert(nss[i] == oss[i]);
                        if i < oss.len() - 1 {
                            assert(oss[i].id < oss.last().id);
                        }
                    }
                }
            }
            assert(parse_prefix(nss.last().data@) =~= Seq::<CommandModel>::empty());
            assert(log_cmds(nss) =~= log_cmds(oss));
            assert(total_len(nss) == total_len(oss));
        }
    }

    /// The segment generation numbers, in order.
    pub fn list_segments(&self) -> (r: Vec<u64>)
        ensures
            r@.len() == self.segs().len(),
            forall|i: int| 0 <= i < r@.len() ==> r@[i] == self.segs()[i].id,
    {
        let n = self.segments.len();
        let mut r: Vec<u64> = Vec::new();
        let mut i: usize = 0;
        while i < n
            invariant
                i <= n,
                n == self.segs().len(),
                r@.len() == i,
                forall|j: int| 0 <= j < i ==> r@[j] == self.segs()[j].id,
            decreases n - i,
        {
            r.push(self.segments[i].id);
            i = i + 1;
        }
        r
    }

    /// Drop a sealed segment that compaction has made redundant.  Asking for
    /// the active segment, or an id the log does not hold, does nothing.
    pub fn retire(&mut self, segment_id: u64)
        requires
            old(self).wf(),
        ensures
            final(self).wf(),
            (exists|i: int|
                0 <= i < old(self).segs().len() - 1 && (#[trigger] old(self).segs()[i]).id
                    == segment_id) ==> exists|i: int|
                0 <= i < old(self).segs().len() - 1 && (#[trigger] old(self).segs()[i]).id
                    == segment_id && final(self).segs() == old(self).segs().remove(i),
            !(exists|i: int|
                0 <= i < old(self).segs().len() - 1 && (#[trigger] old(self).segs()[i]).id
                    == segment_id) ==> *final(self) == *old(self),
    {
        let n = self.segments.len();
        let mut i: usize = 0;
        while i < n - 1
            invariant
                i <= n - 1,
                n == self.segs().len(),
                n >= 1,
                self.wf(),
                *self == *old(self),
                forall|j: int| 0 <= j < i ==> (#[trigger] self.segs()[j]).id != segment_id,
            decreases n - 1 - i,
        {
            if self.segments[i].id == segment_id {
                let ghost oss = self.segs();
                self.segments.remove(i);
                proof {
                    let nss = self.segs();
                    assert(seg_ids_increasing(nss));
                    assert(segs_parseable(nss)) by {
                        assert forall|j: int| 0 <= j < nss.len() implies (#[trigger] parse_all(
                            nss[j].data@,
                        )) is Some by {
                            if j < i as int {
                                assert(nss[j] == oss[j]);
                            } else {
                                assert(nss[j] == oss[j + 1]);
                            }
                        }
                    }
                }
                return ;
            }
            i = i + 1;
        }
    }

    /// Total log size in bytes.
    pub fn total_bytes(&self) -> (r: u128)
        ensures
            r == total_len(self.segs()),
    {
        let n = self.segments.len();
        let mut acc: u128 = 0;
        let mut i: usize = 0;
        proof {
            assert(self.segs().subrange(0, 0) =~= Seq::<Segment>::empty());
        }
        while i < n
            invariant
                i <= n,
                n == self.segs().len(),
                acc == total_len(self.segs().subrange(0, i as int)),
                acc <= i * 0x1_0000_0000_0000_0000,
            decreases n - i,
        {
            let l = self.segments[i].data.len();
            proof {
                let pre = self.segs().subrange(0, i as int);
                let post = self.segs().subrange(0, i + 1);
                assert(post.drop_last() =~= pre);
                assert(post.last() == self.segs()[i as int]);
                assert(acc + l <= i * 0x1_0000_0000_0000_0000 + 0x1_0000_0000_0000_0000);
                assert(i * 0x1_0000_0000_0000_0000 + 0x1_0000_0000_0000_0000 == (i + 1)
                    * 0x1_0000_0000_0000_0000) by (nonlinear_arith);
                assert((i + 1) * 0x1_0000_0000_0000_0000 <= 0x1_0000_0000_0000_0000
                    * 0x1_0000_0000_0000_0000) by (nonlinear_arith)
                    requires
                        i + 1 <= 0x1_0000_0000_0000_0000,
                ;
            }
            acc = acc + l as u128;
            i = i + 1;
        }
        proof {
            assert(self.segs().subrange(0, n as int) =~= self.segs());
        }
        acc
    }

    /// A copy of every segment's bytes, in order: what a caller persists.
    pub fn datas(&self) -> (r: Vec<Vec<u8>>)
        ensures
            r@.len() == self.segs().len(),
            forall|i: int| 0 <= i < r@.len() ==> r@[i]@ == self.segs()[i].data@,
    {
        let n = self.segments.len();
        let mut r: Vec<Vec<u8>> = Vec::new();
        let mut i: usize = 0;
        while i < n
            invariant
                i <= n,
                n == self.segs().len(),
                r@.len() == i,
                forall|j: int| 0 <= j < i ==> r@[j]@ == self.segs()[j].data@,
            decreases n - i,
        {
            r.push(copy_bytes(&self.segments[i].data));
            i = i + 1;
        }
        r
    }
}

} // verus!
