//! The engine: the store itself.
//!
//! A `KvStore` owns the segment log and the index and serves `get`, `set`
//! and `remove`; its abstract state is the map obtained by replaying every
//! command in the log, and every operation's contract is stated against that
//! map.  After each mutation the store rotates an oversized active segment
//! and compacts once more than a third of the log is stale.

use vstd::prelude::*;

use crate::KvError;
use crate::codec::{Command, CommandModel, encode_model, parse_all, parse_prefix, parse_record};
use crate::codec::{copy_bytes, decode, encode, sanitize};
use crate::codec::{lemma_parse_all_append, lemma_parse_prefix_of_clean, lemma_parse_record_bounds,
    lemma_parse_record_depends_on_prefix, lemma_round_trip};
use crate::index::{Index, IndexEntry, keys_distinct, live_len, map_of};
use crate::index::{lemma_live_len_nonneg, lemma_map_of_at, lemma_map_of_contains};
use crate::log::{LogPointer, Segment, SegmentManager, lemma_ptr_valid_extend, log_cmds, ptr_valid,
    seg_ids_increasing, segs_parseable, total_len};

verus! {

/// How one command transforms the abstract map.
pub open spec fn apply_cmd(m: Map<Seq<u8>, Seq<u8>>, c: CommandModel) -> Map<Seq<u8>, Seq<u8>> {
    match c {
        CommandModel::Put { key, value } => m.insert(key, value),
        CommandModel::Remove { key } => m.remove(key),
    }
}

/// The map a command sequence builds when replayed in order.
pub open spec fn replay(cs: Seq<CommandModel>) -> Map<Seq<u8>, Seq<u8>>
    decreases cs.len(),
{
    if cs.len() == 0 {
        Map::empty()
    } else {
        apply_cmd(replay(cs.drop_last()), cs.last())
    }
}

/// The commands a sequence of segment byte images holds, in replay order,
/// reading each image leniently (truncate-and-continue).
pub open spec fn image_cmds(ds: Seq<Seq<u8>>) -> Seq<CommandModel>
    decreases ds.len(),
{
    if ds.len() == 0 {
        Seq::empty()
    } else {
        image_cmds(ds.drop_last()) + parse_prefix(ds.last())
    }
}

/// One put record for each entry, binding its key to its value under `m`.
pub open spec fn live_cmds(s: Seq<IndexEntry>, m: Map<Seq<u8>, Seq<u8>>) -> Seq<CommandModel>
    decreases s.len(),
{
    if s.len() == 0 {
        Seq::empty()
    } else {
        live_cmds(s.drop_last(), m).push(
            CommandModel::Put { key: s.last().key@, value: m[s.last().key@] },
        )
    }
}

/// Replaying one put per distinct key builds exactly the map of those pairs.
proof fn lemma_replay_live_cmds(s: Seq<IndexEntry>, m: Map<Seq<u8>, Seq<u8>>)
    requires
        keys_distinct(s),
    ensures
        forall|k: Seq<u8>| #[trigger]
            replay(live_cmds(s, m)).contains_key(k) ==> exists|j: int|
                0 <= j < s.len() && #[trigger] s[j].key@ == k,
        forall|j: int|
            0 <= j < s.len() ==> replay(live_cmds(s, m)).contains_key(#[trigger] s[j].key@)
                && replay(live_cmds(s, m))[s[j].key@] == m[s[j].key@],
    decreases s.len(),
{
    if s.len() > 0 {
        lemma_replay_live_cmds(s.drop_last(), m);
        let c = CommandModel::Put { key: s.last().key@, value: m[s.last().key@] };
        assert(live_cmds(s, m).drop_last() =~= live_cmds(s.drop_last(), m));
        assert(live_cmds(s, m).last() == c);
        assert(replay(live_cmds(s, m)) == replay(live_cmds(s.drop_last(), m)).insert(
            s.last().key@,
            m[s.last().key@],
        ));
        assert forall|k: Seq<u8>| #[trigger]
            replay(live_cmds(s, m)).contains_key(k) implies exists|j: int|
            0 <= j < s.len() && #[trigger] s[j].key@ == k by {
            if k == s.last().key@ {
                assert(s[s.len() - 1].key@ == k);
            } else {
                let j = choose|j: int|
                    0 <= j < s.drop_last().len() && #[trigger] s.drop_last()[j].key@ == k;
                assert(s[j].key@ == k);
            }
        }
        assert forall|j: int| 0 <= j < s.len() implies replay(live_cmds(s, m)).contains_key(
            #[trigger] s[j].key@,
        ) && replay(live_cmds(s, m))[s[j].key@] == m[s[j].key@] by {
            if j < s.len() - 1 {
                assert(s.drop_last()[j] == s[j]);
                assert(s[j].key@ != s.last().key@);
            }
        }
    }
}

/// The byte images of a segment list.
pub open spec fn images_of(ss: Seq<Segment>) -> Seq<Seq<u8>> {
    Seq::new(ss.len(), |i: int| ss[i].data@)
}

/// The byte images of a vector of byte vectors.
pub open spec fn byte_images(ds: Seq<Vec<u8>>) -> Seq<Seq<u8>> {
    Seq::new(ds.len(), |i: int| ds[i]@)
}

/// The key a command names.
pub open spec fn cmd_key(c: CommandModel) -> Seq<u8> {
    match c {
        CommandModel::Put { key, .. } => key,
        CommandModel::Remove { key } => key,
    }
}

/// A compacted log's command sequence: one put per key and nothing else —
/// no removals, no superseded records, pairwise distinct keys — binding
/// exactly the keys of `m` to their values under `m`.
pub open spec fn compacted_form(cs: Seq<CommandModel>, m: Map<Seq<u8>, Seq<u8>>) -> bool {
    &&& forall|i: int|
        0 <= i < cs.len() ==> ((#[trigger] cs[i]) matches CommandModel::Put { key, value }
            && m.contains_key(key) && value == m[key])
    &&& forall|i: int, j: int| 0 <= i < j < cs.len() ==> cmd_key(cs[i]) != cmd_key(cs[j])
    &&& forall|k: Seq<u8>|
        #[trigger] m.contains_key(k) ==> exists|i: int|
            0 <= i < cs.len() && cmd_key(#[trigger] cs[i]) == k
}

/// Each entry contributes exactly its own put record.
proof fn lemma_live_cmds_shape(s: Seq<IndexEntry>, m: Map<Seq<u8>, Seq<u8>>)
    ensures
        live_cmds(s, m).len() == s.len(),
        forall|i: int|
            0 <= i < s.len() ==> live_cmds(s, m)[i] == (CommandModel::Put {
                key: s[i].key@,
                value: m[s[i].key@],
            }),
    decreases s.len(),
{
    if s.len() > 0 {
        lemma_live_cmds_shape(s.drop_last(), m);
        assert forall|i: int| 0 <= i < s.len() implies live_cmds(s, m)[i] == (CommandModel::Put {
            key: s[i].key@,
            value: m[s[i].key@],
        }) by {
            if i < s.len() - 1 {
                assert(s.drop_last()[i] == s[i]);
                assert(live_cmds(s, m)[i] == live_cmds(s.drop_last(), m)[i]);
            }
        }
    }
}

proof fn lemma_image_cmds_of_log(ss: Seq<Segment>)
    ensures
        image_cmds(images_of(ss)) == log_cmds(ss),
    decreases ss.len(),
{
    let ds = images_of(ss);
    if ss.len() == 0 {
        assert(ds =~= Seq::<Seq<u8>>::empty());
    } else {
        lemma_image_cmds_of_log(ss.drop_last());
        assert(ds.drop_last() =~= images_of(ss.drop_last()));
        assert(ds.last() == ss.last().data@);
    }
}

/// Rotate the active segment once it passes this many bytes.
pub const SEGMENT_LIMIT: usize = 1024;

/// Leave logs smaller than this alone: compacting them saves next to
/// nothing, and a removal's record stays visible in a short log.
pub const COMPACT_MIN_BYTES: u128 = 1024;

/// After every mutation the log is small, or at most a third of it is
/// stale, or the generation counter has no headroom left: the compaction
/// trigger's footprint in the contracts.
pub open spec fn stale_bounded(s: KvStore) -> bool {
    ||| s.log_total() < COMPACT_MIN_BYTES as int
    ||| s.log_total() - s.live_total() <= s.log_total() / 3
    ||| s.generation() > u64::MAX - 2
}

/// What one successful mutation does to the log.  The encoded record is
/// appended to the active segment; rotation may then seal that segment
/// behind a fresh empty one — and must, once the segment outgrew
/// `SEGMENT_LIMIT` with generation headroom left; compaction may replace
/// the whole log by one put per live key, but only once the log reached
/// `COMPACT_MIN_BYTES`.  Unless compaction rewrote it, the log's command
/// sequence is the old one plus exactly this record, and the log never
/// grows by more than the record.
pub open spec fn log_after_mutation(pre: KvStore, post: KvStore, c: CommandModel) -> bool {
    let grown = pre.log_view().update(
        pre.log_view().len() - 1,
        pre.log_view().last() + encode_model(c),
    );
    let rewritten = pre.log_total() + encode_model(c).len() >= COMPACT_MIN_BYTES as int
        && compacted_form(image_cmds(post.log_view()), post.m());
    &&& post.log_view() == grown || post.log_view() == grown.push(Seq::<u8>::empty())
        || rewritten
    &&& image_cmds(post.log_view()) == image_cmds(pre.log_view()).push(c) || rewritten
    &&& (grown.last().len() > SEGMENT_LIMIT as int && pre.generation() < u64::MAX) ==> (
    post.log_view() == grown.push(Seq::<u8>::empty()) || rewritten)
    &&& post.log_total() <= pre.log_total() + encode_model(c).len()
    &&& stale_bounded(post)
}

/// Appending one encoded record to the active segment grows the last byte
/// image by the record and the command sequence by the command.
proof fn lemma_append_stage(pre: KvStore, s1: KvStore, c: CommandModel, rec: Seq<u8>)
    requires
        pre.log.wf(),
        s1.log.segs().len() == pre.log.segs().len(),
        forall|i: int|
            0 <= i < pre.log.segs().len() - 1 ==> s1.log.segs()[i] == pre.log.segs()[i],
        s1.log.active().id == pre.log.active().id,
        s1.log.active().data@ == pre.log.active().data@ + rec,
        s1.log.cmds() == pre.log.cmds().push(c),
        total_len(s1.log.segs()) == total_len(pre.log.segs()) + rec.len(),
        rec == encode_model(c),
    ensures
        s1.log_view() == pre.log_view().update(
            pre.log_view().len() - 1,
            pre.log_view().last() + encode_model(c),
        ),
        image_cmds(s1.log_view()) == image_cmds(pre.log_view()).push(c),
        s1.generation() == pre.generation(),
        s1.log_total() == pre.log_total() + encode_model(c).len(),
{
    lemma_image_cmds_of_log(pre.log.segs());
    lemma_image_cmds_of_log(s1.log.segs());
    assert(s1.log_view() =~= pre.log_view().update(
        pre.log_view().len() - 1,
        pre.log_view().last() + encode_model(c),
    ));
}

/// Pushing an empty segment image adds no commands.
proof fn lemma_image_cmds_push_empty(v: Seq<Seq<u8>>)
    ensures
        image_cmds(v.push(Seq::<u8>::empty())) == image_cmds(v),
{
    assert(v.push(Seq::<u8>::empty()).drop_last() =~= v);
    assert(parse_prefix(Seq::<u8>::empty()) =~= Seq::<CommandModel>::empty());
    assert(image_cmds(v) + Seq::<CommandModel>::empty() =~= image_cmds(v));
}

/// A mutation passes through three stages — append (`s1`), possible
/// rotation (`s2`), possible compaction (`s3`) — and what each stage
/// guarantees adds up to `log_after_mutation`.
proof fn lemma_mutation_stages(pre: KvStore, s1: KvStore, s2: KvStore, s3: KvStore, c: CommandModel)
    requires
        pre.log_view().len() >= 1,
        s1.log_view() == pre.log_view().update(
            pre.log_view().len() - 1,
            pre.log_view().last() + encode_model(c),
        ),
        image_cmds(s1.log_view()) == image_cmds(pre.log_view()).push(c),
        s1.generation() == pre.generation(),
        s2.log_view() == s1.log_view() || s2.log_view() == s1.log_view().push(
            Seq::<u8>::empty(),
        ),
        s1.log_view().last().len() > SEGMENT_LIMIT as int && s1.generation() < u64::MAX
            ==> s2.log_view() == s1.log_view().push(Seq::<u8>::empty()),
        s2.log_view() == s1.log_view().push(Seq::<u8>::empty()) ==> image_cmds(s2.log_view())
            == image_cmds(s1.log_view()),
        s2.log_total() == pre.log_total() + encode_model(c).len(),
        s3 == s2 || (s2.log_total() >= COMPACT_MIN_BYTES as int && compacted_form(
            image_cmds(s3.log_view()),
            s3.m(),
        )),
        s3.log_total() <= s2.log_total(),
        stale_bounded(s3),
    ensures
        log_after_mutation(pre, s3, c),
{
    let grown = pre.log_view().update(
        pre.log_view().len() - 1,
        pre.log_view().last() + encode_model(c),
    );
    assert(grown.last() == pre.log_view().last() + encode_model(c));
    assert(s1.log_view().last() == grown.last());
    if s3 == s2 {
        if s2.log_view() == s1.log_view() {
            assert(s3.log_view() == grown);
        } else {
            assert(s3.log_view() == grown.push(Seq::<u8>::empty()));
        }
        assert(image_cmds(s3.log_view()) == image_cmds(pre.log_view()).push(c));
    }
}

/// The store: a segment log, the index over it, and the open/closed flag of
/// its lifecycle.  Exactly one owner mutates it; readers go through `get`.
pub struct KvStore {
    log: SegmentManager,
    index: Index,
    opened: bool,
}

impl KvStore {
    /// The abstract contents: the map the log replays to.
    pub closed spec fn m(self) -> Map<Seq<u8>, Seq<u8>> {
        replay(self.log.cmds())
    }

    /// The byte images of the log's segments, in generation order.
    pub closed spec fn log_view(self) -> Seq<Seq<u8>> {
        images_of(self.log.segs())
    }

    /// Total log size in bytes.
    pub closed spec fn log_total(self) -> int {
        total_len(self.log.segs())
    }

    pub closed spec fn is_open(self) -> bool {
        self.opened
    }

    /// The active segment's generation number.
    pub closed spec fn generation(self) -> u64 {
        self.log.active().id
    }

    /// The log bytes the index still points at: what compaction keeps.
    pub closed spec fn live_total(self) -> int {
        self.index.live()
    }

    /// The store's invariant: the log and index are well formed, the index
    /// holds exactly the keys of the replayed map, every index pointer
    /// locates a put record carrying that key's current value, and the live
    /// bytes never exceed the log's size.
    pub closed spec fn wf(self) -> bool {
        &&& self.log.wf()
        &&& self.index.wf()
        &&& forall|k: Seq<u8>| #[trigger]
            self.m().contains_key(k) ==> self.index.m().contains_key(k)
        &&& forall|k: Seq<u8>| #[trigger]
            self.index.m().contains_key(k) ==> self.m().contains_key(k) && ptr_valid(
                self.log.segs(),
                k,
                self.index.m()[k],
                self.m()[k],
            )
        &&& self.index.live() <= total_len(self.log.segs())
    }

    /// The state `close` leaves: the same store, no longer open.
    pub closed spec fn closed_state(s: KvStore) -> KvStore {
        KvStore { log: s.log, index: s.index, opened: false }
    }

    /// The invariant and the abstract map depend only on the log and index,
    /// not on the lifecycle flag.
    proof fn lemma_wf_same_core(a: KvStore, b: KvStore)
        requires
            a.wf(),
            b.log == a.log,
            b.index == a.index,
        ensures
            b.wf(),
            b.m() == a.m(),
    {
        assert(b.m() == a.m());
        assert forall|k: Seq<u8>| #[trigger] b.m().contains_key(k) implies
            b.index.m().contains_key(k) by {
            assert(a.m().contains_key(k));
        }
        assert forall|k: Seq<u8>| #[trigger] b.index.m().contains_key(k) implies
            b.m().contains_key(k) && ptr_valid(b.log.segs(), k, b.index.m()[k], b.m()[k]) by {
            assert(a.index.m().contains_key(k));
        }
    }

    /// A fresh, empty, open store.
    pub fn new() -> (r: KvStore)
        ensures
            r.wf(),
            r.is_open(),
            r.m() == Map::<Seq<u8>, Seq<u8>>::empty(),
            r.log_total() == 0,
            r.live_total() == 0,
            r.generation() == 0,
            image_cmds(r.log_view()) == Seq::<CommandModel>::empty(),
    {
        let r = KvStore { log: SegmentManager::new(), index: Index::new(), opened: true };
        proof {
            assert(replay(Seq::<CommandModel>::empty()) == Map::<Seq<u8>, Seq<u8>>::empty());
            lemma_image_cmds_of_log(r.log.segs());
        }
        r
    }

    /// Bring a store back from the byte images of its segments, oldest
    /// first: replay every record through the codec in order, rebuilding
    /// the index exactly as the earlier run of sets and removes built it.
    /// A torn trailing record in any image — the footprint of a crash mid
    /// append — is discarded: truncate and continue.
    #[verifier::rlimit(80)]
    pub fn open(images: Vec<Vec<u8>>) -> (r: KvStore)
        ensures
            r.wf(),
            r.is_open(),
            r.m() == replay(image_cmds(byte_images(images@))),
            image_cmds(r.log_view()) == image_cmds(byte_images(images@)),
    {
        let n = images.len();
        let mut segments: Vec<Segment> = Vec::new();
        let mut i: usize = 0;
        proof {
            assert(byte_images(images@).subrange(0, 0) =~= Seq::<Seq<u8>>::empty());
            assert(image_cmds(Seq::<Seq<u8>>::empty()) == Seq::<CommandModel>::empty());
            assert(log_cmds(segments@) =~= Seq::<CommandModel>::empty());
        }
        while i < n
            invariant
                i <= n,
                n == images@.len(),
                segments@.len() == i,
                forall|j: int| 0 <= j < i ==> (#[trigger] segments@[j]).id as int == j,
                segs_parseable(segments@),
                log_cmds(segments@) == image_cmds(byte_images(images@).subrange(0, i as int)),
            decreases n - i,
        {
            let img = copy_bytes(&images[i]);
            let data = sanitize(img);
            let ghost oldsegs = segments@;
            segments.push(Segment { id: i as u64, data });
            proof {
                let ss = segments@;
                assert(ss.drop_last() =~= oldsegs);
                assert(ss.last().data@ == ss[i as int].data@);
                lemma_parse_prefix_of_clean(ss.last().data@);
                assert(parse_prefix(ss.last().data@) == parse_prefix(images@[i as int]@));
                assert(segs_parseable(ss)) by {
                    assert forall|j: int| 0 <= j < ss.len() implies (#[trigger] parse_all(
                        ss[j].data@,
                    )) is Some by {
                        if j < i as int {
                            assert(ss[j] == oldsegs[j]);
                        }
                    }
                }
                let bi = byte_images(images@);
                assert(bi.subrange(0, i + 1).drop_last() =~= bi.subrange(0, i as int));
                assert(bi.subrange(0, i + 1).last() == images@[i as int]@);
                assert(log_cmds(ss) == image_cmds(bi.subrange(0, i + 1)));
            }
            i = i + 1;
        }
        if n == 0 {
            segments.push(Segment { id: 0, data: Vec::new() });
            proof {
                assert(segments@.drop_last() =~= Seq::<Segment>::empty());
                assert(segments@.last().data@ =~= Seq::<u8>::empty());
                assert(parse_prefix(segments@.last().data@) =~= Seq::<CommandModel>::empty());
                assert(parse_all(segments@.last().data@) is Some);
                assert(byte_images(images@).subrange(0, 0) =~= byte_images(images@));
                assert(log_cmds(segments@) =~= image_cmds(byte_images(images@)));
            }
        }
        proof {
            assert(byte_images(images@).subrange(0, n as int) =~= byte_images(images@));
        }
        let ghost ss = segments@;
        proof {
            assert(seg_ids_increasing(ss)) by {
                assert forall|a: int, b: int| 0 <= a < b < ss.len() implies ss[a].id
                    < ss[b].id by {
                    assert(ss[a].id as int == a && ss[b].id as int == b);
                }
            }
            assert(log_cmds(ss) == image_cmds(byte_images(images@)));
            assert(ss.subrange(0, 0) =~= Seq::<Segment>::empty());
            assert(replay(log_cmds(ss.subrange(0, 0))).dom() =~= Set::<Seq<u8>>::empty());
        }
        let mut index = Index::new();
        let nseg = segments.len();
        let mut si: usize = 0;
        while si < nseg
            invariant
                si <= nseg,
                nseg == ss.len(),
                nseg >= 1,
                segments@ == ss,
                segs_parseable(ss),
                seg_ids_increasing(ss),
                forall|j: int| 0 <= j < ss.len() ==> (#[trigger] ss[j]).id as int == j,
                index.wf(),
                forall|k: Seq<u8>| #[trigger]
                    index.m().contains_key(k) ==> replay(
                        log_cmds(ss.subrange(0, si as int)),
                    ).contains_key(k) && ptr_valid(
                        ss,
                        k,
                        index.m()[k],
                        replay(log_cmds(ss.subrange(0, si as int)))[k],
                    ),
                forall|k: Seq<u8>| #[trigger]
                    replay(log_cmds(ss.subrange(0, si as int))).contains_key(k)
                        ==> index.m().contains_key(k),
                live_len(index@) <= total_len(ss.subrange(0, si as int)),
            decreases nseg - si,
        {
            let dlen = segments[si].data.len();
            let sid = segments[si].id;
            let ghost d = ss[si as int].data@;
            let ghost done = log_cmds(ss.subrange(0, si as int));
            let mut pos: usize = 0;
            proof {
                assert(d.subrange(0, 0) =~= Seq::<u8>::empty());
                assert(d.subrange(0, dlen as int) =~= d);
                assert(parse_all(Seq::<u8>::empty()) == Some(Seq::<CommandModel>::empty()));
                assert(Seq::<CommandModel>::empty() + parse_all(d)->Some_0 =~= parse_all(
                    d,
                )->Some_0);
                assert(done + Seq::<CommandModel>::empty() =~= done);
            }
            while pos < dlen
                invariant
                    pos <= dlen,
                    si < nseg,
                    nseg == ss.len(),
                    segments@ == ss,
                    dlen == d.len(),
                    d == ss[si as int].data@,
                    sid == ss[si as int].id,
                    segs_parseable(ss),
                    seg_ids_increasing(ss),
                    forall|j: int| 0 <= j < ss.len() ==> (#[trigger] ss[j]).id as int == j,
                    done == log_cmds(ss.subrange(0, si as int)),
                    parse_all(d.subrange(0, pos as int)) is Some,
                    parse_all(d.subrange(pos as int, dlen as int)) is Some,
                    parse_all(d)->Some_0 == parse_all(d.subrange(0, pos as int))->Some_0
                        + parse_all(d.subrange(pos as int, dlen as int))->Some_0,
                    index.wf(),
                    forall|k: Seq<u8>| #[trigger]
                        index.m().contains_key(k) ==> replay(
                            done + parse_all(d.subrange(0, pos as int))->Some_0,
                        ).contains_key(k) && ptr_valid(
                            ss,
                            k,
                            index.m()[k],
                            replay(done + parse_all(d.subrange(0, pos as int))->Some_0)[k],
                        ),
                    forall|k: Seq<u8>| #[trigger]
                        replay(done + parse_all(d.subrange(0, pos as int))->Some_0).contains_key(k)
                            ==> index.m().contains_key(k),
                    live_len(index@) <= total_len(ss.subrange(0, si as int)) + pos,
                decreases dlen - pos,
            {
                let ghost suffix = d.subrange(pos as int, dlen as int);
                let ghost pref = parse_all(d.subrange(0, pos as int))->Some_0;
                let ghost mcur = replay(done + pref);
                proof {
                    assert(suffix.len() > 0);
                    assert(parse_record(suffix) is Some);
                    assert(d.subrange(pos as int, d.len() as int) == suffix);
                }
                let res = decode(&segments[si].data, pos);
                let (cmd, clen) = match res {
                    Ok(x) => x,
                    Err(_) => {
                        proof {
                            assert(false);
                        }
                        return KvStore::new();
                    },
                };
                let ghost cm = cmd@;
                let ghost ni = clen as int;
                proof {
                    lemma_parse_record_bounds(suffix);
                    assert(parse_record(suffix) == Some((cm, ni)));
                    assert(9 <= ni <= suffix.len());
                    let rb = d.subrange(pos as int, pos + ni);
                    assert(rb =~= suffix.subrange(0, ni));
                    lemma_parse_record_depends_on_prefix(suffix, rb);
                    assert(parse_record(rb) == Some((cm, rb.len() as int)));
                    lemma_parse_all_append(d.subrange(0, pos as int), rb, cm);
                    assert(d.subrange(0, pos as int) + rb =~= d.subrange(0, pos + ni));
                    assert(parse_all(d.subrange(0, pos + ni)) == Some(pref.push(cm)));
                    assert(d.subrange(pos + ni, dlen as int) =~= suffix.subrange(
                        ni,
                        suffix.len() as int,
                    ));
                    assert(parse_all(suffix) == Some(
                        seq![cm] + parse_all(suffix.subrange(ni, suffix.len() as int))->Some_0,
                    ));
                    assert(parse_all(d)->Some_0 =~= pref.push(cm) + parse_all(
                        d.subrange(pos + ni, dlen as int),
                    )->Some_0);
                    assert(done + pref.push(cm) =~= (done + pref).push(cm));
                    assert(replay(done + pref.push(cm)) == apply_cmd(mcur, cm)) by {
                        assert((done + pref).push(cm).drop_last() =~= done + pref);
                    }
                }
                match cmd {
                    Command::Put { key, value } => {
                        let p = LogPointer { segment_id: sid, offset: pos, len: clen };
                        let ghost kview = key@;
                        let ghost vview = value@;
                        let ghost previdx = index;
                        index.put(key, p);
                        proof {
                            assert(ptr_valid(ss, kview, p, vview)) by {
                                assert(ss[si as int].id == p.segment_id);
                                assert(d.subrange(pos as int, pos + ni) =~= ss[si as int].data@
                                    .subrange(p.offset as int, p.offset + p.len));
                            }
                            let mnext = replay(done + parse_all(d.subrange(0, pos + ni))->Some_0);
                            assert(mnext == mcur.insert(kview, vview));
                            assert forall|k: Seq<u8>| #[trigger]
                                index.m().contains_key(k) implies mnext.contains_key(k)
                                && ptr_valid(ss, k, index.m()[k], mnext[k]) by {
                                if k != kview {
                                    assert(previdx.m().contains_key(k));
                                }
                            }
                            assert forall|k: Seq<u8>| #[trigger]
                                mnext.contains_key(k) implies index.m().contains_key(k) by {
                                if k != kview {
                                    assert(mcur.contains_key(k));
                                }
                            }
                        }
                    },
                    Command::Remove { key } => {
                        let ghost kview = key@;
                        let ghost previdx = index;
                        index.remove(&key);
                        proof {
                            let mnext = replay(done + parse_all(d.subrange(0, pos + ni))->Some_0);
                            assert(mnext == mcur.remove(kview));
                            assert forall|k: Seq<u8>| #[trigger]
                                index.m().contains_key(k) implies mnext.contains_key(k)
                                && ptr_valid(ss, k, index.m()[k], mnext[k]) by {
                                assert(previdx.m().contains_key(k));
                                assert(k != kview);
                            }
                            assert forall|k: Seq<u8>| #[trigger]
                                mnext.contains_key(k) implies index.m().contains_key(k) by {
                                assert(k != kview);
                                assert(mcur.contains_key(k));
                            }
                            lemma_live_len_nonneg(index@);
                        }
                    },
                }
                pos = pos + clen;
            }
            proof {
                assert(d.subrange(pos as int, dlen as int) =~= Seq::<u8>::empty());
                assert(parse_all(Seq::<u8>::empty())->Some_0 =~= Seq::<CommandModel>::empty());
                assert(parse_all(d)->Some_0 =~= parse_all(d.subrange(0, pos as int))->Some_0);
                lemma_parse_prefix_of_clean(d);
                let nxt = ss.subrange(0, si + 1);
                assert(nxt.drop_last() =~= ss.subrange(0, si as int));
                assert(nxt.last() == ss[si as int]);
                assert(log_cmds(nxt) == done + parse_all(d.subrange(0, pos as int))->Some_0);
                assert(total_len(nxt) == total_len(ss.subrange(0, si as int)) + dlen);
            }
            si = si + 1;
        }
        proof {
            assert(ss.subrange(0, nseg as int) =~= ss);
        }
        let log = SegmentManager::from_segments(segments);
        let r = KvStore { log, index, opened: true };
        proof {
            assert(r.log.segs() == ss);
            assert(r.m() == replay(log_cmds(ss)));
            lemma_image_cmds_of_log(ss);
            assert(image_cmds(r.log_view()) == log_cmds(ss));
            assert forall|k: Seq<u8>| #[trigger] r.m().contains_key(k) implies
                r.index.m().contains_key(k) by {
                assert(replay(log_cmds(ss.subrange(0, nseg as int))).contains_key(k));
            }
            assert forall|k: Seq<u8>| #[trigger] r.index.m().contains_key(k) implies
                r.m().contains_key(k) && ptr_valid(r.log.segs(), k, r.index.m()[k], r.m()[k]) by {
                assert(index.m().contains_key(k));
            }
        }
        r
    }

    /// Look a key up: the value the replayed log binds it to, if any.
    pub fn get(&self, key: &Vec<u8>) -> (r: Option<Vec<u8>>)
        requires
            self.wf(),
            self.is_open(),
        ensures
            match r {
                Some(v) => self.m().contains_key(key@) && v@ == self.m()[key@],
                None => !self.m().contains_key(key@),
            },
    {
        match self.index.get(key) {
            None => {
                proof {
                    if self.m().contains_key(key@) {
                        assert(self.index.m().contains_key(key@));
                    }
                }
                None
            },
            Some(p) => {
                let ghost v = self.m()[key@];
                let ghost ss = self.log.segs();
                proof {
                    assert(ptr_valid(ss, key@, p, v));
                }
                let res = self.log.read(p);
                proof {
                    let i = choose|i: int|
                        0 <= i < ss.len() && (#[trigger] ss[i]).id == p.segment_id && p.offset
                            + p.len <= ss[i].data@.len() && parse_record(
                            ss[i].data@.subrange(p.offset as int, p.offset + p.len),
                        ) == Some((CommandModel::Put { key: key@, value: v }, p.len as int));
                    assert(res matches Ok(bytes) && bytes@ == ss[i].data@.subrange(
                        p.offset as int,
                        p.offset + p.len,
                    ));
                }
                match res {
                    Err(_) => {
                        proof {
                            assert(false);
                        }
                        None
                    },
                    Ok(bytes) => {
                        proof {
                            assert(bytes@.subrange(0, bytes@.len() as int) =~= bytes@);
                        }
                        match decode(&bytes, 0) {
                            Err(_) => {
                                proof {
                                    assert(false);
                                }
                                None
                            },
                            Ok((cmd, _n)) => {
                                match cmd {
                                    Command::Put { key: _k, value } => {
                                        proof {
                                            assert(value@ == v);
                                        }
                                        Some(value)
                                    },
                                    Command::Remove { .. } => {
                                        proof {
                                            assert(false);
                                        }
                                        None
                                    },
                                }
                            },
                        }
                    },
                }
            },
        }
    }

    /// Bind `key` to `value`: append a put record, repoint the index, then
    /// let rotation and compaction run if they are due.
    #[verifier::rlimit(100)]
    pub fn set(&mut self, key: Vec<u8>, value: Vec<u8>)
        requires
            old(self).wf(),
            old(self).is_open(),
        ensures
            final(self).wf(),
            final(self).is_open(),
            final(self).m() == old(self).m().insert(key@, value@),
            log_after_mutation(
                *old(self),
                *final(self),
                CommandModel::Put { key: key@, value: value@ },
            ),
    {
        let kcopy = copy_bytes(&key);
        let ghost vview = value@;
        let cmd = Command::Put { key, value };
        let rec = encode(&cmd);
        proof {
            lemma_round_trip(cmd@);
        }
        let ghost pre = *self;
        let p = self.log.append(&rec);
        proof {
            assert(self.log.cmds().drop_last() =~= pre.log.cmds());
            assert(self.log.cmds().last() == cmd@);
            assert(self.m() == pre.m().insert(kcopy@, vview));
        }
        self.index.put(kcopy, p);
        proof {
            self.lemma_wf_after_put(pre, kcopy@, vview, p, rec@);
            lemma_append_stage(pre, *self, cmd@, rec@);
        }
        let ghost s1 = *self;
        self.maybe_rotate();
        let ghost s2 = *self;
        proof {
            if s2.log_view() == s1.log_view().push(Seq::<u8>::empty()) {
                lemma_image_cmds_push_empty(s1.log_view());
            }
        }
        self.maybe_compact();
        proof {
            lemma_mutation_stages(pre, s1, s2, *self, cmd@);
        }
    }

    /// Re-establish the invariant after appending a put record and
    /// repointing the index at it.
    proof fn lemma_wf_after_put(
        self,
        pre: KvStore,
        k: Seq<u8>,
        v: Seq<u8>,
        p: LogPointer,
        rec: Seq<u8>,
    )
        requires
            pre.wf(),
            self.opened == pre.opened,
            self.log.wf(),
            self.log.segs().len() == pre.log.segs().len(),
            forall|i: int|
                0 <= i < pre.log.segs().len() - 1 ==> self.log.segs()[i] == pre.log.segs()[i],
            self.log.active().id == pre.log.active().id,
            self.log.active().data@ == pre.log.active().data@ + rec,
            self.log.cmds() == pre.log.cmds().push(CommandModel::Put { key: k, value: v }),
            total_len(self.log.segs()) == total_len(pre.log.segs()) + rec.len(),
            p.segment_id == pre.log.active().id,
            p.offset == pre.log.active().data@.len(),
            p.len == rec.len(),
            parse_record(rec) == Some((CommandModel::Put { key: k, value: v }, rec.len() as int)),
            self.index.wf(),
            self.index.m() == pre.index.m().insert(k, p),
            pre.index.m().contains_key(k) ==> self.index.live() == pre.index.live()
                - pre.index.m()[k].len + p.len,
            !pre.index.m().contains_key(k) ==> self.index.live() == pre.index.live() + p.len,
        ensures
            self.wf(),
            self.m() == pre.m().insert(k, v),
    {
        assert(self.log.cmds().drop_last() =~= pre.log.cmds());
        assert(self.m() == pre.m().insert(k, v));
        let ss = self.log.segs();
        let oss = pre.log.segs();
        assert(ss[ss.len() - 1] == ss.last());
        assert(ptr_valid(ss, k, p, v)) by {
            assert(ss.last().data@.subrange(p.offset as int, p.offset + p.len) =~= rec);
            assert(ss[ss.len() - 1].id == p.segment_id);
        }
        assert forall|q: Seq<u8>| #[trigger] self.index.m().contains_key(q) implies
            self.m().contains_key(q) && ptr_valid(ss, q, self.index.m()[q], self.m()[q]) by {
            if q != k {
                assert(pre.index.m().contains_key(q));
                assert(pre.m().contains_key(q));
                lemma_ptr_valid_extend(oss, ss, q, pre.index.m()[q], pre.m()[q]);
            }
        }
        assert forall|q: Seq<u8>| #[trigger] self.m().contains_key(q) implies
            self.index.m().contains_key(q) by {
            if q != k {
                assert(pre.m().contains_key(q));
            }
        }
    }

    /// Erase `key`: append a remove record and clear the index entry, or
    /// report `KeyNotFound` without touching anything when the key is absent.
    pub fn remove(&mut self, key: &Vec<u8>) -> (r: Result<(), KvError>)
        requires
            old(self).wf(),
            old(self).is_open(),
        ensures
            final(self).wf(),
            final(self).is_open(),
            old(self).m().contains_key(key@) ==> {
                &&& r is Ok
                &&& final(self).m() == old(self).m().remove(key@)
                &&& log_after_mutation(
                    *old(self),
                    *final(self),
                    CommandModel::Remove { key: key@ },
                )
            },
            !old(self).m().contains_key(key@) ==> r == Err::<(), KvError>(KvError::KeyNotFound)
                && *final(self) == *old(self),
    {
        let present = match self.index.get(key) {
            Some(_) => true,
            None => false,
        };
        if !present {
            proof {
                if self.m().contains_key(key@) {
                    assert(self.index.m().contains_key(key@));
                }
            }
            return Err(KvError::KeyNotFound);
        }
        let kcopy = copy_bytes(key);
        let cmd = Command::Remove { key: kcopy };
        let rec = encode(&cmd);
        proof {
            lemma_round_trip(cmd@);
        }
        let ghost pre = *self;
        let _p = self.log.append(&rec);
        proof {
            assert(self.log.cmds().drop_last() =~= pre.log.cmds());
            assert(self.log.cmds().last() == cmd@);
            assert(self.m() == pre.m().remove(key@));
        }
        let removed = self.index.remove(key);
        proof {
            assert(removed is Some);
            let ss = self.log.segs();
            let oss = pre.log.segs();
            assert forall|q: Seq<u8>| #[trigger] self.index.m().contains_key(q) implies
                self.m().contains_key(q) && ptr_valid(ss, q, self.index.m()[q], self.m()[q]) by {
                assert(pre.index.m().contains_key(q));
                assert(q != key@);
                assert(pre.m().contains_key(q));
                lemma_ptr_valid_extend(oss, ss, q, pre.index.m()[q], pre.m()[q]);
            }
            assert forall|q: Seq<u8>| #[trigger] self.m().contains_key(q) implies
                self.index.m().contains_key(q) by {
                assert(q != key@);
                assert(pre.m().contains_key(q));
            }
            lemma_append_stage(pre, *self, cmd@, rec@);
        }
        let ghost s1 = *self;
        self.maybe_rotate();
        let ghost s2 = *self;
        proof {
            if s2.log_view() == s1.log_view().push(Seq::<u8>::empty()) {
                lemma_image_cmds_push_empty(s1.log_view());
            }
        }
        self.maybe_compact();
        proof {
            lemma_mutation_stages(pre, s1, s2, *self, cmd@);
        }
        Ok(())
    }

    /// Seal the active segment once it has outgrown `SEGMENT_LIMIT`.
    fn maybe_rotate(&mut self)
        requires
            old(self).wf(),
        ensures
            final(self).wf(),
            final(self).is_open() == old(self).is_open(),
            final(self).m() == old(self).m(),
            final(self).log_total() == old(self).log_total(),
            final(self).live_total() == old(self).live_total(),
            final(self).log_view() == old(self).log_view() || final(self).log_view() == old(
                self,
            ).log_view().push(Seq::<u8>::empty()),
            (old(self).log_view().last().len() > SEGMENT_LIMIT as int && old(self).generation()
                < u64::MAX) ==> final(self).log_view() == old(self).log_view().push(
                Seq::<u8>::empty(),
            ),
    {
        proof {
            assert(old(self).log_view().last() == old(self).log.active().data@);
        }
        if self.log.active_len() > SEGMENT_LIMIT {
            let ghost pre = *self;
            self.log.rotate();
            proof {
                let ss = self.log.segs();
                let oss = pre.log.segs();
                if pre.log.active().id < u64::MAX {
                    assert(ss.drop_last() == oss);
                    assert(self.log_view() =~= pre.log_view().push(Seq::<u8>::empty()));
                    assert forall|q: Seq<u8>| #[trigger] self.index.m().contains_key(q) implies
                        self.m().contains_key(q) && ptr_valid(
                        ss,
                        q,
                        self.index.m()[q],
                        self.m()[q],
                    ) by {
                        assert(forall|i: int| 0 <= i < oss.len() ==> ss[i] == oss[i]);
                        assert(ss[oss.len() - 1] == oss.last());
                        lemma_ptr_valid_extend(oss, ss, q, pre.index.m()[q], pre.m()[q]);
                    }
                }
            }
        }
    }

    /// Compact when more than a third of the log is stale.  Checked after
    /// every mutation, as staleness follows the workload, not the clock.
    fn maybe_compact(&mut self)
        requires
            old(self).wf(),
            old(self).is_open(),
        ensures
            final(self).wf(),
            final(self).is_open(),
            final(self).m() == old(self).m(),
            *final(self) == *old(self) || (old(self).log_total() >= COMPACT_MIN_BYTES as int
                && compacted_form(image_cmds(final(self).log_view()), final(self).m())),
            final(self).log_total() <= old(self).log_total(),
            stale_bounded(*final(self)),
    {
        let total = self.log.total_bytes();
        let live = self.index.live_bytes();
        proof {
            lemma_live_len_nonneg(self.index@);
        }
        let stale = total - live;
        if total >= COMPACT_MIN_BYTES && stale > total / 3 {
            self.compact();
            proof {
                if old(self).generation() <= u64::MAX - 2 {
                    lemma_live_len_nonneg(old(self).index@);
                    assert(self.log_total() - self.live_total() == 0);
                    assert(stale_bounded(*self));
                } else {
                    assert(*self == *old(self));
                    assert(stale_bounded(*self));
                }
            }
        } else {
            proof {
                if total < COMPACT_MIN_BYTES {
                    assert(stale_bounded(*self));
                } else {
                    assert(self.log_total() - self.live_total() <= self.log_total() / 3);
                    assert(stale_bounded(*self));
                }
            }
        }
    }

    /// Rewrite every live record into a fresh segment, point the index at
    /// the copies, and drop all old segments.  The new state is built aside
    /// and swapped in whole, the contents are unchanged, the log never grows
    /// by compacting, and — given generation headroom — the result holds
    /// exactly the live bytes: one put record per live key and nothing else.
    pub fn compact(&mut self)
        requires
            old(self).wf(),
            old(self).is_open(),
        ensures
            final(self).wf(),
            final(self).is_open(),
            final(self).m() == old(self).m(),
            final(self).log_total() <= old(self).log_total(),
            old(self).generation() <= u64::MAX - 2 ==> {
                &&& final(self).log_total() == old(self).live_total()
                &&& final(self).live_total() == old(self).live_total()
                &&& final(self).generation() == old(self).generation() + 2
                &&& compacted_form(image_cmds(final(self).log_view()), final(self).m())
            },
            old(self).generation() > u64::MAX - 2 ==> *final(self) == *old(self),
    {
        let glast = self.log.active_id();
        if glast > u64::MAX - 2 {
            return ;
        }
        let n = self.index.len();
        let ghost entries = self.index@;
        let ghost m0 = self.m();
        let mut newdata: Vec<u8> = Vec::new();
        let mut newindex = Index::new();
        let mut i: usize = 0;
        proof {
            lemma_map_of_contains(entries);
            assert(entries.subrange(0, 0) =~= Seq::<IndexEntry>::empty());
        }
        while i < n
            invariant
                i <= n,
                n == entries.len(),
                *self == *old(self),
                self.wf(),
                self.is_open(),
                glast == self.log.active().id,
                glast <= u64::MAX - 2,
                entries == self.index@,
                m0 == self.m(),
                newindex.wf(),
                newindex@.len() == i,
                forall|j: int| 0 <= j < i ==> (#[trigger] newindex@[j]).key@ == entries[j].key@,
                forall|j: int| 0 <= j < i ==> (#[trigger] newindex@[j]).ptr.segment_id == glast
                    + 1,
                forall|j: int|
                    0 <= j < i ==> (#[trigger] newindex@[j]).ptr.offset
                        + newindex@[j].ptr.len <= newdata@.len() && parse_record(
                        newdata@.subrange(
                            newindex@[j].ptr.offset as int,
                            newindex@[j].ptr.offset + newindex@[j].ptr.len,
                        ),
                    ) == Some(
                        (
                            CommandModel::Put { key: entries[j].key@, value: m0[entries[j].key@] },
                            newindex@[j].ptr.len as int,
                        ),
                    ),
                parse_all(newdata@) == Some(live_cmds(entries.subrange(0, i as int), m0)),
                newdata@.len() == live_len(entries.subrange(0, i as int)),
                newindex.live() == live_len(entries.subrange(0, i as int)),
            decreases n - i,
        {
            let (k, p) = self.index.entry_at(i);
            let kcopy = copy_bytes(k);
            let ghost ki = entries[i as int].key@;
            let ghost vi = m0[ki];
            let ghost ci = CommandModel::Put { key: ki, value: vi };
            proof {
                lemma_map_of_at(entries, i as int);
                assert(self.index.m() == map_of(entries));
                assert(self.index.m().contains_key(ki));
                assert(self.index.m()[ki] == p);
                assert(self.m() == m0);
                assert(m0.contains_key(ki));
                assert(ptr_valid(self.log.segs(), ki, p, vi));
            }
            let res = self.log.read(p);
            proof {
                let ss = self.log.segs();
                let w = choose|w: int|
                    0 <= w < ss.len() && (#[trigger] ss[w]).id == p.segment_id && p.offset + p.len
                        <= ss[w].data@.len() && parse_record(
                        ss[w].data@.subrange(p.offset as int, p.offset + p.len),
                    ) == Some((ci, p.len as int));
                assert(res matches Ok(bytes) && bytes@ == ss[w].data@.subrange(
                    p.offset as int,
                    p.offset + p.len,
                ));
            }
            let bytes = match res {
                Ok(b) => b,
                Err(_) => {
                    proof {
                        assert(false);
                    }
                    return ;
                },
            };
            let off = newdata.len();
            let blen = bytes.len();
            let ghost olddata = newdata@;
            let ghost oldnew = newindex@;
            crate::codec::append_bytes(&mut newdata, &bytes);
            let np = LogPointer { segment_id: glast + 1, offset: off, len: blen };
            proof {
                assert(parse_record(bytes@) == Some((ci, bytes@.len() as int)));
                lemma_parse_all_append(olddata, bytes@, ci);
                assert(entries.subrange(0, i + 1).drop_last() =~= entries.subrange(0, i as int));
                assert(entries.subrange(0, i + 1).last() == entries[i as int]);
                assert(live_cmds(entries.subrange(0, i + 1), m0) =~= live_cmds(
                    entries.subrange(0, i as int),
                    m0,
                ).push(ci));
                assert(newdata@.subrange(off as int, off + blen) =~= bytes@);
                lemma_map_of_contains(oldnew);
                assert(!map_of(oldnew).contains_key(ki)) by {
                    if map_of(oldnew).contains_key(ki) {
                        let j = choose|j: int|
                            0 <= j < oldnew.len() && #[trigger] oldnew[j].key@ == ki;
                        assert(entries[j].key@ == entries[i as int].key@);
                    }
                }
            }
            newindex.put(kcopy, np);
            proof {
                assert(newindex@ =~= oldnew.push(IndexEntry { key: kcopy, ptr: np }));
                assert forall|j: int|
                    0 <= j < i + 1 implies (#[trigger] newindex@[j]).ptr.offset
                        + newindex@[j].ptr.len <= newdata@.len() && parse_record(
                        newdata@.subrange(
                            newindex@[j].ptr.offset as int,
                            newindex@[j].ptr.offset + newindex@[j].ptr.len,
                        ),
                    ) == Some(
                        (
                            CommandModel::Put { key: entries[j].key@, value: m0[entries[j].key@] },
                            newindex@[j].ptr.len as int,
                        ),
                    ) by {
                    if j < i as int {
                        assert(newindex@[j] == oldnew[j]);
                        assert(newdata@.subrange(
                            oldnew[j].ptr.offset as int,
                            oldnew[j].ptr.offset + oldnew[j].ptr.len,
                        ) =~= olddata.subrange(
                            oldnew[j].ptr.offset as int,
                            oldnew[j].ptr.offset + oldnew[j].ptr.len,
                        ));
                    } else {
                        assert(newindex@[j].ptr == np);
                    }
                }
            }
            i = i + 1;
        }
        proof {
            assert(entries.subrange(0, n as int) =~= entries);
        }
        let mut segments: Vec<Segment> = Vec::new();
        let ghost newimage = newdata@;
        segments.push(Segment { id: glast + 1, data: newdata });
        segments.push(Segment { id: glast + 2, data: Vec::new() });
        proof {
            assert(segs_parseable(segments@)) by {
                assert(segments@[0].data@ == newimage);
                assert(segments@[1].data@ =~= Seq::<u8>::empty());
                assert(parse_all(Seq::<u8>::empty()) is Some);
            }
            assert(seg_ids_increasing(segments@));
        }
        let newlog = SegmentManager::from_segments(segments);
        let ghost pre = *self;
        self.log = newlog;
        self.index = newindex;
        proof {
            let ss = self.log.segs();
            assert(ss.len() == 2);
            assert(ss.drop_last() =~= seq![ss[0]]);
            assert(seq![ss[0]].drop_last() =~= Seq::<Segment>::empty());
            assert(log_cmds(ss) =~= parse_prefix(ss[0].data@)) by {
                assert(parse_prefix(ss.last().data@) =~= Seq::<CommandModel>::empty());
                assert(log_cmds(seq![ss[0]]) =~= log_cmds(Seq::<Segment>::empty()) + parse_prefix(
                    seq![ss[0]].last().data@,
                ));
            }
            lemma_parse_prefix_of_clean(newimage);
            assert(self.log.cmds() == live_cmds(entries, m0));
            lemma_replay_live_cmds(entries, m0);
            lemma_map_of_contains(entries);
            assert(self.m() =~= m0) by {
                assert forall|k: Seq<u8>| #[trigger] self.m().contains_key(k) implies
                    m0.contains_key(k) by {
                    assert(replay(live_cmds(entries, m0)).contains_key(k));
                    let j = choose|j: int| 0 <= j < entries.len() && #[trigger] entries[j].key@ == k;
                    assert(map_of(entries).contains_key(k));
                    assert(pre.index.m().contains_key(k));
                }
                assert forall|k: Seq<u8>| #[trigger] m0.contains_key(k) implies
                    self.m().contains_key(k) && self.m()[k] == m0[k] by {
                    assert(pre.m().contains_key(k));
                    assert(pre.index.m().contains_key(k));
                    assert(map_of(entries).contains_key(k));
                    let j = choose|j: int| 0 <= j < entries.len() && #[trigger] entries[j].key@ == k;
                    assert(replay(live_cmds(entries, m0)).contains_key(entries[j].key@)
                        && replay(live_cmds(entries, m0))[entries[j].key@] == m0[entries[j].key@]);
                }
            }
            assert(total_len(ss) == newimage.len()) by {
                assert(total_len(Seq::<Segment>::empty()) == 0);
                assert(total_len(seq![ss[0]]) == newimage.len());
            }
            assert(self.index.live() <= total_len(ss));
            lemma_map_of_contains(self.index@);
            assert forall|q: Seq<u8>| #[trigger] self.index.m().contains_key(q) implies
                self.m().contains_key(q) && ptr_valid(ss, q, self.index.m()[q], self.m()[q]) by {
                let j = choose|j: int|
                    0 <= j < self.index@.len() && #[trigger] self.index@[j].key@ == q;
                lemma_map_of_at(self.index@, j);
                assert(entries[j].key@ == q);
                assert(map_of(entries).contains_key(q));
                assert(m0.contains_key(q));
                assert(self.m().contains_key(q) && self.m()[q] == m0[q]);
                assert(ss[0].id == self.index@[j].ptr.segment_id);
                assert(ptr_valid(ss, q, self.index@[j].ptr, m0[q]));
            }
            assert forall|q: Seq<u8>| #[trigger] self.m().contains_key(q) implies
                self.index.m().contains_key(q) by {
                assert(m0.contains_key(q));
                assert(pre.index.m().contains_key(q));
                let j = choose|j: int| 0 <= j < entries.len() && #[trigger] entries[j].key@ == q;
                assert(self.index@[j].key@ == q);
            }
            assert(live_len(entries) <= total_len(pre.log.segs()));
            lemma_live_cmds_shape(entries, m0);
            lemma_image_cmds_of_log(self.log.segs());
            assert(image_cmds(self.log_view()) == live_cmds(entries, m0));
            assert(compacted_form(image_cmds(self.log_view()), self.m())) by {
                let cs = live_cmds(entries, m0);
                assert forall|i: int| 0 <= i < cs.len() implies ((#[trigger] cs[i]) matches
                    CommandModel::Put { key, value } && self.m().contains_key(key) && value
                    == self.m()[key]) by {
                    lemma_map_of_at(entries, i);
                    assert(pre.index.m().contains_key(entries[i].key@));
                    assert(m0.contains_key(entries[i].key@));
                }
                assert forall|i: int, j: int| 0 <= i < j < cs.len() implies cmd_key(cs[i])
                    != cmd_key(cs[j]) by {
                    assert(cmd_key(cs[i]) == entries[i].key@);
                    assert(cmd_key(cs[j]) == entries[j].key@);
                }
                assert forall|k: Seq<u8>| #[trigger] self.m().contains_key(k) implies exists|
                    i: int,
                |
                    0 <= i < cs.len() && cmd_key(#[trigger] cs[i]) == k by {
                    assert(m0.contains_key(k));
                    assert(pre.index.m().contains_key(k));
                    let j = choose|j: int|
                        0 <= j < entries.len() && #[trigger] entries[j].key@ == k;
                    assert(cmd_key(cs[j]) == k);
                }
            }
            assert(self.log_total() == pre.index.live());
            assert(self.live_total() == pre.index.live());
            assert(self.generation() == glast + 2);
        }
    }

    /// Close the store: the log is already durable in its snapshot, so
    /// closing only ends the open lifecycle.  Idempotent.
    pub fn close(&mut self)
        requires
            old(self).wf(),
        ensures
            *final(self) == KvStore::closed_state(*old(self)),
            final(self).wf(),
            !final(self).is_open(),
            final(self).m() == old(self).m(),
    {
        self.opened = false;
        proof {
            KvStore::lemma_wf_same_core(*old(self), *self);
        }
    }

    /// A copy of every segment's bytes, in generation order: what a caller
    /// persists, and what `open` accepts to bring the store back.
    pub fn snapshot(&self) -> (r: Vec<Vec<u8>>)
        requires
            self.wf(),
        ensures
            byte_images(r@) == self.log_view(),
            r@.len() == self.log_view().len(),
            forall|i: int| 0 <= i < r@.len() ==> r@[i]@ == self.log_view()[i],
    {
        let r = self.log.datas();
        proof {
            assert(byte_images(r@) =~= self.log_view());
        }
        r
    }

    /// Closing is idempotent: a second close leaves exactly the state the
    /// first one left.
    pub proof fn lemma_close_idempotent(s: KvStore)
        ensures
            KvStore::closed_state(KvStore::closed_state(s)) == KvStore::closed_state(s),
    {
    }

    /// Recovery equivalence: replaying the byte images of a store's own log
    /// rebuilds exactly its current map, so closing, persisting the
    /// snapshot, and reopening answers every lookup as before.
    pub proof fn lemma_recovery_equivalence(s: KvStore)
        requires
            s.wf(),
        ensures
            replay(image_cmds(s.log_view())) == s.m(),
    {
        lemma_image_cmds_of_log(s.log.segs());
    }
}

impl Default for KvStore {
    /// An empty, open store, exactly as `new` builds it.
    fn default() -> (r: Self)
        ensures
            r.wf(),
            r.is_open(),
            r.m() == Map::<Seq<u8>, Seq<u8>>::empty(),
    {
        KvStore::new()
    }
}

/// After binding `k` to `v`, looking `k` up yields exactly `v`.
pub proof fn lemma_set_then_get(m: Map<Seq<u8>, Seq<u8>>, k: Seq<u8>, v: Seq<u8>)
    ensures
        m.insert(k, v).contains_key(k),
        m.insert(k, v)[k] == v,
{
}

/// After removing `k`, looking `k` up yields nothing.
pub proof fn lemma_remove_then_get(m: Map<Seq<u8>, Seq<u8>>, k: Seq<u8>)
    ensures
        !m.remove(k).contains_key(k),
{
}

} // verus!
