//! The record codec: one log record per command, self-delimiting.
//!
//! A record is a tag byte (`0` for a put, `1` for a removal), then the key
//! length as eight little-endian bytes, the key bytes, and — for a put — the
//! value length as eight little-endian bytes followed by the value bytes.
//! Length prefixes make the format self-delimiting, so a sequential scan can
//! recover record boundaries without any outside index.

use vstd::prelude::*;

use crate::KvError;

verus! {

/// A single log record: the unit appended to the command log.
#[derive(Debug, PartialEq, Eq)]
pub enum Command {
    /// Bind `key` to `value`.
    Put { key: Vec<u8>, value: Vec<u8> },
    /// Erase any binding of `key`.
    Remove { key: Vec<u8> },
}

/// The mathematical model of a command: its key and value as byte sequences.
#[verifier::ext_equal]
pub enum CommandModel {
    Put { key: Seq<u8>, value: Seq<u8> },
    Remove { key: Seq<u8> },
}

impl View for Command {
    type V = CommandModel;

    open spec fn view(&self) -> CommandModel {
        match self {
            Command::Put { key, value } => CommandModel::Put { key: key@, value: value@ },
            Command::Remove { key } => CommandModel::Remove { key: key@ },
        }
    }
}

/// A command whose lengths fit the on-disk eight-byte length prefixes.
/// Every command built from in-memory vectors satisfies this.
pub open spec fn cmd_wf(c: CommandModel) -> bool {
    match c {
        CommandModel::Put { key, value } => {
            key.len() < 0x1_0000_0000_0000_0000 && value.len() < 0x1_0000_0000_0000_0000
        },
        CommandModel::Remove { key } => key.len() < 0x1_0000_0000_0000_0000,
    }
}

/// The eight little-endian bytes of `n`.
pub open spec fn u64_le(n: u64) -> Seq<u8> {
    seq![
        (n & 0xff) as u8,
        ((n >> 8) & 0xff) as u8,
        ((n >> 16) & 0xff) as u8,
        ((n >> 24) & 0xff) as u8,
        ((n >> 32) & 0xff) as u8,
        ((n >> 40) & 0xff) as u8,
        ((n >> 48) & 0xff) as u8,
        ((n >> 56) & 0xff) as u8,
    ]
}

/// The value read back from eight little-endian bytes.
pub open spec fn le_u64(s: Seq<u8>) -> u64
    recommends
        s.len() == 8,
{
    (s[0] as u64) | ((s[1] as u64) << 8) | ((s[2] as u64) << 16) | ((s[3] as u64) << 24)
        | ((s[4] as u64) << 32) | ((s[5] as u64) << 40) | ((s[6] as u64) << 48) | (
    (s[7] as u64) << 56)
}

pub proof fn lemma_u64_le_roundtrip(n: u64)
    ensures
        le_u64(u64_le(n)) == n,
{
    assert(((n & 0xff) as u8 as u64) | ((((n >> 8) & 0xff) as u8 as u64) << 8) | ((((n >> 16)
        & 0xff) as u8 as u64) << 16) | ((((n >> 24) & 0xff) as u8 as u64) << 24) | ((((n >> 32)
        & 0xff) as u8 as u64) << 32) | ((((n >> 40) & 0xff) as u8 as u64) << 40) | ((((n >> 48)
        & 0xff) as u8 as u64) << 48) | ((((n >> 56) & 0xff) as u8 as u64) << 56) == n)
        by (bit_vector);
}

/// The serialized form of a command.
pub open spec fn encode_model(c: CommandModel) -> Seq<u8> {
    match c {
        CommandModel::Put { key, value } => {
            seq![0u8] + u64_le(key.len() as u64) + key + u64_le(value.len() as u64) + value
        },
        CommandModel::Remove { key } => seq![1u8] + u64_le(key.len() as u64) + key,
    }
}

/// Parse one record from the front of `s`: the command and the number of
/// bytes it occupies, or `None` when no well-formed record starts `s`.
pub open spec fn parse_record(s: Seq<u8>) -> Option<(CommandModel, int)> {
    if s.len() < 9 {
        None
    } else {
        let klen = le_u64(s.subrange(1, 9)) as int;
        if s[0] == 0u8 {
            if s.len() >= 17 + klen {
                let vlen = le_u64(s.subrange(9 + klen, 17 + klen)) as int;
                if s.len() >= 17 + klen + vlen {
                    Some(
                        (
                            CommandModel::Put {
                                key: s.subrange(9, 9 + klen),
                                value: s.subrange(17 + klen, 17 + klen + vlen),
                            },
                            17 + klen + vlen,
                        ),
                    )
                } else {
                    None
                }
            } else {
                None
            }
        } else if s[0] == 1u8 {
            if s.len() >= 9 + klen {
                Some((CommandModel::Remove { key: s.subrange(9, 9 + klen) }, 9 + klen))
            } else {
                None
            }
        } else {
            None
        }
    }
}

pub proof fn lemma_parse_record_bounds(s: Seq<u8>)
    requires
        parse_record(s) is Some,
    ensures
        9 <= parse_record(s)->Some_0.1 <= s.len(),
        cmd_wf(parse_record(s)->Some_0.0),
{
}

/// Parsing reads only the record's own bytes: any byte sequence that agrees
/// with `s` on those bytes parses to the same record.
pub proof fn lemma_parse_record_depends_on_prefix(s: Seq<u8>, t: Seq<u8>)
    requires
        parse_record(s) is Some,
        t.len() >= parse_record(s)->Some_0.1,
        forall|i: int| 0 <= i < parse_record(s)->Some_0.1 ==> t[i] == s[i],
    ensures
        parse_record(t) == parse_record(s),
{
    let n = parse_record(s)->Some_0.1;
    assert(t.subrange(1, 9) =~= s.subrange(1, 9));
    let klen = le_u64(s.subrange(1, 9)) as int;
    if s[0] == 0u8 {
        assert(t.subrange(9 + klen, 17 + klen) =~= s.subrange(9 + klen, 17 + klen));
        let vlen = le_u64(s.subrange(9 + klen, 17 + klen)) as int;
        assert(t.subrange(9, 9 + klen) =~= s.subrange(9, 9 + klen));
        assert(t.subrange(17 + klen, 17 + klen + vlen) =~= s.subrange(17 + klen, 17 + klen + vlen));
    } else {
        assert(t.subrange(9, 9 + klen) =~= s.subrange(9, 9 + klen));
    }
}

/// Round trip: decoding an encoded command yields exactly that command and
/// consumes exactly its encoding.
pub proof fn lemma_round_trip(c: CommandModel)
    requires
        cmd_wf(c),
    ensures
        parse_record(encode_model(c)) == Some((c, encode_model(c).len() as int)),
{
    let e = encode_model(c);
    match c {
        CommandModel::Put { key, value } => {
            let kl = key.len() as u64;
            let vl = value.len() as u64;
            assert(e.len() == 17 + key.len() + value.len());
            assert(e[0] == 0u8);
            assert(e.subrange(1, 9) =~= u64_le(kl));
            lemma_u64_le_roundtrip(kl);
            let klen = le_u64(e.subrange(1, 9)) as int;
            assert(klen == key.len());
            assert(e.subrange(9, 9 + klen) =~= key);
            assert(e.subrange(9 + klen, 17 + klen) =~= u64_le(vl));
            lemma_u64_le_roundtrip(vl);
            let vlen = le_u64(e.subrange(9 + klen, 17 + klen)) as int;
            assert(vlen == value.len());
            assert(e.subrange(17 + klen, 17 + klen + vlen) =~= value);
        },
        CommandModel::Remove { key } => {
            let kl = key.len() as u64;
            assert(e.len() == 9 + key.len());
            assert(e[0] == 1u8);
            assert(e.subrange(1, 9) =~= u64_le(kl));
            lemma_u64_le_roundtrip(kl);
            let klen = le_u64(e.subrange(1, 9)) as int;
            assert(klen == key.len());
            assert(e.subrange(9, 9 + klen) =~= key);
        },
    }
}

/// Parse a whole byte sequence as a concatenation of records, or `None` when
/// anything — even a trailing fragment — fails to parse.
pub open spec fn parse_all(s: Seq<u8>) -> Option<Seq<CommandModel>>
    decreases s.len(),
{
    if s.len() == 0 {
        Some(Seq::empty())
    } else {
        match parse_record(s) {
            None => None,
            Some((c, n)) => {
                if 1 <= n <= s.len() {
                    match parse_all(s.subrange(n, s.len() as int)) {
                        None => None,
                        Some(rest) => Some(seq![c] + rest),
                    }
                } else {
                    None
                }
            },
        }
    }
}

/// Parse as many whole records as the front of `s` holds, discarding the
/// rest: the truncate-and-continue reading of a log tail.
pub open spec fn parse_prefix(s: Seq<u8>) -> Seq<CommandModel>
    decreases s.len(),
{
    if s.len() == 0 {
        Seq::empty()
    } else {
        match parse_record(s) {
            None => Seq::empty(),
            Some((c, n)) => {
                if 1 <= n <= s.len() {
                    seq![c] + parse_prefix(s.subrange(n, s.len() as int))
                } else {
                    seq![c]
                }
            },
        }
    }
}

/// On a fully well-formed sequence the lenient parse agrees with the strict one.
pub proof fn lemma_parse_prefix_of_clean(s: Seq<u8>)
    requires
        parse_all(s) is Some,
    ensures
        parse_prefix(s) == parse_all(s)->Some_0,
    decreases s.len(),
{
    if s.len() == 0 {
    } else {
        let (c, n) = parse_record(s)->Some_0;
        lemma_parse_record_bounds(s);
        lemma_parse_prefix_of_clean(s.subrange(n, s.len() as int));
    }
}

/// Appending one whole record to a well-formed sequence appends its command.
pub proof fn lemma_parse_all_append(s: Seq<u8>, r: Seq<u8>, c: CommandModel)
    requires
        parse_all(s) is Some,
        parse_record(r) == Some((c, r.len() as int)),
    ensures
        parse_all(s + r) == Some(parse_all(s)->Some_0.push(c)),
    decreases s.len(),
{
    lemma_parse_record_bounds(r);
    if s.len() == 0 {
        assert(s + r =~= r);
        let n = r.len() as int;
        assert(r.subrange(n, n) =~= Seq::<u8>::empty());
        assert(parse_all(Seq::<u8>::empty()) == Some(Seq::<CommandModel>::empty()));
        assert(seq![c] + Seq::<CommandModel>::empty() =~= seq![c]);
        assert(parse_all(r) == Some(seq![c]));
        assert(parse_all(s)->Some_0.push(c) =~= seq![c]);
    } else {
        let (c0, n0) = parse_record(s)->Some_0;
        lemma_parse_record_bounds(s);
        lemma_parse_record_depends_on_prefix(s, s + r);
        assert((s + r).subrange(n0, (s + r).len() as int) =~= s.subrange(n0, s.len() as int) + r);
        lemma_parse_all_append(s.subrange(n0, s.len() as int), r, c);
        let rest = parse_all(s.subrange(n0, s.len() as int))->Some_0;
        assert(parse_all(s + r) == Some(seq![c0] + rest.push(c)));
        assert(seq![c0] + rest.push(c) =~= (seq![c0] + rest).push(c));
        assert(parse_all(s)->Some_0 == seq![c0] + rest);
    }
}

/// Copy `data[start .. start + n]` into a fresh vector.
pub(crate) fn copy_range(data: &Vec<u8>, start: usize, n: usize) -> (r: Vec<u8>)
    requires
        start + n <= data@.len(),
    ensures
        r@ == data@.subrange(start as int, start + n),
{
    let dlen = data.len();
    let mut out: Vec<u8> = Vec::new();
    let mut i: usize = 0;
    while i < n
        invariant
            i <= n,
            start + n <= dlen,
            dlen == data@.len(),
            out@ =~= data@.subrange(start as int, start + i),
        decreases n - i,
    {
        out.push(data[start + i]);
        i = i + 1;
    }
    out
}

/// Append every byte of `src` to `dst`.
pub(crate) fn append_bytes(dst: &mut Vec<u8>, src: &Vec<u8>)
    ensures
        final(dst)@ == old(dst)@ + src@,
{
    let n = src.len();
    let mut i: usize = 0;
    while i < n
        invariant
            i <= n,
            n == src@.len(),
            dst@ =~= old(dst)@ + src@.subrange(0, i as int),
        decreases n - i,
    {
        dst.push(src[i]);
        i = i + 1;
    }
    assert(dst@ =~= old(dst)@ + src@);
}

/// Compare two byte vectors for equality.
pub(crate) fn bytes_eq(a: &Vec<u8>, b: &Vec<u8>) -> (r: bool)
    ensures
        r == (a@ == b@),
{
    if a.len() != b.len() {
        return false;
    }
    let n = a.len();
    let mut i: usize = 0;
    while i < n
        invariant
            i <= n,
            n == a@.len() == b@.len(),
            forall|j: int| 0 <= j < i ==> a@[j] == b@[j],
        decreases n - i,
    {
        if a[i] != b[i] {
            return false;
        }
        i = i + 1;
    }
    assert(a@ =~= b@);
    true
}

/// Copy a byte vector.
pub(crate) fn copy_bytes(data: &Vec<u8>) -> (r: Vec<u8>)
    ensures
        r@ == data@,
{
    let n = data.len();
    let r = copy_range(data, 0, n);
    assert(data@.subrange(0, n as int) =~= data@);
    r
}

/// Append the eight little-endian bytes of `n` to `out`.
fn push_u64_le(out: &mut Vec<u8>, n: u64)
    ensures
        final(out)@ == old(out)@ + u64_le(n),
{
    out.push((n & 0xff) as u8);
    out.push(((n >> 8) & 0xff) as u8);
    out.push(((n >> 16) & 0xff) as u8);
    out.push(((n >> 24) & 0xff) as u8);
    out.push(((n >> 32) & 0xff) as u8);
    out.push(((n >> 40) & 0xff) as u8);
    out.push(((n >> 48) & 0xff) as u8);
    out.push(((n >> 56) & 0xff) as u8);
    assert(out@ =~= old(out)@ + u64_le(n));
}

/// Serialize one command.
pub fn encode(c: &Command) -> (r: Vec<u8>)
    ensures
        r@ == encode_model(c@),
        cmd_wf(c@),
{
    match c {
        Command::Put { key, value } => {
            let mut out: Vec<u8> = Vec::new();
            out.push(0u8);
            push_u64_le(&mut out, key.len() as u64);
            append_bytes(&mut out, key);
            push_u64_le(&mut out, value.len() as u64);
            append_bytes(&mut out, value);
            assert(out@ =~= seq![0u8] + u64_le(key@.len() as u64) + key@ + u64_le(
                value@.len() as u64,
            ) + value@);
            out
        },
        Command::Remove { key } => {
            let mut out: Vec<u8> = Vec::new();
            out.push(1u8);
            push_u64_le(&mut out, key.len() as u64);
            append_bytes(&mut out, key);
            assert(out@ =~= seq![1u8] + u64_le(key@.len() as u64) + key@);
            out
        },
    }
}

/// Read eight little-endian bytes starting at `off`.
fn read_u64_le(data: &Vec<u8>, off: usize) -> (r: u64)
    requires
        off + 8 <= data@.len(),
    ensures
        r == le_u64(data@.subrange(off as int, off + 8)),
{
    let dlen = data.len();
    assert(off + 8 <= dlen);
    let r = (data[off] as u64) | ((data[off + 1] as u64) << 8) | ((data[off + 2] as u64) << 16) | (
    (data[off + 3] as u64) << 24) | ((data[off + 4] as u64) << 32) | ((data[off + 5] as u64) << 40)
        | ((data[off + 6] as u64) << 48) | ((data[off + 7] as u64) << 56);
    assert(data@.subrange(off as int, off + 8)[0] == data@[off as int]);
    r
}

/// What `decode` sees at `offset`: the parse of the byte suffix there.
pub open spec fn parse_at(s: Seq<u8>, off: int) -> Option<(CommandModel, int)> {
    if 0 <= off <= s.len() {
        parse_record(s.subrange(off, s.len() as int))
    } else {
        None
    }
}

/// Deserialize the record starting at `offset`, returning the command and the
/// number of bytes it occupied, or `CorruptRecord` when the bytes there do
/// not form a record.
pub fn decode(data: &Vec<u8>, offset: usize) -> (r: Result<(Command, usize), KvError>)
    ensures
        match r {
            Ok(p) => parse_at(data@, offset as int) == Some((p.0@, p.1 as int)),
            Err(e) => e == KvError::CorruptRecord && parse_at(data@, offset as int) is None,
        },
{
    let len = data.len();
    if offset > len {
        return Err(KvError::CorruptRecord);
    }
    let ghost rest = data@.subrange(offset as int, len as int);
    let avail = len - offset;
    if avail < 9 {
        return Err(KvError::CorruptRecord);
    }
    let tag = data[offset];
    assert(rest[0] == tag);
    let klen64 = read_u64_le(data, offset + 1);
    assert(data@.subrange(offset + 1, offset + 9) =~= rest.subrange(1, 9));
    let ghost klen = le_u64(rest.subrange(1, 9)) as int;
    if tag == 0u8 {
        if avail < 17 || klen64 > (avail - 17) as u64 {
            assert(parse_record(rest) is None) by {
                assert(rest.len() < 17 + klen);
            }
            return Err(KvError::CorruptRecord);
        }
        let klenu = klen64 as usize;
        assert(klenu as int == klen);
        let vlen64 = read_u64_le(data, offset + 9 + klenu);
        assert(data@.subrange(offset + 9 + klen, offset + 17 + klen) =~= rest.subrange(
            9 + klen,
            17 + klen,
        ));
        let ghost vlen = le_u64(rest.subrange(9 + klen, 17 + klen)) as int;
        if vlen64 > (avail - 17 - klenu) as u64 {
            assert(parse_record(rest) is None) by {
                assert(rest.len() < 17 + klen + vlen);
            }
            return Err(KvError::CorruptRecord);
        }
        let vlenu = vlen64 as usize;
        assert(vlenu as int == vlen);
        let key = copy_range(data, offset + 9, klenu);
        let value = copy_range(data, offset + 17 + klenu, vlenu);
        let consumed = 17 + klenu + vlenu;
        assert(key@ =~= rest.subrange(9, 9 + klen));
        assert(value@ =~= rest.subrange(17 + klen, 17 + klen + vlen));
        Ok((Command::Put { key, value }, consumed))
    } else if tag == 1u8 {
        if klen64 > (avail - 9) as u64 {
            assert(parse_record(rest) is None) by {
                assert(rest.len() < 9 + klen);
            }
            return Err(KvError::CorruptRecord);
        }
        let klenu = klen64 as usize;
        assert(klenu as int == klen);
        let key = copy_range(data, offset + 9, klenu);
        let consumed = 9 + klenu;
        assert(key@ =~= rest.subrange(9, 9 + klen));
        Ok((Command::Remove { key }, consumed))
    } else {
        Err(KvError::CorruptRecord)
    }
}

/// Trim `data` back to its longest prefix that is a whole number of records:
/// the truncate-and-continue recovery policy for a crash-torn log tail.
#[verifier::rlimit(60)]
pub fn sanitize(data: Vec<u8>) -> (r: Vec<u8>)
    ensures
        parse_all(r@) == Some(parse_prefix(data@)),
{
    let mut data = data;
    let len = data.len();
    let mut pos: usize = 0;
    let ghost whole = data@;
    proof {
        assert(whole.subrange(0, 0) =~= Seq::<u8>::empty());
        assert(whole.subrange(0, len as int) =~= whole);
        assert(Seq::<CommandModel>::empty() + parse_prefix(whole) =~= parse_prefix(whole));
    }
    loop
        invariant
            data@ == whole,
            len == whole.len(),
            pos <= len,
            parse_all(whole.subrange(0, pos as int)) is Some,
            parse_prefix(whole) =~= parse_all(whole.subrange(0, pos as int))->Some_0
                + parse_prefix(whole.subrange(pos as int, len as int)),
        ensures
            pos <= len,
            parse_all(whole.subrange(0, pos as int)) == Some(parse_prefix(whole)),
        decreases len - pos,
    {
        match decode(&data, pos) {
            Err(_) => {
                proof {
                    if pos < len {
                        assert(parse_prefix(whole.subrange(pos as int, len as int))
                            =~= Seq::<CommandModel>::empty());
                    } else {
                        assert(whole.subrange(pos as int, len as int) =~= Seq::<u8>::empty());
                    }
                    assert(parse_prefix(whole) =~= parse_all(whole.subrange(0, pos as int))->Some_0);
                    let p = parse_all(whole.subrange(0, pos as int));
                    assert(p == Some(p->Some_0));
                }
                break;
            },
            Ok((_, n)) => {
                proof {
                    let rest = whole.subrange(pos as int, len as int);
                    let (c, ni) = parse_record(rest)->Some_0;
                    lemma_parse_record_bounds(rest);
                    lemma_parse_record_depends_on_prefix(rest, rest.subrange(0, ni));
                    assert(whole.subrange(pos as int, pos + ni) =~= rest.subrange(0, ni));
                    lemma_parse_all_append(
                        whole.subrange(0, pos as int),
                        whole.subrange(pos as int, pos + ni),
                        c,
                    );
                    assert(whole.subrange(0, pos as int) + whole.subrange(pos as int, pos + ni)
                        =~= whole.subrange(0, pos + ni));
                    assert(rest.subrange(ni, rest.len() as int) =~= whole.subrange(
                        pos + ni,
                        len as int,
                    ));
                    assert(parse_prefix(rest) =~= seq![c] + parse_prefix(
                        rest.subrange(ni, rest.len() as int),
                    ));
                    assert(parse_all(whole.subrange(0, pos as int))->Some_0 + parse_prefix(whole.subrange(pos as int, len as int))
                        =~= parse_all(whole.subrange(0, pos + ni))->Some_0 + parse_prefix(
                        whole.subrange(pos + ni, len as int),
                    ));
                }
                pos = pos + n;
            },
        }
    }
    data.truncate(pos);
    assert(data@ == whole.subrange(0, pos as int));
    data
}

} // verus!
