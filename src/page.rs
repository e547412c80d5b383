use vstd::prelude::*;

use crate::codec::{lemma_u64_round_trip, read_u64, u64_at, u64_bytes};
use crate::kind::PageKind;
use crate::ptr::PagePtr;

verus! {

/// Byte layout of every page: an 18-byte header, then the records.
///
/// | offset | size | field                                      |
/// |--------|------|--------------------------------------------|
/// | 0      | 8    | version, big-endian                        |
/// | 8      | 1    | size class                                 |
/// | 9      | 1    | kind code                                  |
/// | 10     | 8    | next pointer, encoded; zero when absent    |
///
/// A record is its sequence number (8 bytes), a tag (0 for a put, 1 for a
/// delete), the key length (8 bytes), for a put the value length (8 bytes),
/// then the key and the value. A delete carries no value bytes.
pub const HEADER_LEN: usize = 18;

pub const TAG_PUT: u8 = 0;

pub const TAG_DELETE: u8 = 1;

/// What a record says about its key.
pub ghost enum ValueModel {
    Put(Seq<u8>),
    Delete,
}

/// A record as the format stores it.
pub ghost struct RecordModel {
    pub lsn: u64,
    pub key: Seq<u8>,
    pub value: ValueModel,
}

// ---- header ----

pub open spec fn header_ok(b: Seq<u8>) -> bool {
    b.len() >= HEADER_LEN && PageKind::from_code_spec(b[9]) is Some
}

pub open spec fn page_ver(b: Seq<u8>) -> u64 {
    u64_at(b, 0)
}

pub open spec fn page_len(b: Seq<u8>) -> u8 {
    b[8]
}

pub open spec fn page_kind(b: Seq<u8>) -> PageKind {
    PageKind::from_code_spec(b[9]).unwrap()
}

pub open spec fn next_raw(b: Seq<u8>) -> u64 {
    u64_at(b, 10)
}

pub open spec fn page_next(b: Seq<u8>) -> Option<PagePtr> {
    if next_raw(b) == 0 {
        None
    } else {
        Some(PagePtr::decode_spec(next_raw(b)))
    }
}

/// The raw word that stores an optional next pointer.
pub open spec fn next_word(next: Option<PagePtr>) -> u64 {
    match next {
        Some(p) => p.encode_spec(),
        None => 0,
    }
}

pub open spec fn header_bytes(ver: u64, len: u8, kind: PageKind, next: Option<PagePtr>) -> Seq<
    u8,
> {
    u64_bytes(ver) + seq![len, kind.code_spec()] + u64_bytes(next_word(next))
}

// ---- records ----

/// The bytes of one record.
pub open spec fn encode_record(r: RecordModel) -> Seq<u8> {
    match r.value {
        ValueModel::Delete => u64_bytes(r.lsn) + seq![TAG_DELETE] + u64_bytes(r.key.len() as u64)
            + r.key,
        ValueModel::Put(v) => u64_bytes(r.lsn) + seq![TAG_PUT] + u64_bytes(r.key.len() as u64)
            + u64_bytes(v.len() as u64) + r.key + v,
    }
}

/// A record whose lengths fit in the 8-byte length fields.
pub open spec fn record_fits(r: RecordModel) -> bool {
    r.key.len() <= u64::MAX && match r.value {
        ValueModel::Put(v) => v.len() <= u64::MAX,
        ValueModel::Delete => true,
    }
}

/// The record that starts at `pos`, with the position just past it.
pub open spec fn record_at(b: Seq<u8>, pos: int) -> Option<(RecordModel, int)> {
    if pos < 0 || pos + 17 > b.len() {
        None
    } else {
        let lsn = u64_at(b, pos);
        let klen = u64_at(b, pos + 9) as int;
        if b[pos + 8] == TAG_DELETE {
            let ks = pos + 17;
            if ks + klen > b.len() {
                None
            } else {
                Some(
                    (
                        RecordModel { lsn, key: b.subrange(ks, ks + klen), value: ValueModel::Delete },
                        ks + klen,
                    ),
                )
            }
        } else if b[pos + 8] == TAG_PUT && pos + 25 <= b.len() {
            let vlen = u64_at(b, pos + 17) as int;
            let ks = pos + 25;
            if ks + klen + vlen > b.len() {
                None
            } else {
                Some(
                    (
                        RecordModel {
                            lsn,
                            key: b.subrange(ks, ks + klen),
                            value: ValueModel::Put(b.subrange(ks + klen, ks + klen + vlen)),
                        },
                        ks + klen + vlen,
                    ),
                )
            }
        } else {
            None
        }
    }
}

/// The records from `pos` to the end of `b`, if they all parse.
pub open spec fn records_from(b: Seq<u8>, pos: int) -> Option<Seq<RecordModel>>
    decreases b.len() - pos,
{
    if pos >= b.len() {
        Some(Seq::empty())
    } else {
        match record_at(b, pos) {
            Some((r, n)) => if n > pos {
                match records_from(b, n) {
                    Some(rs) => Some(seq![r] + rs),
                    None => None,
                }
            } else {
                None
            },
            None => None,
        }
    }
}

/// The records of a page, in the order they were added.
pub open spec fn page_records(b: Seq<u8>) -> Option<Seq<RecordModel>> {
    records_from(b, HEADER_LEN as int)
}

/// A page whose header and records both parse.
pub open spec fn page_wf(b: Seq<u8>) -> bool {
    header_ok(b) && page_records(b) is Some
}

/// Whether some record has key `k`.
pub open spec fn has_key(rs: Seq<RecordModel>, k: Seq<u8>) -> bool {
    exists|m: int| 0 <= m < rs.len() && #[trigger] rs[m].key == k
}

/// No two records share a key.
pub open spec fn keys_unique(rs: Seq<RecordModel>) -> bool {
    forall|m1: int, m2: int|
        0 <= m1 < rs.len() && 0 <= m2 < rs.len() && #[trigger] rs[m1].key == #[trigger] rs[m2].key
            ==> m1 == m2
}

/// What the first record for `k` says, if any record has that key.
pub open spec fn find(rs: Seq<RecordModel>, k: Seq<u8>) -> Option<ValueModel>
    decreases rs.len(),
{
    if rs.len() == 0 {
        None
    } else if rs[0].key == k {
        Some(rs[0].value)
    } else {
        find(rs.drop_first(), k)
    }
}

// ---- lemmas on the format ----

proof fn lemma_extend_sub(b: Seq<u8>, t: Seq<u8>, x: int, y: int)
    requires
        0 <= x <= y <= b.len(),
    ensures
        (b + t).subrange(x, y) == b.subrange(x, y),
{
    assert((b + t).subrange(x, y) =~= b.subrange(x, y));
}

proof fn lemma_extend_u64(b: Seq<u8>, t: Seq<u8>, pos: int)
    requires
        0 <= pos,
        pos + 8 <= b.len(),
    ensures
        u64_at(b + t, pos) == u64_at(b, pos),
{
    let c = b + t;
    assert(c[pos] == b[pos] && c[pos + 1] == b[pos + 1] && c[pos + 2] == b[pos + 2] && c[pos + 3]
        == b[pos + 3] && c[pos + 4] == b[pos + 4] && c[pos + 5] == b[pos + 5] && c[pos + 6] == b[pos
        + 6] && c[pos + 7] == b[pos + 7]);
}

/// Bytes appended after a record do not change it.
proof fn lemma_record_at_extend(b: Seq<u8>, t: Seq<u8>, pos: int)
    requires
        record_at(b, pos) is Some,
    ensures
        record_at(b + t, pos) == record_at(b, pos),
{
    let c = b + t;
    lemma_extend_u64(b, t, pos);
    lemma_extend_u64(b, t, pos + 9);
    assert(c[pos + 8] == b[pos + 8]);
    let klen = u64_at(b, pos + 9) as int;
    if b[pos + 8] == TAG_DELETE {
        lemma_extend_sub(b, t, pos + 17, pos + 17 + klen);
    } else {
        lemma_extend_u64(b, t, pos + 17);
        let vlen = u64_at(b, pos + 17) as int;
        lemma_extend_sub(b, t, pos + 25, pos + 25 + klen);
        lemma_extend_sub(b, t, pos + 25 + klen, pos + 25 + klen + vlen);
    }
}

/// An encoded record parses back to itself.
proof fn lemma_record_at_encode(a: Seq<u8>, r: RecordModel)
    requires
        record_fits(r),
    ensures
        record_at(a + encode_record(r), a.len() as int) == Some(
            (r, (a.len() + encode_record(r).len()) as int),
        ),
{
    let e = encode_record(r);
    let b = a + e;
    let p = a.len() as int;
    let kl = r.key.len() as u64;
    assert(b.subrange(p, p + 8) =~= u64_bytes(r.lsn));
    lemma_u64_round_trip(b, p, r.lsn);
    assert(b.subrange(p + 9, p + 17) =~= u64_bytes(kl));
    lemma_u64_round_trip(b, p + 9, kl);
    match r.value {
        ValueModel::Delete => {
            assert(b[p + 8] == TAG_DELETE);
            assert(b.subrange(p + 17, p + 17 + r.key.len()) =~= r.key);
        },
        ValueModel::Put(v) => {
            let vl = v.len() as u64;
            assert(b[p + 8] == TAG_PUT);
            assert(b.subrange(p + 17, p + 25) =~= u64_bytes(vl));
            lemma_u64_round_trip(b, p + 17, vl);
            assert(b.subrange(p + 25, p + 25 + r.key.len()) =~= r.key);
            assert(b.subrange(p + 25 + r.key.len(), p + 25 + r.key.len() + v.len()) =~= v);
        },
    }
}

/// Appending an encoded record to a buffer whose records parse adds that
/// record at the end.
pub proof fn lemma_records_append(b: Seq<u8>, pos: int, r: RecordModel)
    requires
        0 <= pos <= b.len(),
        records_from(b, pos) is Some,
        record_fits(r),
    ensures
        records_from(b + encode_record(r), pos) == Some(records_from(b, pos).unwrap().push(r)),
    decreases b.len() - pos,
{
    let e = encode_record(r);
    let c = b + e;
    if pos == b.len() {
        lemma_record_at_encode(b, r);
        assert(records_from(c, pos + e.len()) == Some(Seq::<RecordModel>::empty()));
        assert(seq![r] + Seq::<RecordModel>::empty() =~= Seq::<RecordModel>::empty().push(r));
    } else {
        let (m, n) = record_at(b, pos).unwrap();
        lemma_record_at_extend(b, e, pos);
        lemma_records_append(b, n, r);
        let rs = records_from(b, n).unwrap();
        assert(seq![m] + rs.push(r) =~= (seq![m] + rs).push(r));
    }
}

/// Appending bytes after the header does not change the header fields.
pub proof fn lemma_header_extend(b: Seq<u8>, t: Seq<u8>)
    requires
        b.len() >= HEADER_LEN,
    ensures
        page_ver(b + t) == page_ver(b),
        page_len(b + t) == page_len(b),
        (b + t)[9] == b[9],
        next_raw(b + t) == next_raw(b),
{
    lemma_extend_u64(b, t, 0);
    lemma_extend_u64(b, t, 10);
}

/// A freshly written header reads back its fields and holds no records.
pub proof fn lemma_header_bytes(ver: u64, len: u8, kind: PageKind, next: Option<PagePtr>)
    requires
        match next {
            Some(p) => p.valid(),
            None => true,
        },
    ensures
        header_ok(header_bytes(ver, len, kind, next)),
        page_ver(header_bytes(ver, len, kind, next)) == ver,
        page_len(header_bytes(ver, len, kind, next)) == len,
        page_kind(header_bytes(ver, len, kind, next)) == kind,
        page_next(header_bytes(ver, len, kind, next)) == next,
        page_records(header_bytes(ver, len, kind, next)) == Some(Seq::<RecordModel>::empty()),
{
    let h = header_bytes(ver, len, kind, next);
    assert(h.subrange(0, 8) =~= u64_bytes(ver));
    lemma_u64_round_trip(h, 0, ver);
    assert(h.subrange(10, 18) =~= u64_bytes(next_word(next)));
    lemma_u64_round_trip(h, 10, next_word(next));
    assert(h[9] == kind.code_spec());
    crate::kind::lemma_classification(kind);
    match next {
        Some(p) => crate::ptr::lemma_decode_encode(p),
        None => {},
    }
}

// ---- executable parsing ----

/// Where the parts of one record lie in a buffer.
pub struct RecordSpan {
    pub lsn: u64,
    pub is_put: bool,
    pub key_start: usize,
    pub key_end: usize,
    pub end: usize,
}

/// Whether a span describes the record that `record_at` finds.
pub open spec fn span_matches(b: Seq<u8>, s: RecordSpan, m: RecordModel, n: int) -> bool {
    &&& s.lsn == m.lsn
    &&& s.key_start <= s.key_end <= s.end <= b.len()
    &&& m.key == b.subrange(s.key_start as int, s.key_end as int)
    &&& s.end == n
    &&& s.is_put <==> m.value is Put
    &&& s.is_put ==> m.value == ValueModel::Put(b.subrange(s.key_end as int, s.end as int))
}

pub fn parse_record(b: &[u8], pos: usize) -> (r: Option<RecordSpan>)
    ensures
        r is Some <==> record_at(b@, pos as int) is Some,
        r is Some ==> span_matches(
            b@,
            r.unwrap(),
            record_at(b@, pos as int).unwrap().0,
            record_at(b@, pos as int).unwrap().1,
        ),
{
    let len = b.len();
    if pos > len || len - pos < 17 {
        return None;
    }
    let lsn = read_u64(b, pos);
    let tag = b[pos + 8];
    let klen = read_u64(b, pos + 9);
    if tag == TAG_DELETE {
        let ks = pos + 17;
        if klen > (len - ks) as u64 {
            return None;
        }
        let ke = ks + klen as usize;
        Some(RecordSpan { lsn, is_put: false, key_start: ks, key_end: ke, end: ke })
    } else if tag == TAG_PUT && len - pos >= 25 {
        let vlen = read_u64(b, pos + 17);
        let ks = pos + 25;
        if klen > (len - ks) as u64 {
            return None;
        }
        let ke = ks + klen as usize;
        if vlen > (len - ke) as u64 {
            return None;
        }
        let ve = ke + vlen as usize;
        Some(RecordSpan { lsn, is_put: true, key_start: ks, key_end: ke, end: ve })
    } else {
        None
    }
}

} // verus!
