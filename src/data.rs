use vstd::prelude::*;
use vstd::slice::{slice_subrange, slice_to_vec};

use crate::codec::{read_u64, u64_at, write_u64};
use crate::kind::PageKind;
use crate::page::{
    encode_record, find, has_key, header_bytes, header_ok, keys_unique, page_kind, page_len,
    page_next, page_records, page_ver, page_wf, parse_record, record_at, records_from, RecordModel,
    ValueModel, HEADER_LEN, TAG_DELETE, TAG_PUT,
};
use crate::ptr::{PagePtr, MAX_OFFSET};

verus! {

// ---- byte helpers ----

fn append_bytes(out: &mut Vec<u8>, src: &[u8])
    ensures
        final(out)@ == old(out)@ + src@,
{
    let mut i: usize = 0;
    while i < src.len()
        invariant
            i <= src@.len(),
            out@ == old(out)@ + src@.subrange(0, i as int),
        decreases src@.len() - i,
    {
        out.push(src[i]);
        i = i + 1;
        assert(src@.subrange(0, i as int) =~= src@.subrange(0, i - 1 as int).push(src@[i - 1]));
    }
    assert(src@.subrange(0, i as int) =~= src@);
}

/// Whether the bytes of `b` in `[start, end)` equal `key`.
fn bytes_eq(b: &[u8], start: usize, end: usize, key: &[u8]) -> (r: bool)
    requires
        start <= end <= b@.len(),
    ensures
        r == (b@.subrange(start as int, end as int) == key@),
{
    if end - start != key.len() {
        return false;
    }
    let mut i: usize = 0;
    while i < key.len()
        invariant
            end - start == key@.len(),
            start <= end <= b@.len(),
            i <= key@.len(),
            forall|j: int| 0 <= j < i ==> b@[start + j] == key@[j],
        decreases key@.len() - i,
    {
        if b[start + i] != key[i] {
            assert(b@.subrange(start as int, end as int)[i as int] != key@[i as int]);
            return false;
        }
        i = i + 1;
    }
    assert(b@.subrange(start as int, end as int) =~= key@);
    true
}

/// Whether two byte strings are equal.
pub(crate) fn slices_eq(a: &[u8], b: &[u8]) -> (r: bool)
    ensures
        r == (a@ == b@),
{
    assert(a@.subrange(0, a@.len() as int) =~= a@);
    bytes_eq(a, 0, a.len(), b)
}

/// The size class stored in a header: the length in 256-byte blocks,
/// rounded up and capped at 255.
pub open spec fn size_class(n: nat) -> u8 {
    if n >= 255 * 256 {
        255
    } else {
        ((n + 255) / 256) as u8
    }
}

fn size_class_of(n: usize) -> (c: u8)
    ensures
        c == size_class(n as nat),
{
    if n >= 255 * 256 {
        255
    } else {
        ((n + 255) / 256) as u8
    }
}

fn write_header(out: &mut Vec<u8>, ver: u64, len: u8, kind: PageKind, next: Option<PagePtr>)
    ensures
        final(out)@ == old(out)@ + header_bytes(ver, len, kind, next),
{
    let start = Ghost(out@);
    write_u64(out, ver);
    out.push(len);
    out.push(kind.code());
    let raw = match next {
        Some(p) => p.encode(),
        None => 0,
    };
    write_u64(out, raw);
    assert(out@ =~= start@ + header_bytes(ver, len, kind, next));
}

/// Rewriting the size class byte leaves the records as they were.
proof fn lemma_set_len_records(b: Seq<u8>, c: u8, pos: int)
    requires
        HEADER_LEN <= pos,
        b.len() >= HEADER_LEN,
    ensures
        records_from(b.update(8, c), pos) == records_from(b, pos),
    decreases b.len() - pos,
{
    let u = b.update(8, c);
    if pos < b.len() {
        assert forall|i: int| HEADER_LEN <= i < b.len() implies u[i] == b[i] by {}
        if pos + 17 <= b.len() {
            u64_at_eq(b, u, pos + 9);
            u64_at_eq(b, u, pos);
            if pos + 25 <= b.len() {
                u64_at_eq(b, u, pos + 17);
            }
            assert forall|x: int, y: int| pos <= x <= y <= b.len() implies u.subrange(x, y)
                == b.subrange(x, y) by {
                assert(u.subrange(x, y) =~= b.subrange(x, y));
            }
        }
        assert(record_at(u, pos) == record_at(b, pos));
        match record_at(b, pos) {
            Some((r, n)) => {
                if n > pos {
                    lemma_set_len_records(b, c, n);
                }
            },
            None => {},
        }
    }
}

proof fn u64_at_eq(b: Seq<u8>, u: Seq<u8>, pos: int)
    requires
        0 <= pos,
        pos + 8 <= b.len(),
        u.len() == b.len(),
        forall|i: int| pos <= i < pos + 8 ==> u[i] == b[i],
    ensures
        u64_at(u, pos) == u64_at(b, pos),
{
    assert(u[pos] == b[pos] && u[pos + 1] == b[pos + 1] && u[pos + 2] == b[pos + 2] && u[pos + 3]
        == b[pos + 3] && u[pos + 4] == b[pos + 4] && u[pos + 5] == b[pos + 5] && u[pos + 6] == b[pos
        + 6] && u[pos + 7] == b[pos + 7]);
}

// ---- values and records ----

/// What a record says about its key: a new value, or a tombstone.
#[derive(Debug, PartialEq, Eq)]
pub enum Value {
    Put(Vec<u8>),
    Delete,
}

impl View for Value {
    type V = ValueModel;

    open spec fn view(&self) -> ValueModel {
        match self {
            Value::Put(v) => ValueModel::Put(v@),
            Value::Delete => ValueModel::Delete,
        }
    }
}

pub open spec fn opt_value(o: Option<Value>) -> Option<ValueModel> {
    match o {
        Some(v) => Some(v@),
        None => None,
    }
}

/// One mutation: a key, the sequence number it was made at, and its value.
pub struct Record {
    pub lsn: u64,
    pub key: Vec<u8>,
    pub value: Value,
}

impl View for Record {
    type V = RecordModel;

    open spec fn view(&self) -> RecordModel {
        RecordModel { lsn: self.lsn, key: self.key@, value: self.value@ }
    }
}

impl Record {
    pub fn put(lsn: u64, key: &[u8], value: &[u8]) -> (r: Record)
        ensures
            r@ == (RecordModel { lsn, key: key@, value: ValueModel::Put(value@) }),
    {
        Record { lsn, key: slice_to_vec(key), value: Value::Put(slice_to_vec(value)) }
    }

    pub fn delete(lsn: u64, key: &[u8]) -> (r: Record)
        ensures
            r@ == (RecordModel { lsn, key: key@, value: ValueModel::Delete }),
    {
        Record { lsn, key: slice_to_vec(key), value: Value::Delete }
    }

    /// A copy of this record.
    pub fn duplicate(&self) -> (r: Record)
        ensures
            r@ == self@,
    {
        let value = match &self.value {
            Value::Put(v) => Value::Put(slice_to_vec(v.as_slice())),
            Value::Delete => Value::Delete,
        };
        Record { lsn: self.lsn, key: slice_to_vec(self.key.as_slice()), value }
    }
}

fn write_record(out: &mut Vec<u8>, r: &Record)
    ensures
        final(out)@ == old(out)@ + encode_record(r@),
{
    let start = Ghost(out@);
    write_u64(out, r.lsn);
    match &r.value {
        Value::Delete => {
            out.push(TAG_DELETE);
            write_u64(out, r.key.len() as u64);
            append_bytes(out, r.key.as_slice());
        },
        Value::Put(v) => {
            out.push(TAG_PUT);
            write_u64(out, r.key.len() as u64);
            write_u64(out, v.len() as u64);
            append_bytes(out, r.key.as_slice());
            append_bytes(out, v.as_slice());
        },
    }
    assert(out@ =~= start@ + encode_record(r@));
}

// ---- page view and buffer ----

/// A read-only view of a page's bytes, and of the pointer it was reached
/// through, when it was.
#[derive(Copy, Clone)]
pub struct PageRef<'a> {
    bytes: &'a [u8],
    ptr: Option<PagePtr>,
}

impl<'a> View for PageRef<'a> {
    type V = Seq<u8>;

    closed spec fn view(&self) -> Seq<u8> {
        self.bytes@
    }
}

impl<'a> PageRef<'a> {
    /// A view of `b`, if it is long enough to hold a header with a known kind.
    pub fn new(b: &'a [u8]) -> (r: Option<PageRef<'a>>)
        ensures
            r is Some <==> header_ok(b@),
            r is Some ==> r.unwrap()@ == b@,
    {
        if b.len() < HEADER_LEN {
            return None;
        }
        match PageKind::from_code(b[9]) {
            Some(_) => Some(PageRef { bytes: b, ptr: None }),
            None => None,
        }
    }

    /// The pointer this view was reached through.
    pub closed spec fn ptr_of(&self) -> Option<PagePtr> {
        self.ptr
    }

    /// The same view, known to sit at `p`.
    pub(crate) fn at(self, p: PagePtr) -> (r: PageRef<'a>)
        ensures
            r@ == self@,
            r.ptr_of() == Some(p),
    {
        PageRef { bytes: self.bytes, ptr: Some(p) }
    }

    /// The pointer of the page, for a view that a table or a buffer gave.
    pub fn ptr(&self) -> (r: Option<PagePtr>)
        ensures
            r == self.ptr_of(),
    {
        self.ptr
    }

    pub fn bytes(&self) -> (r: &'a [u8])
        ensures
            r@ == self@,
    {
        self.bytes
    }

    pub fn ver(&self) -> (r: u64)
        requires
            header_ok(self@),
        ensures
            r == page_ver(self@),
    {
        read_u64(self.bytes, 0)
    }

    pub fn len(&self) -> (r: u8)
        requires
            header_ok(self@),
        ensures
            r == page_len(self@),
    {
        self.bytes[8]
    }

    pub fn kind(&self) -> (r: PageKind)
        requires
            header_ok(self@),
        ensures
            r == page_kind(self@),
    {
        PageKind::from_code(self.bytes[9]).unwrap()
    }

    pub fn next(&self) -> (r: Option<PagePtr>)
        requires
            header_ok(self@),
        ensures
            r == page_next(self@),
            r is Some ==> r.unwrap().valid(),
    {
        let raw = read_u64(self.bytes, 10);
        if raw == 0 {
            None
        } else {
            Some(PagePtr::decode(raw))
        }
    }
}

/// A memory slot handed out by a page table for one page to be built in.
/// It cannot be copied: each slot goes to one buffer.
pub struct Reservation {
    addr: u64,
}

impl Reservation {
    #[verifier::type_invariant]
    closed spec fn inv(self) -> bool {
        0 < self.addr <= MAX_OFFSET
    }

    /// The memory offset of the slot.
    pub closed spec fn addr(&self) -> u64 {
        self.addr
    }

    pub(crate) fn new(addr: u64) -> (r: Reservation)
        requires
            0 < addr <= MAX_OFFSET,
        ensures
            r.addr() == addr,
    {
        Reservation { addr }
    }

    /// The memory pointer of the slot.
    pub fn ptr(&self) -> (r: PagePtr)
        ensures
            r == PagePtr::Mem(self.addr()),
            r.valid(),
    {
        proof {
            use_type_invariant(self);
        }
        PagePtr::Mem(self.addr)
    }

    fn take(self) -> (r: u64)
        ensures
            r == self.addr(),
            0 < r <= MAX_OFFSET,
    {
        proof {
            use_type_invariant(&self);
        }
        self.addr
    }
}

/// A finished page, owned by its writer until it is published.
pub struct PageBuf {
    addr: u64,
    data: Vec<u8>,
}

impl View for PageBuf {
    type V = Seq<u8>;

    closed spec fn view(&self) -> Seq<u8> {
        self.data@
    }
}

impl PageBuf {
    /// A buffer is made for a non-null memory offset.
    #[verifier::type_invariant]
    closed spec fn inv(self) -> bool {
        0 < self.addr <= MAX_OFFSET
    }

    /// The memory offset this buffer was made for.
    pub closed spec fn addr(&self) -> u64 {
        self.addr
    }

    /// The memory pointer of this buffer: never the null word, and the slot
    /// that the table reserved for it.
    pub fn as_ptr(&self) -> (r: PagePtr)
        ensures
            r == PagePtr::Mem(self.addr()),
            r.valid(),
            0 < self.addr() <= MAX_OFFSET,
    {
        proof {
            use_type_invariant(self);
        }
        PagePtr::Mem(self.addr)
    }

    pub fn as_page(&self) -> (r: PageRef<'_>)
        ensures
            r@ == self@,
            r.ptr_of() == Some(PagePtr::Mem(self.addr())),
    {
        PageRef { bytes: self.data.as_slice(), ptr: Some(PagePtr::Mem(self.addr)) }
    }

    pub fn into_bytes(self) -> (r: Vec<u8>)
        ensures
            r@ == self@,
    {
        self.data
    }
}

/// Scans the records of a page for the first one with `key`.
pub(crate) fn scan(b: &[u8], key: &[u8]) -> (r: Option<Value>)
    requires
        page_wf(b@),
    ensures
        opt_value(r) == find(page_records(b@).unwrap(), key@),
{
    let mut pos: usize = HEADER_LEN;
    while pos < b.len()
        invariant
            HEADER_LEN <= pos <= b@.len(),
            records_from(b@, pos as int) is Some,
            find(page_records(b@).unwrap(), key@) == find(
                records_from(b@, pos as int).unwrap(),
                key@,
            ),
        decreases b@.len() - pos,
    {
        let span = parse_record(b, pos).unwrap();
        let ghost rest = records_from(b@, span.end as int).unwrap();
        let ghost m = record_at(b@, pos as int).unwrap().0;
        assert(records_from(b@, pos as int).unwrap() == seq![m] + rest);
        assert((seq![m] + rest).drop_first() =~= rest);
        if bytes_eq(b, span.key_start, span.key_end, key) {
            if span.is_put {
                let v = slice_to_vec(slice_subrange(b, span.key_end, span.end));
                return Some(Value::Put(v));
            } else {
                return Some(Value::Delete);
            }
        }
        pos = span.end;
    }
    None
}

/// Whether all the records of a page parse.
pub(crate) fn records_parse(b: &[u8]) -> (r: bool)
    requires
        header_ok(b@),
    ensures
        r == (page_records(b@) is Some),
{
    let mut pos: usize = HEADER_LEN;
    while pos < b.len()
        invariant
            HEADER_LEN <= pos <= b@.len(),
            (page_records(b@) is Some) == (records_from(b@, pos as int) is Some),
        decreases b@.len() - pos,
    {
        match parse_record(b, pos) {
            None => return false,
            Some(span) => {
                pos = span.end;
            },
        }
    }
    true
}

// ---- key order ----

/// Lexicographic order on keys.
pub open spec fn key_le(a: Seq<u8>, b: Seq<u8>) -> bool
    decreases a.len(),
{
    if a.len() == 0 {
        true
    } else if b.len() == 0 {
        false
    } else if a[0] != b[0] {
        a[0] < b[0]
    } else {
        key_le(a.drop_first(), b.drop_first())
    }
}

/// Each record's key is no greater than the next record's.
pub open spec fn keys_sorted(rs: Seq<RecordModel>) -> bool {
    forall|i: int| 0 <= i < rs.len() - 1 ==> key_le(#[trigger] rs[i].key, rs[i + 1].key)
}

pub fn key_le_exec(a: &[u8], b: &[u8]) -> (r: bool)
    ensures
        r == key_le(a@, b@),
{
    let mut i: usize = 0;
    assert(a@.skip(0) =~= a@);
    assert(b@.skip(0) =~= b@);
    while i < a.len() && i < b.len()
        invariant
            i <= a@.len(),
            i <= b@.len(),
            key_le(a@, b@) == key_le(a@.skip(i as int), b@.skip(i as int)),
        decreases a@.len() - i,
    {
        assert(a@.skip(i as int)[0] == a@[i as int]);
        assert(b@.skip(i as int)[0] == b@[i as int]);
        if a[i] != b[i] {
            return a[i] < b[i];
        }
        assert(a@.skip(i as int).drop_first() =~= a@.skip(i + 1));
        assert(b@.skip(i as int).drop_first() =~= b@.skip(i + 1));
        i = i + 1;
    }
    i == a.len()
}

// ---- builders ----

/// Appends one encoded record to a page's bytes.
fn append_record(data: &mut Vec<u8>, record: &Record)
    requires
        old(data)@.len() >= HEADER_LEN,
        page_records(old(data)@) is Some,
    ensures
        final(data)@ == old(data)@ + encode_record(record@),
        page_records(final(data)@) == Some(page_records(old(data)@).unwrap().push(record@)),
        page_ver(final(data)@) == page_ver(old(data)@),
        final(data)@[9] == old(data)@[9],
        page_next(final(data)@) == page_next(old(data)@),
{
    let kl = record.key.len();
    let vl = match &record.value {
        Value::Put(v) => v.len(),
        Value::Delete => 0,
    };
    assert(kl as int <= u64::MAX && vl as int <= u64::MAX);
    proof {
        crate::page::lemma_records_append(data@, HEADER_LEN as int, record@);
        crate::page::lemma_header_extend(data@, encode_record(record@));
    }
    write_record(data, record);
}

/// Stores the size class of the finished length in the header.
fn seal(data: &mut Vec<u8>)
    requires
        old(data)@.len() >= HEADER_LEN,
    ensures
        final(data)@ == old(data)@.update(8, size_class(old(data)@.len())),
        page_records(final(data)@) == page_records(old(data)@),
        page_ver(final(data)@) == page_ver(old(data)@),
        page_len(final(data)@) == size_class(old(data)@.len()),
        final(data)@[9] == old(data)@[9],
        page_next(final(data)@) == page_next(old(data)@),
{
    let c = size_class_of(data.len());
    let ghost b = data@;
    data.set(8, c);
    proof {
        let u = b.update(8, c);
        lemma_set_len_records(b, c, HEADER_LEN as int);
        u64_at_eq(b, u, 0);
        u64_at_eq(b, u, 10);
    }
}

/// The header of a new page, with no records yet.
fn new_page(ver: u64, kind: PageKind, next: Option<PagePtr>) -> (r: Vec<u8>)
    requires
        match next {
            Some(p) => p.valid(),
            None => true,
        },
    ensures
        header_ok(r@),
        page_ver(r@) == ver,
        page_kind(r@) == kind,
        page_next(r@) == next,
        page_records(r@) == Some(Seq::<RecordModel>::empty()),
{
    let mut data: Vec<u8> = Vec::new();
    write_header(&mut data, ver, 0, kind, next);
    proof {
        crate::page::lemma_header_bytes(ver, 0, kind, next);
        assert(data@ =~= header_bytes(ver, 0, kind, next));
    }
    data
}

/// Builds a delta page: records in any order, one per key.
pub struct DeltaDataBuf {
    addr: u64,
    data: Vec<u8>,
}

impl View for DeltaDataBuf {
    type V = Seq<u8>;

    closed spec fn view(&self) -> Seq<u8> {
        self.data@
    }
}

impl DeltaDataBuf {
    pub closed spec fn addr(&self) -> u64 {
        self.addr
    }

    /// The records added so far.
    pub open spec fn records(&self) -> Seq<RecordModel> {
        page_records(self@).unwrap()
    }

    /// The builder is for a non-null memory offset, and its bytes hold a
    /// delta page whose records parse, no two with one key.
    pub closed spec fn wf(&self) -> bool {
        &&& 0 < self.addr <= MAX_OFFSET
        &&& header_ok(self.data@)
        &&& page_records(self.data@) is Some
        &&& keys_unique(page_records(self.data@).unwrap())
        &&& page_kind(self.data@) == PageKind::DeltaData
        &&& page_next(self.data@) is Some
    }

    /// A builder for a delta data page in `slot`, layered on `next` at
    /// version `ver`.
    pub fn new(slot: Reservation, ver: u64, next: PagePtr) -> (r: DeltaDataBuf)
        requires
            next.valid(),
        ensures
            r.wf(),
            r.addr() == slot.addr(),
            header_ok(r@),
            page_ver(r@) == ver,
            page_kind(r@) == PageKind::DeltaData,
            page_next(r@) == Some(next),
            page_records(r@) == Some(Seq::<RecordModel>::empty()),
    {
        let addr = slot.take();
        DeltaDataBuf { addr, data: new_page(ver, PageKind::DeltaData, Some(next)) }
    }

    /// Adds a record for a key that this delta does not hold yet.
    pub fn add(&mut self, record: &Record)
        requires
            old(self).wf(),
            !has_key(old(self).records(), record@.key),
        ensures
            final(self).wf(),
            final(self).addr() == old(self).addr(),
            header_ok(final(self)@),
            page_records(final(self)@) == Some(old(self).records().push(record@)),
            page_ver(final(self)@) == page_ver(old(self)@),
            page_kind(final(self)@) == page_kind(old(self)@),
            page_next(final(self)@) == page_next(old(self)@),
    {
        let ghost rs = self.records();
        append_record(&mut self.data, record);
        proof {
            let rs2 = rs.push(record@);
            assert forall|m1: int, m2: int|
                0 <= m1 < rs2.len() && 0 <= m2 < rs2.len() && #[trigger] rs2[m1].key
                    == #[trigger] rs2[m2].key implies m1 == m2 by {
                if m1 < rs.len() && m2 < rs.len() {
                    assert(rs[m1].key == rs[m2].key);
                } else if m1 < rs.len() {
                    assert(rs[m1].key == record@.key);
                } else if m2 < rs.len() {
                    assert(rs[m2].key == record@.key);
                }
            }
        }
    }

    /// The finished page, with its size class filled in.
    pub fn finish(self) -> (r: PageBuf)
        requires
            self.wf(),
        ensures
            r.addr() == self.addr(),
            header_ok(r@),
            page_records(r@) == page_records(self@),
            keys_unique(page_records(r@).unwrap()),
            page_ver(r@) == page_ver(self@),
            page_len(r@) == size_class(self@.len()),
            page_kind(r@) == page_kind(self@),
            page_next(r@) == page_next(self@),
    {
        let mut data = self.data;
        seal(&mut data);
        PageBuf { addr: self.addr, data }
    }
}

/// Builds a base data page: the whole state of its key range, keys in order.
pub struct BaseDataBuf {
    addr: u64,
    data: Vec<u8>,
    last: Option<Vec<u8>>,
}

impl View for BaseDataBuf {
    type V = Seq<u8>;

    closed spec fn view(&self) -> Seq<u8> {
        self.data@
    }
}

impl BaseDataBuf {
    pub closed spec fn addr(&self) -> u64 {
        self.addr
    }

    pub open spec fn records(&self) -> Seq<RecordModel> {
        page_records(self@).unwrap()
    }

    /// The builder is for a non-null memory offset, its bytes hold a base
    /// page whose keys are in order, and it remembers the last key added.
    pub closed spec fn wf(&self) -> bool {
        &&& 0 < self.addr <= MAX_OFFSET
        &&& header_ok(self@)
        &&& page_records(self@) is Some
        &&& page_kind(self@) == PageKind::BaseData
        &&& page_next(self@) is None
        &&& keys_sorted(self.records())
        &&& match self.last {
            None => self.records().len() == 0,
            Some(k) => self.records().len() > 0 && k@ == self.records().last().key,
        }
    }

    /// Whether `key` may be added next: it is no smaller than the last key.
    pub open spec fn accepts(&self, key: Seq<u8>) -> bool {
        self.records().len() == 0 || key_le(self.records().last().key, key)
    }

    /// A builder for a base data page in `slot` at version `ver`.
    pub fn new(slot: Reservation, ver: u64) -> (r: BaseDataBuf)
        ensures
            r.wf(),
            r.addr() == slot.addr(),
            page_ver(r@) == ver,
            r.records() == Seq::<RecordModel>::empty(),
    {
        let addr = slot.take();
        BaseDataBuf { addr, data: new_page(ver, PageKind::BaseData, None), last: None }
    }

    pub fn can_add(&self, key: &[u8]) -> (r: bool)
        requires
            self.wf(),
        ensures
            r == self.accepts(key@),
    {
        match &self.last {
            None => true,
            Some(k) => key_le_exec(k.as_slice(), key),
        }
    }

    pub fn add(&mut self, record: &Record)
        requires
            old(self).wf(),
            old(self).accepts(record@.key),
        ensures
            final(self).wf(),
            final(self).addr() == old(self).addr(),
            final(self).records() == old(self).records().push(record@),
            page_ver(final(self)@) == page_ver(old(self)@),
    {
        append_record(&mut self.data, record);
        self.last = Some(slice_to_vec(record.key.as_slice()));
        assert(self.records() == old(self).records().push(record@));
    }

    pub fn finish(self) -> (r: PageBuf)
        requires
            self.wf(),
        ensures
            r.addr() == self.addr(),
            page_wf(r@),
            page_records(r@) == Some(self.records()),
            keys_sorted(self.records()),
            page_ver(r@) == page_ver(self@),
            page_len(r@) == size_class(self@.len()),
            page_kind(r@) == PageKind::BaseData,
            page_next(r@) is None,
    {
        let mut data = self.data;
        seal(&mut data);
        PageBuf { addr: self.addr, data }
    }
}

// ---- data page views ----

/// A base data page, ready for lookups, with the offset of each record.
pub struct BaseDataRef<'a> {
    page: PageRef<'a>,
    offsets: Vec<usize>,
}

impl<'a> View for BaseDataRef<'a> {
    type V = Seq<u8>;

    closed spec fn view(&self) -> Seq<u8> {
        self.page@
    }
}

proof fn lemma_key_le_refl(a: Seq<u8>)
    ensures
        key_le(a, a),
    decreases a.len(),
{
    if a.len() > 0 {
        lemma_key_le_refl(a.drop_first());
    }
}

proof fn lemma_key_le_trans(a: Seq<u8>, b: Seq<u8>, c: Seq<u8>)
    requires
        key_le(a, b),
        key_le(b, c),
    ensures
        key_le(a, c),
    decreases a.len(),
{
    if a.len() > 0 && b.len() > 0 && c.len() > 0 && a[0] == b[0] && b[0] == c[0] {
        lemma_key_le_trans(a.drop_first(), b.drop_first(), c.drop_first());
    }
}

proof fn lemma_key_le_antisym(a: Seq<u8>, b: Seq<u8>)
    requires
        key_le(a, b),
        key_le(b, a),
    ensures
        a == b,
    decreases a.len(),
{
    if a.len() > 0 && b.len() > 0 {
        lemma_key_le_antisym(a.drop_first(), b.drop_first());
        assert forall|i: int| 0 <= i < a.len() implies a[i] == b[i] by {
            if i > 0 {
                assert(a[i] == a.drop_first()[i - 1]);
                assert(b[i] == b.drop_first()[i - 1]);
            }
        }
    }
    assert(a =~= b);
}

/// In a list sorted pair by pair, every earlier key is no greater than every
/// later one.
proof fn lemma_sorted_pairwise(rs: Seq<RecordModel>, i: int, j: int)
    requires
        keys_sorted(rs),
        0 <= i <= j < rs.len(),
    ensures
        key_le(rs[i].key, rs[j].key),
    decreases j - i,
{
    if i == j {
        lemma_key_le_refl(rs[i].key);
    } else {
        lemma_sorted_pairwise(rs, i, j - 1);
        assert(key_le(rs[j - 1].key, rs[j].key));
        lemma_key_le_trans(rs[i].key, rs[j - 1].key, rs[j].key);
    }
}

/// Lookup finds the first record that has the key.
proof fn lemma_find_first(rs: Seq<RecordModel>, k: Seq<u8>, j: int)
    requires
        0 <= j < rs.len(),
        rs[j].key == k,
        forall|m: int| 0 <= m < j ==> #[trigger] rs[m].key != k,
    ensures
        find(rs, k) == Some(rs[j].value),
    decreases j,
{
    if j > 0 {
        let t = rs.drop_first();
        assert forall|m: int| 0 <= m < j - 1 implies #[trigger] t[m].key != k by {
            assert(t[m] == rs[m + 1]);
        }
        lemma_find_first(t, k, j - 1);
    }
}

/// Base page `b` has its keys in order, and `offsets[j]` is where its
/// record `j` starts.
pub open spec fn base_index_ok(b: Seq<u8>, offsets: Seq<usize>) -> bool {
    let rs = page_records(b).unwrap();
    &&& page_wf(b)
    &&& page_kind(b) == PageKind::BaseData
    &&& keys_sorted(rs)
    &&& offsets.len() == rs.len()
    &&& forall|j: int|
        0 <= j < rs.len() ==> records_from(b, #[trigger] offsets[j] as int) == Some(
            rs.subrange(j, rs.len() as int),
        )
}

/// The record offsets of base page `b`, if it is a well-formed base data
/// page whose keys are in order.
pub(crate) fn index_base(b: &[u8]) -> (r: Option<Vec<usize>>)
    ensures
        r is Some <==> (page_wf(b@) && page_kind(b@) == PageKind::BaseData && keys_sorted(
            page_records(b@).unwrap(),
        )),
        r is Some ==> base_index_ok(b@, r.unwrap()@),
{
    if b.len() < HEADER_LEN {
        return None;
    }
    match PageKind::from_code(b[9]) {
        Some(PageKind::BaseData) => {},
        _ => return None,
    }
    if !records_parse(b) {
        return None;
    }
    let ghost rs = page_records(b@).unwrap();
    let mut offsets: Vec<usize> = Vec::new();
    let mut prev_start: usize = 0;
    let mut prev_end: usize = 0;
    let mut pos: usize = HEADER_LEN;
    assert(rs.subrange(0, rs.len() as int) =~= rs);
    while pos < b.len()
        invariant
            rs == page_records(b@).unwrap(),
            page_wf(b@),
            page_kind(b@) == PageKind::BaseData,
            HEADER_LEN <= pos <= b@.len(),
            offsets@.len() <= rs.len(),
            records_from(b@, pos as int) == Some(rs.subrange(offsets@.len() as int, rs.len() as int)),
            forall|j: int|
                0 <= j < offsets@.len() ==> records_from(b@, #[trigger] offsets@[j] as int)
                    == Some(rs.subrange(j, rs.len() as int)),
            forall|j: int| 0 <= j < offsets@.len() - 1 ==> key_le(#[trigger] rs[j].key, rs[j + 1].key),
            offsets@.len() > 0 ==> prev_start <= prev_end <= b@.len() && b@.subrange(
                prev_start as int,
                prev_end as int,
            ) == rs[offsets@.len() - 1].key,
        decreases b@.len() - pos,
    {
        let span = parse_record(b, pos).unwrap();
        let ghost c = offsets@.len() as int;
        let ghost m = record_at(b@, pos as int).unwrap().0;
        let ghost rest = records_from(b@, span.end as int).unwrap();
        proof {
            assert(records_from(b@, pos as int).unwrap() == seq![m] + rest);
            assert((seq![m] + rest).len() >= 1);
            assert(c < rs.len());
            assert(rs.subrange(c, rs.len() as int)[0] == rs[c]);
            assert((seq![m] + rest)[0] == m);
            assert(rs.subrange(c, rs.len() as int).drop_first() =~= rs.subrange(c + 1, rs.len() as int));
            assert((seq![m] + rest).drop_first() =~= rest);
        }
        if offsets.len() > 0 {
            let prev = slice_subrange(b, prev_start, prev_end);
            let cur = slice_subrange(b, span.key_start, span.key_end);
            if !key_le_exec(prev, cur) {
                proof {
                    assert(m == rs[c]);
                    assert(cur@ == rs[c].key);
                    assert(prev@ == rs[c - 1].key);
                    assert(!key_le(rs[c - 1].key, rs[c].key));
                    assert(0 <= c - 1 < rs.len() - 1);
                    assert(!keys_sorted(rs));
                }
                return None;
            }
        }
        offsets.push(pos);
        prev_start = span.key_start;
        prev_end = span.key_end;
        pos = span.end;
    }
    assert(rs.subrange(offsets@.len() as int, rs.len() as int).len() == 0);
    Some(offsets)
}

/// Where record `j` of an indexed base page lies.
fn span_in(b: &[u8], offsets: &Vec<usize>, j: usize) -> (s: crate::page::RecordSpan)
    requires
        base_index_ok(b@, offsets@),
        j < page_records(b@).unwrap().len(),
    ensures
        s.key_start <= s.key_end <= s.end <= b@.len(),
        b@.subrange(s.key_start as int, s.key_end as int) == page_records(b@).unwrap()[j as int].key,
        s.is_put <==> page_records(b@).unwrap()[j as int].value is Put,
        s.is_put ==> page_records(b@).unwrap()[j as int].value == ValueModel::Put(
            b@.subrange(s.key_end as int, s.end as int),
        ),
{
    let ghost rs = page_records(b@).unwrap();
    let off = offsets[j];
    proof {
        let tail = rs.subrange(j as int, rs.len() as int);
        assert(records_from(b@, off as int) == Some(tail));
        assert(tail[0] == rs[j as int]);
        assert((off as int) < b@.len());
        let m = record_at(b@, off as int).unwrap().0;
        let rest = records_from(b@, record_at(b@, off as int).unwrap().1).unwrap();
        assert(tail == seq![m] + rest);
        assert((seq![m] + rest)[0] == m);
    }
    parse_record(b, off).unwrap()
}

/// Binary search for `key` in an indexed base page.
pub(crate) fn search_base(b: &[u8], offsets: &Vec<usize>, key: &[u8]) -> (r: Option<Value>)
    requires
        base_index_ok(b@, offsets@),
    ensures
        opt_value(r) == find(page_records(b@).unwrap(), key@),
{
    let ghost rs = page_records(b@).unwrap();
    let n = offsets.len();
    let mut lo: usize = 0;
    let mut hi: usize = n;
    while lo < hi
        invariant
            rs == page_records(b@).unwrap(),
            base_index_ok(b@, offsets@),
            n == rs.len(),
            lo <= hi <= n,
            forall|m: int| 0 <= m < lo ==> !key_le(key@, #[trigger] rs[m].key),
            forall|m: int| hi <= m < n ==> key_le(key@, #[trigger] rs[m].key),
        decreases hi - lo,
    {
        let mid = lo + (hi - lo) / 2;
        let span = span_in(b, offsets, mid);
        let here = slice_subrange(b, span.key_start, span.key_end);
        if key_le_exec(key, here) {
            proof {
                assert forall|m: int| mid <= m < n implies key_le(key@, #[trigger] rs[m].key) by {
                    lemma_sorted_pairwise(rs, mid as int, m);
                    lemma_key_le_trans(key@, rs[mid as int].key, rs[m].key);
                }
            }
            hi = mid;
        } else {
            proof {
                assert forall|m: int| 0 <= m <= mid implies !key_le(key@, #[trigger] rs[m].key) by {
                    lemma_sorted_pairwise(rs, m, mid as int);
                    if key_le(key@, rs[m].key) {
                        lemma_key_le_trans(key@, rs[m].key, rs[mid as int].key);
                    }
                }
            }
            lo = mid + 1;
        }
    }
    proof {
        assert forall|m: int| 0 <= m < lo implies #[trigger] rs[m].key != key@ by {
            lemma_key_le_refl(key@);
        }
    }
    if lo < n {
        let span = span_in(b, offsets, lo);
        if bytes_eq(b, span.key_start, span.key_end, key) {
            proof {
                lemma_find_first(rs, key@, lo as int);
            }
            if span.is_put {
                return Some(Value::Put(slice_to_vec(slice_subrange(b, span.key_end, span.end))));
            } else {
                return Some(Value::Delete);
            }
        }
        proof {
            assert forall|m: int| 0 <= m < n implies #[trigger] rs[m].key != key@ by {
                if m >= lo && rs[m].key == key@ {
                    lemma_sorted_pairwise(rs, lo as int, m);
                    lemma_key_le_antisym(rs[lo as int].key, key@);
                }
            }
            crate::chain::lemma_find_none(rs, key@);
        }
    } else {
        proof {
            crate::chain::lemma_find_none(rs, key@);
        }
    }
    None
}

impl<'a> BaseDataRef<'a> {
    #[verifier::type_invariant]
    closed spec fn inv(self) -> bool {
        base_index_ok(self.page@, self.offsets@)
    }

    /// A base data view of `page`, if it is a well-formed base data page
    /// whose keys are in order.
    pub fn from_page(page: PageRef<'a>) -> (r: Option<BaseDataRef<'a>>)
        ensures
            r is Some <==> (page_wf(page@) && page_kind(page@) == PageKind::BaseData && keys_sorted(
                page_records(page@).unwrap(),
            )),
            r is Some ==> r.unwrap()@ == page@,
    {
        match index_base(page.bytes()) {
            Some(offsets) => Some(BaseDataRef { page, offsets }),
            None => None,
        }
    }

    /// What the page holds for `key`: `None` when the key has no record.
    /// A binary search, as the records are sorted by key.
    pub fn get(self, key: &[u8]) -> (r: Option<Value>)
        ensures
            page_wf(self@),
            opt_value(r) == find(page_records(self@).unwrap(), key@),
    {
        proof {
            use_type_invariant(&self);
        }
        search_base(self.page.bytes(), &self.offsets, key)
    }
}

/// A delta data page, ready for lookups in its own records.
pub struct DeltaDataRef<'a>(PageRef<'a>);

impl<'a> View for DeltaDataRef<'a> {
    type V = Seq<u8>;

    closed spec fn view(&self) -> Seq<u8> {
        self.0@
    }
}

impl<'a> DeltaDataRef<'a> {
    #[verifier::type_invariant]
    closed spec fn inv(self) -> bool {
        page_wf(self.0@) && page_kind(self.0@) == PageKind::DeltaData
    }

    /// A delta data view of `page`, if it is a well-formed delta data page.
    pub fn from_page(page: PageRef<'a>) -> (r: Option<DeltaDataRef<'a>>)
        ensures
            r is Some <==> (page_wf(page@) && page_kind(page@) == PageKind::DeltaData),
            r is Some ==> r.unwrap()@ == page@,
    {
        if page.bytes().len() < HEADER_LEN {
            return None;
        }
        match PageKind::from_code(page.bytes()[9]) {
            Some(PageKind::DeltaData) => {},
            _ => return None,
        }
        if records_parse(page.bytes()) {
            Some(DeltaDataRef(page))
        } else {
            None
        }
    }

    /// The page under this view.
    pub fn as_page(&self) -> (r: PageRef<'a>)
        ensures
            r@ == self@,
            page_wf(r@),
            page_kind(r@) == PageKind::DeltaData,
    {
        proof {
            use_type_invariant(self);
        }
        self.0
    }

    /// What this delta alone says of `key`: `None` sends the reader on to
    /// the next page.
    pub fn get(self, key: &[u8]) -> (r: Option<Value>)
        ensures
            page_wf(self@),
            opt_value(r) == find(page_records(self@).unwrap(), key@),
    {
        proof {
            use_type_invariant(&self);
        }
        scan(self.0.bytes(), key)
    }
}

// ---- layouts ----

/// A way of laying records out in a page.
pub trait PageLayout {
}

/// Collects the records of a delta before it is written out.
pub struct DeltaDataLayout {
    records: Vec<Record>,
}

impl View for DeltaDataLayout {
    type V = Seq<RecordModel>;

    closed spec fn view(&self) -> Seq<RecordModel> {
        self.records@.map_values(|r: Record| r@)
    }
}

impl Default for DeltaDataLayout {
    fn default() -> (r: Self)
        ensures
            r.wf(),
            r@ == Seq::<RecordModel>::empty(),
    {
        let r = DeltaDataLayout { records: Vec::new() };
        assert(r@ =~= Seq::<RecordModel>::empty());
        r
    }
}

impl PageLayout for DeltaDataLayout {
}

impl DeltaDataLayout {
    /// No two collected records share a key.
    pub open spec fn wf(&self) -> bool {
        keys_unique(self@)
    }

    /// Whether a record for `key` was collected already.
    pub fn contains(&self, key: &[u8]) -> (r: bool)
        ensures
            r == has_key(self@, key@),
    {
        let mut i: usize = 0;
        while i < self.records.len()
            invariant
                i <= self.records@.len(),
                forall|m: int| 0 <= m < i ==> self@[m].key != key@,
            decreases self.records@.len() - i,
        {
            if slices_eq(self.records[i].key.as_slice(), key) {
                assert(self@[i as int].key == key@);
                return true;
            }
            i = i + 1;
        }
        false
    }

    /// Collects a record for a key not collected yet.
    pub fn add(&mut self, record: &Record)
        requires
            old(self).wf(),
            !has_key(old(self)@, record@.key),
        ensures
            final(self).wf(),
            final(self)@ == old(self)@.push(record@),
    {
        let ghost rs = self@;
        self.records.push(record.duplicate());
        proof {
            let rs2 = self.records@.map_values(|r: Record| r@);
            assert(rs2 =~= rs.push(record@));
            assert forall|m1: int, m2: int|
                0 <= m1 < rs2.len() && 0 <= m2 < rs2.len() && #[trigger] rs2[m1].key
                    == #[trigger] rs2[m2].key implies m1 == m2 by {
                if m1 < rs.len() && m2 < rs.len() {
                    assert(rs[m1].key == rs[m2].key);
                } else if m1 < rs.len() {
                    assert(rs[m1].key == record@.key);
                } else if m2 < rs.len() {
                    assert(rs[m2].key == record@.key);
                }
            }
        }
        assert(self@ =~= rs.push(record@));
    }

    /// Writes the collected records, in order, into a delta page in `slot`.
    pub fn build(&self, slot: Reservation, ver: u64, next: PagePtr) -> (r: PageBuf)
        requires
            self.wf(),
            next.valid(),
        ensures
            r.addr() == slot.addr(),
            page_wf(r@),
            page_records(r@) == Some(self@),
            page_ver(r@) == ver,
            page_kind(r@) == PageKind::DeltaData,
            page_next(r@) == Some(next),
    {
        let ghost addr = slot.addr();
        let mut b = DeltaDataBuf::new(slot, ver, next);
        let mut i: usize = 0;
        while i < self.records.len()
            invariant
                i <= self.records@.len(),
                keys_unique(self@),
                b.wf(),
                b.addr() == addr,
                header_ok(b@),
                page_records(b@) == Some(self@.subrange(0, i as int)),
                page_ver(b@) == ver,
                page_kind(b@) == PageKind::DeltaData,
                page_next(b@) == Some(next),
            decreases self.records@.len() - i,
        {
            proof {
                assert forall|m: int| 0 <= m < i implies #[trigger] self@.subrange(0, i as int)[m].key
                    != self@[i as int].key by {
                    assert(self@.subrange(0, i as int)[m] == self@[m]);
                }
            }
            b.add(&self.records[i]);
            i = i + 1;
            assert(self@.subrange(0, i as int) =~= self@.subrange(0, i - 1 as int).push(
                self@[i - 1],
            ));
        }
        assert(self@.subrange(0, i as int) =~= self@);
        b.finish()
    }
}

} // verus!
