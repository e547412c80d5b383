use vstd::prelude::*;

use crate::data::{
    base_index_ok, index_base, key_le, key_le_exec, keys_sorted, records_parse, scan, search_base,
    BaseDataBuf, DeltaDataBuf, PageBuf, PageRef, Record, Reservation, Value,
};
use crate::kind::PageKind;
use crate::page::{
    find, keys_unique, page_kind, page_next, page_records, page_ver, page_wf, parse_record,
    record_at, records_from, RecordModel, ValueModel,
};
use crate::ptr::{PagePtr, MAX_OFFSET};
use vstd::slice::{slice_subrange, slice_to_vec};

verus! {

/// Whether page bytes `b` may stand at slot `i` of a table: a well-formed
/// data page; a base page ends its chain, and a delta points to an older slot.
pub open spec fn page_fits(b: Seq<u8>, i: int) -> bool {
    &&& page_wf(b)
    &&& match page_kind(b) {
        PageKind::BaseData => page_next(b) is None && keys_sorted(page_records(b).unwrap()),
        PageKind::DeltaData => match page_next(b) {
            Some(PagePtr::Mem(a)) => 1 <= a <= i,
            _ => false,
        },
        _ => false,
    }
}

/// Slot `i` holds a page. A slot that was reserved and not filled yet holds
/// no bytes.
pub open spec fn used(pages: Seq<Seq<u8>>, i: int) -> bool {
    0 <= i < pages.len() && pages[i].len() > 0
}

/// Whether `a` is the memory offset of a reserved slot not filled yet.
pub open spec fn is_free(pages: Seq<Seq<u8>>, a: u64) -> bool {
    1 <= a <= pages.len() && pages[a - 1].len() == 0
}

/// Every page fits its slot, and a delta's next page is in the table.
pub open spec fn table_wf(pages: Seq<Seq<u8>>) -> bool {
    forall|i: int|
        #[trigger] used(pages, i) ==> page_fits(pages[i], i) && (is_delta_at(pages, i) ==> used(
            pages,
            next_slot(pages, i),
        ))
}

/// The slot that a delta at slot `i` points to.
pub open spec fn next_slot(pages: Seq<Seq<u8>>, i: int) -> int {
    match page_next(pages[i]) {
        Some(PagePtr::Mem(a)) => a - 1,
        _ => -1,
    }
}

pub open spec fn is_delta_at(pages: Seq<Seq<u8>>, i: int) -> bool {
    page_kind(pages[i]) == PageKind::DeltaData && 0 <= next_slot(pages, i) < i
}

/// What the chain that starts at slot `i` says of key `k`: the first record
/// for `k` from the newest page down; a base page always answers.
pub open spec fn walk(pages: Seq<Seq<u8>>, i: int, k: Seq<u8>) -> Option<ValueModel>
    decreases i,
{
    if !(0 <= i < pages.len()) {
        None
    } else if is_delta_at(pages, i) {
        match find(page_records(pages[i]).unwrap(), k) {
            Some(v) => Some(v),
            None => walk(pages, next_slot(pages, i), k),
        }
    } else {
        find(page_records(pages[i]).unwrap(), k)
    }
}

/// The value that a reader gets for `k`: absent for a tombstone or no record.
pub open spec fn read(pages: Seq<Seq<u8>>, i: int, k: Seq<u8>) -> Option<Seq<u8>> {
    match walk(pages, i, k) {
        Some(ValueModel::Put(v)) => Some(v),
        _ => None,
    }
}

/// The slots of the chain that starts at slot `i`, newest first.
pub open spec fn chain(pages: Seq<Seq<u8>>, i: int) -> Seq<int>
    decreases i,
{
    if !(0 <= i < pages.len()) {
        Seq::empty()
    } else if is_delta_at(pages, i) {
        seq![i] + chain(pages, next_slot(pages, i))
    } else {
        seq![i]
    }
}

/// How many pages a walk for `k` from slot `i` reads.
pub open spec fn walk_steps(pages: Seq<Seq<u8>>, i: int, k: Seq<u8>) -> nat
    decreases i,
{
    if !(0 <= i < pages.len()) {
        0
    } else if is_delta_at(pages, i) && find(page_records(pages[i]).unwrap(), k) is None {
        1 + walk_steps(pages, next_slot(pages, i), k)
    } else {
        1
    }
}

/// The records of the chain that starts at slot `i`, newest page first.
pub open spec fn flatten(pages: Seq<Seq<u8>>, i: int) -> Seq<RecordModel>
    decreases i,
{
    if !(0 <= i < pages.len()) {
        Seq::empty()
    } else if is_delta_at(pages, i) {
        page_records(pages[i]).unwrap() + flatten(pages, next_slot(pages, i))
    } else {
        page_records(pages[i]).unwrap()
    }
}

pub open spec fn opt_bytes(o: Option<Vec<u8>>) -> Option<Seq<u8>> {
    match o {
        Some(v) => Some(v@),
        None => None,
    }
}

/// Why a chain could not be read.
#[derive(Copy, Clone, Debug, PartialEq, Eq, Structural)]
pub enum ChainError {
    /// The page is on stable storage; bringing it in is not this table's job.
    NotResident,
    /// The pointer names no page of the table.
    Dangling,
}

/// Why a page could not be published.
#[derive(Copy, Clone, Debug, PartialEq, Eq, Structural)]
pub enum PublishError {
    /// No logical page has this identifier.
    UnknownId,
    /// The head moved since the writer read it.
    Stale,
    /// The buffer was not made for the next free slot.
    WrongAddr,
    /// The buffer is not a data page that may sit on the expected head.
    Malformed,
    /// The buffer's version is not above the head's.
    OldVersion,
    /// No slot or version number is left.
    Full,
}

/// Pages in memory, addressed by `PagePtr::Mem(slot + 1)`, and the mapping
/// from logical page identifiers to the head of each page's chain.
pub struct PageTable {
    pages: Vec<Vec<u8>>,
    offsets: Vec<Vec<usize>>,
    heads: Vec<u64>,
}

impl View for PageTable {
    type V = Seq<Seq<u8>>;

    closed spec fn view(&self) -> Seq<Seq<u8>> {
        self.pages@.map_values(|p: Vec<u8>| p@)
    }
}

impl PageTable {
    /// The encoded head pointer of each logical page.
    pub closed spec fn heads(&self) -> Seq<u64> {
        self.heads@
    }

    /// Each base page's record offsets are kept beside it.
    pub closed spec fn indexed(&self) -> bool {
        &&& self.offsets@.len() == self.pages@.len()
        &&& forall|i: int|
            0 <= i < self.pages@.len() && self.pages@[i]@.len() > 0 && page_kind(self.pages@[i]@)
                == PageKind::BaseData ==> base_index_ok(self.pages@[i]@, #[trigger] self.offsets@[i]@)
    }

    /// The slot that logical page `id`'s head names.
    pub open spec fn head_slot(&self, id: int) -> int {
        PagePtr::decode_spec(self.heads()[id])->Mem_0 - 1
    }

    /// Every page fits its slot, and every head names a memory page of the
    /// table that is filled.
    pub open spec fn wf(&self) -> bool {
        &&& table_wf(self@)
        &&& self.indexed()
        &&& forall|j: int|
            0 <= j < self.heads().len() ==> {
                &&& #[trigger] self.heads()[j] != 0
                &&& PagePtr::decode_spec(self.heads()[j]) is Mem
                &&& used(self@, self.head_slot(j))
            }
    }

    pub fn new() -> (r: PageTable)
        ensures
            r.wf(),
            r@ == Seq::<Seq<u8>>::empty(),
            r.heads() == Seq::<u64>::empty(),
    {
        let r = PageTable { pages: Vec::new(), offsets: Vec::new(), heads: Vec::new() };
        assert(r@ =~= Seq::<Seq<u8>>::empty());
        r
    }

    /// Reserves a new memory slot for one page. Each reservation gets the
    /// offset just above every slot reserved before, so no two reservations
    /// of a table share an offset.
    pub fn reserve(&mut self) -> (r: Result<Reservation, PublishError>)
        requires
            old(self).wf(),
        ensures
            final(self).wf(),
            final(self).heads() == old(self).heads(),
            old(self)@.len() + 1 < MAX_OFFSET ==> {
                &&& r is Ok
                &&& r.unwrap().addr() == old(self)@.len() + 1
                &&& final(self)@ == old(self)@.push(Seq::<u8>::empty())
            },
            old(self)@.len() + 1 >= MAX_OFFSET ==> r == Err::<Reservation, PublishError>(
                PublishError::Full,
            ) && final(self)@ == old(self)@,
    {
        if self.pages.len() as u64 >= MAX_OFFSET - 1 {
            return Err(PublishError::Full);
        }
        let addr = self.pages.len() as u64 + 1;
        let ghost pre = self@;
        self.pages.push(Vec::new());
        self.offsets.push(Vec::new());
        proof {
            assert(self@ =~= pre.push(Seq::<u8>::empty()));
            assert forall|i: int| #[trigger] used(self@, i) implies page_fits(self@[i], i) && (
            is_delta_at(self@, i) ==> used(self@, next_slot(self@, i))) by {
                assert(used(pre, i));
                assert(self@[i] == pre[i]);
                if is_delta_at(pre, i) {
                    assert(used(pre, next_slot(pre, i)));
                }
            }
            assert forall|i: int|
                0 <= i < self.pages@.len() && self.pages@[i]@.len() > 0 && page_kind(
                    self.pages@[i]@,
                ) == PageKind::BaseData implies base_index_ok(
                self.pages@[i]@,
                #[trigger] self.offsets@[i]@,
            ) by {
                assert(self.pages@[i] == old(self).pages@[i]);
                assert(self.offsets@[i] == old(self).offsets@[i]);
            }
            assert forall|j: int| 0 <= j < self.heads().len() implies used(self@, #[trigger] self.head_slot(j)) by {
                assert(used(pre, old(self).head_slot(j)));
            }
        }
        Ok(Reservation::new(addr))
    }

    /// The head of logical page `id`, if there is one.
    pub fn head(&self, id: usize) -> (r: Option<PagePtr>)
        requires
            self.wf(),
        ensures
            id < self.heads().len() ==> r == Some(PagePtr::decode_spec(self.heads()[id as int])),
            id >= self.heads().len() ==> r is None,
    {
        if id < self.heads.len() {
            Some(PagePtr::decode(self.heads[id]))
        } else {
            None
        }
    }

    /// A view of the page that `p` names, if it is in memory in this table.
    pub fn page(&self, p: PagePtr) -> (r: Option<PageRef<'_>>)
        requires
            self.wf(),
        ensures
            match p {
                PagePtr::Mem(a) => if used(self@, a - 1) {
                    &&& r is Some
                    &&& r.unwrap()@ == self@[a - 1]
                    &&& page_wf(r.unwrap()@)
                    &&& r.unwrap().ptr_of() == Some(p)
                } else {
                    r is None
                },
                PagePtr::Disk(_) => r is None,
            },
    {
        match p {
            PagePtr::Mem(a) => {
                if a >= 1 && a - 1 < self.pages.len() as u64 && self.pages[(a - 1) as usize].len() > 0 {
                    let b = self.pages[(a - 1) as usize].as_slice();
                    assert(used(self@, a - 1));
                    Some(PageRef::new(b).unwrap().at(p))
                } else {
                    None
                }
            },
            PagePtr::Disk(_) => None,
        }
    }

    /// Whether `a` is a reserved slot not filled yet.
    fn free_slot(&self, a: u64) -> (r: bool)
        ensures
            r == is_free(self@, a),
    {
        a >= 1 && a - 1 < self.pages.len() as u64 && self.pages[(a - 1) as usize].len() == 0
    }

    /// Whether `b` fits slot `slot`, and, when it is a delta, sits on
    /// `expected`.
    fn check_page(&self, b: &[u8], slot: usize, expected: PagePtr) -> (r: bool)
        ensures
            r == (page_fits(b@, slot as int) && (page_kind(b@) == PageKind::DeltaData ==> page_next(
                b@,
            ) == Some(expected))),
    {
        let page = match PageRef::new(b) {
            Some(p) => p,
            None => return false,
        };
        if !records_parse(b) {
            return false;
        }
        match page.kind() {
            PageKind::BaseData => page.next().is_none() && index_base(b).is_some(),
            PageKind::DeltaData => match page.next() {
                Some(PagePtr::Mem(a)) => 1 <= a && a <= slot as u64 && PagePtr::Mem(a) == expected,
                _ => false,
            },
            _ => false,
        }
    }

    /// The offsets kept for a page that fits the next slot.
    fn index_of(b: &[u8]) -> (r: Vec<usize>)
        requires
            page_wf(b@),
            page_kind(b@) == PageKind::BaseData ==> keys_sorted(page_records(b@).unwrap()),
        ensures
            page_kind(b@) == PageKind::BaseData ==> base_index_ok(b@, r@),
    {
        match index_base(b) {
            Some(offsets) => offsets,
            None => Vec::new(),
        }
    }

    /// Filling a free slot leaves every chain of the table as it was.
    proof fn lemma_fill_frame(&self, s: int, b: Seq<u8>, ext: Seq<Seq<u8>>)
        requires
            table_wf(self@),
            0 <= s < self@.len(),
            self@[s].len() == 0,
            page_fits(b, s),
            ext == self@.update(s, b),
            is_delta_at(ext, s) ==> used(self@, next_slot(ext, s)),
        ensures
            table_wf(ext),
            used(ext, s),
            forall|i: int, k: Seq<u8>|
                used(self@, i) ==> walk(ext, i, k) == #[trigger] walk(self@, i, k),
            forall|i: int| used(self@, i) ==> chain(ext, i) == #[trigger] chain(self@, i),
    {
        assert(ext[s] == b);
        assert forall|i: int| #[trigger] used(ext, i) implies page_fits(ext[i], i) && (is_delta_at(
            ext,
            i,
        ) ==> used(ext, next_slot(ext, i))) by {
            if i != s {
                assert(ext[i] == self@[i]);
                assert(used(self@, i));
                if is_delta_at(self@, i) {
                    assert(used(self@, next_slot(self@, i)));
                    assert(ext[next_slot(self@, i)] == self@[next_slot(self@, i)]);
                }
            } else if is_delta_at(ext, s) {
                assert(ext[next_slot(ext, s)] == self@[next_slot(ext, s)]);
            }
        }
        assert forall|j: int| used(self@, j) implies ext[j] == self@[j] by {}
        assert forall|i: int, k: Seq<u8>| used(self@, i) implies walk(ext, i, k)
            == #[trigger] walk(self@, i, k) by {
            lemma_walk_frame(self@, ext, i, k);
        }
        assert forall|i: int| used(self@, i) implies chain(ext, i) == #[trigger] chain(self@, i) by {
            lemma_chain_frame(self@, ext, i);
        }
    }

    proof fn lemma_fill_indexed(&self, old_t: &PageTable, s: int)
        requires
            old_t.indexed(),
            self.pages@.len() == old_t.pages@.len(),
            self.offsets@.len() == old_t.offsets@.len(),
            0 <= s < self.pages@.len(),
            forall|i: int| 0 <= i < self.pages@.len() && i != s ==> self.pages@[i] == old_t.pages@[i],
            forall|i: int| 0 <= i < self.pages@.len() && i != s ==> self.offsets@[i] == old_t.offsets@[i],
            page_kind(self.pages@[s]@) == PageKind::BaseData ==> base_index_ok(self.pages@[s]@, self.offsets@[s]@),
        ensures
            self.indexed(),
    {
        assert forall|i: int|
            0 <= i < self.pages@.len() && self.pages@[i]@.len() > 0 && page_kind(self.pages@[i]@)
                == PageKind::BaseData implies base_index_ok(self.pages@[i]@, #[trigger] self.offsets@[i]@) by {
            if i != s {
                assert(self.pages@[i] == old_t.pages@[i]);
                assert(self.offsets@[i] == old_t.offsets@[i]);
            }
        }
    }

    /// Makes page `buf` the head of a new logical page, if it is a base
    /// page built in a reserved slot not filled yet.
    pub fn create(&mut self, buf: PageBuf) -> (r: Result<usize, PublishError>)
        requires
            old(self).wf(),
        ensures
            final(self).wf(),
            !is_free(old(self)@, buf.addr()) ==> r == Err::<usize, PublishError>(
                PublishError::WrongAddr,
            ),
            is_free(old(self)@, buf.addr()) ==> if page_fits(buf@, buf.addr() - 1) && page_kind(buf@)
                == PageKind::BaseData {
                &&& r == Ok::<usize, PublishError>(old(self).heads().len() as usize)
                &&& final(self)@ == old(self)@.update(buf.addr() - 1, buf@)
                &&& final(self).heads() == old(self).heads().push(buf.addr())
            } else {
                r == Err::<usize, PublishError>(PublishError::Malformed)
            },
            r is Err ==> final(self)@ == old(self)@ && final(self).heads() == old(self).heads(),
    {
        let addr = buf.as_ptr();
        let a = buf_addr(&buf);
        if !self.free_slot(a) {
            return Err(PublishError::WrongAddr);
        }
        let n = self.pages.len();
        assert(self@.len() == n);
        let slot = (a - 1) as usize;
        assert(slot as int == a - 1);
        let ghost b = buf@;
        let data = buf.into_bytes();
        if !self.check_page(data.as_slice(), slot, addr) {
            return Err(PublishError::Malformed);
        }
        let page = PageRef::new(data.as_slice()).unwrap();
        if page.kind() != PageKind::BaseData {
            return Err(PublishError::Malformed);
        }
        let raw = addr.encode();
        proof {
            crate::ptr::lemma_decode_encode(addr);
            self.lemma_fill_frame(slot as int, b, self@.update(slot as int, b));
        }
        let index = PageTable::index_of(data.as_slice());
        let ghost old_t = *old(self);
        self.pages.set(slot, data);
        self.offsets.set(slot, index);
        proof {
            self.lemma_fill_indexed(&old_t, slot as int);
        }
        let id = self.heads.len();
        self.heads.push(raw);
        proof {
            assert(self@ =~= old(self)@.update(slot as int, b));
            assert forall|j: int| 0 <= j < self.heads().len() implies used(self@, #[trigger] self.head_slot(j)) by {
                if j < old(self).heads().len() {
                    assert(self.heads()[j] == old(self).heads()[j]);
                    assert(used(old(self)@, old(self).head_slot(j)));
                } else {
                    assert(self.heads()[j] == raw);
                    assert(self@[slot as int] == b);
                }
            }
        }
        Ok(id)
    }

    /// Installs `buf` as the new head of logical page `id`, provided the
    /// head is still `expected`: a compare-and-swap on the mapping. The page
    /// goes into the slot reserved for it; a delta must sit on `expected`,
    /// a base page replaces the whole chain, and either must carry a version
    /// above the head's.
    pub fn publish(&mut self, id: usize, expected: PagePtr, buf: PageBuf) -> (r: Result<
        PagePtr,
        PublishError,
    >)
        requires
            old(self).wf(),
        ensures
            final(self).wf(),
            id >= old(self).heads().len() ==> r == Err::<PagePtr, PublishError>(
                PublishError::UnknownId,
            ),
            id < old(self).heads().len() && PagePtr::decode_spec(old(self).heads()[id as int])
                != expected ==> r == Err::<PagePtr, PublishError>(PublishError::Stale),
            id < old(self).heads().len() && PagePtr::decode_spec(old(self).heads()[id as int])
                == expected && !is_free(old(self)@, buf.addr()) ==> r == Err::<PagePtr, PublishError>(
                PublishError::WrongAddr,
            ),
            id < old(self).heads().len() && PagePtr::decode_spec(old(self).heads()[id as int])
                == expected && is_free(old(self)@, buf.addr()) ==> if page_fits(
                buf@,
                buf.addr() - 1,
            ) && (page_kind(buf@) == PageKind::DeltaData ==> page_next(buf@) == Some(expected)) {
                if page_ver(buf@) > page_ver(old(self)@[old(self).head_slot(id as int)]) {
                    &&& r == Ok::<PagePtr, PublishError>(PagePtr::Mem(buf.addr()))
                    &&& final(self)@ == old(self)@.update(buf.addr() - 1, buf@)
                    &&& final(self).heads() == old(self).heads().update(id as int, buf.addr())
                } else {
                    r == Err::<PagePtr, PublishError>(PublishError::OldVersion)
                }
            } else {
                r == Err::<PagePtr, PublishError>(PublishError::Malformed)
            },
            r is Err ==> final(self)@ == old(self)@ && final(self).heads() == old(self).heads(),
    {
        if id >= self.heads.len() {
            return Err(PublishError::UnknownId);
        }
        if PagePtr::decode(self.heads[id]) != expected {
            return Err(PublishError::Stale);
        }
        assert(used(self@, self.head_slot(id as int)));
        let addr = buf.as_ptr();
        let a = buf_addr(&buf);
        if !self.free_slot(a) {
            return Err(PublishError::WrongAddr);
        }
        let n = self.pages.len();
        assert(self@.len() == n);
        let slot = (a - 1) as usize;
        assert(slot as int == a - 1);
        let ghost b = buf@;
        let data = buf.into_bytes();
        if !self.check_page(data.as_slice(), slot, expected) {
            return Err(PublishError::Malformed);
        }
        let head_ver = match self.page(expected) {
            Some(head) => head.ver(),
            None => {
                assert(false);
                return Err(PublishError::Malformed);
            },
        };
        let new_ver = PageRef::new(data.as_slice()).unwrap().ver();
        if new_ver <= head_ver {
            return Err(PublishError::OldVersion);
        }
        let raw = addr.encode();
        proof {
            crate::ptr::lemma_decode_encode(addr);
            let ext = self@.update(slot as int, b);
            assert(ext[slot as int] == b);
            self.lemma_fill_frame(slot as int, b, ext);
        }
        let index = PageTable::index_of(data.as_slice());
        let ghost old_t = *old(self);
        self.pages.set(slot, data);
        self.offsets.set(slot, index);
        proof {
            self.lemma_fill_indexed(&old_t, slot as int);
        }
        self.heads.set(id, raw);
        proof {
            assert(self@ =~= old(self)@.update(slot as int, b));
            assert forall|j: int| 0 <= j < self.heads().len() implies used(self@, #[trigger] self.head_slot(j)) by {
                if j != id {
                    assert(self.heads()[j] == old(self).heads()[j]);
                    assert(used(old(self)@, old(self).head_slot(j)));
                } else {
                    assert(self.heads()[j] == raw);
                    assert(self@[slot as int] == b);
                }
            }
        }
        Ok(addr)
    }

    /// Publishes `record` as a one-record delta on the head of logical page
    /// `id`, one version above the head, in a newly reserved slot.
    pub fn write(&mut self, id: usize, record: &Record) -> (r: Result<PagePtr, PublishError>)
        requires
            old(self).wf(),
        ensures
            final(self).wf(),
            id >= old(self).heads().len() ==> r == Err::<PagePtr, PublishError>(
                PublishError::UnknownId,
            ),
            id < old(self).heads().len() && (old(self)@.len() + 1 >= MAX_OFFSET || page_ver(
                old(self)@[old(self).head_slot(id as int)],
            ) == u64::MAX) ==> r == Err::<PagePtr, PublishError>(PublishError::Full),
            r is Err ==> final(self)@ == old(self)@ && final(self).heads() == old(self).heads(),
            id < old(self).heads().len() && old(self)@.len() + 1 < MAX_OFFSET && page_ver(
                old(self)@[old(self).head_slot(id as int)],
            ) < u64::MAX ==> {
                let n = old(self)@.len() as int;
                let b = final(self)@[n];
                &&& r == Ok::<PagePtr, PublishError>(PagePtr::Mem((n + 1) as u64))
                &&& final(self)@ == old(self)@.push(b)
                &&& final(self).heads() == old(self).heads().update(id as int, (n + 1) as u64)
                &&& page_kind(b) == PageKind::DeltaData
                &&& page_ver(b) == page_ver(old(self)@[old(self).head_slot(id as int)]) + 1
                &&& page_next(b) == Some(
                    PagePtr::Mem((old(self).head_slot(id as int) + 1) as u64),
                )
                &&& page_records(b) == Some(seq![record@])
                &&& forall|k: Seq<u8>|
                    #[trigger] walk(final(self)@, n, k) == if k == record@.key {
                        Some(record@.value)
                    } else {
                        walk(old(self)@, old(self).head_slot(id as int), k)
                    }
            },
    {
        if id >= self.heads.len() {
            return Err(PublishError::UnknownId);
        }
        let head = PagePtr::decode(self.heads[id]);
        assert(used(self@, self.head_slot(id as int)));
        let ver = self.page(head).unwrap().ver();
        if ver == u64::MAX {
            return Err(PublishError::Full);
        }
        let ghost start = self@;
        let slot = match self.reserve() {
            Ok(slot) => slot,
            Err(e) => return Err(e),
        };
        let ghost n = start.len() as int;
        let ghost i = old(self).head_slot(id as int);
        assert(self.heads() == old(self).heads());
        assert(self@[i] == start[i]);
        let mut delta = DeltaDataBuf::new(slot, ver + 1, head);
        assert(seq![record@] =~= Seq::<RecordModel>::empty().push(record@));
        delta.add(record);
        let buf = delta.finish();
        let ghost b = buf@;
        let ghost pre = self@;
        let r = self.publish(id, head, buf);
        proof {
            assert(self@ =~= start.push(b));
            assert forall|k: Seq<u8>| #[trigger] walk(self@, n, k) == if k == record@.key {
                Some(record@.value)
            } else {
                walk(start, i, k)
            } by {
                lemma_publish_delta(pre, i, n, b, k);
                lemma_walk_frame(start, pre, i, k);
                reveal_with_fuel(find, 2);
                assert(seq![record@].drop_first() =~= Seq::<RecordModel>::empty());
            }
        }
        r
    }

    /// Reads `key` through the chain that starts at `head`.
    pub fn get(&self, head: PagePtr, key: &[u8]) -> (r: Result<Option<Vec<u8>>, ChainError>)
        requires
            self.wf(),
        ensures
            match head {
                PagePtr::Disk(_) => r == Err::<Option<Vec<u8>>, ChainError>(ChainError::NotResident),
                PagePtr::Mem(a) => if used(self@, a - 1) {
                    r is Ok && opt_bytes(r.unwrap()) == read(self@, a - 1, key@)
                } else {
                    r == Err::<Option<Vec<u8>>, ChainError>(ChainError::Dangling)
                },
            },
    {
        let a = match head {
            PagePtr::Disk(_) => return Err(ChainError::NotResident),
            PagePtr::Mem(a) => a,
        };
        if a < 1 || a - 1 >= self.pages.len() as u64 || self.pages[(a - 1) as usize].len() == 0 {
            return Err(ChainError::Dangling);
        }
        let ghost start = (a - 1) as int;
        let mut slot: usize = (a - 1) as usize;
        loop
            invariant
                self.wf(),
                head == PagePtr::Mem(a),
                used(self@, a - 1),
                start == a - 1,
                used(self@, slot as int),
                walk(self@, start, key@) == walk(self@, slot as int, key@),
            decreases slot,
        {
            let b = self.pages[slot].as_slice();
            assert(page_fits(self@[slot as int], slot as int));
            assert(is_delta_at(self@, slot as int) ==> used(self@, next_slot(self@, slot as int)));
            let page = PageRef::new(b).unwrap();
            let kind = page.kind();
            let found = if kind == PageKind::BaseData {
                assert(self.pages@[slot as int]@ == self@[slot as int]);
                search_base(b, &self.offsets[slot], key)
            } else {
                scan(b, key)
            };
            if kind == PageKind::DeltaData && found.is_none() {
                let a = match page.next() {
                    Some(PagePtr::Mem(a)) => a,
                    _ => {
                        assert(false);
                        return Err(ChainError::Dangling);
                    },
                };
                slot = (a - 1) as usize;
            } else {
                return Ok(
                    match found {
                        Some(Value::Put(v)) => Some(v),
                        _ => None,
                    },
                );
            }
        }
    }
}

proof fn lemma_walk_frame(pages: Seq<Seq<u8>>, ext: Seq<Seq<u8>>, i: int, k: Seq<u8>)
    requires
        table_wf(pages),
        pages.len() <= ext.len(),
        forall|j: int| used(pages, j) ==> ext[j] == pages[j],
        used(pages, i),
    ensures
        walk(ext, i, k) == walk(pages, i, k),
    decreases i,
{
    assert(ext[i] == pages[i]);
    if is_delta_at(pages, i) {
        assert(used(pages, next_slot(pages, i)));
        lemma_walk_frame(pages, ext, next_slot(pages, i), k);
    }
}

proof fn lemma_chain_frame(pages: Seq<Seq<u8>>, ext: Seq<Seq<u8>>, i: int)
    requires
        table_wf(pages),
        pages.len() <= ext.len(),
        forall|j: int| used(pages, j) ==> ext[j] == pages[j],
        used(pages, i),
    ensures
        chain(ext, i) == chain(pages, i),
    decreases i,
{
    assert(ext[i] == pages[i]);
    if is_delta_at(pages, i) {
        assert(used(pages, next_slot(pages, i)));
        lemma_chain_frame(pages, ext, next_slot(pages, i));
    }
}

/// The memory offset of a buffer.
fn buf_addr(buf: &PageBuf) -> (a: u64)
    ensures
        a == buf.addr(),
{
    match buf.as_ptr() {
        PagePtr::Mem(a) => a,
        PagePtr::Disk(_) => 0,
    }
}

// ---- laws ----

/// With one record for `k`, lookup finds exactly that record.
pub proof fn lemma_find_unique(rs: Seq<RecordModel>, k: Seq<u8>, j: int)
    requires
        0 <= j < rs.len(),
        rs[j].key == k,
        forall|m: int| 0 <= m < rs.len() && #[trigger] rs[m].key == k ==> m == j,
    ensures
        find(rs, k) == Some(rs[j].value),
    decreases rs.len(),
{
    if j > 0 {
        let t = rs.drop_first();
        assert forall|m: int| 0 <= m < t.len() && #[trigger] t[m].key == k implies m == j - 1 by {
            assert(rs[m + 1].key == k);
        }
        lemma_find_unique(t, k, j - 1);
    }
}

/// With no record for `k`, lookup finds nothing.
pub proof fn lemma_find_none(rs: Seq<RecordModel>, k: Seq<u8>)
    requires
        forall|m: int| 0 <= m < rs.len() ==> #[trigger] rs[m].key != k,
    ensures
        find(rs, k) is None,
    decreases rs.len(),
{
    if rs.len() > 0 {
        let t = rs.drop_first();
        assert forall|m: int| 0 <= m < t.len() implies #[trigger] t[m].key != k by {
            assert(rs[m + 1].key != k);
        }
        lemma_find_none(t, k);
    }
}

/// Looking up in two record lists one after the other is looking up in
/// their concatenation.
pub proof fn lemma_find_concat(a: Seq<RecordModel>, b: Seq<RecordModel>, k: Seq<u8>)
    ensures
        find(a + b, k) == match find(a, k) {
            Some(v) => Some(v),
            None => find(b, k),
        },
    decreases a.len(),
{
    if a.len() == 0 {
        assert(a + b =~= b);
    } else {
        assert((a + b).drop_first() =~= a.drop_first() + b);
        lemma_find_concat(a.drop_first(), b, k);
    }
}

/// Walking a chain answers as the first record for the key among all of the
/// chain's records, newest page first.
pub proof fn lemma_walk_flatten(pages: Seq<Seq<u8>>, i: int, k: Seq<u8>)
    requires
        table_wf(pages),
    ensures
        walk(pages, i, k) == find(flatten(pages, i), k),
    decreases i,
{
    if 0 <= i < pages.len() && is_delta_at(pages, i) {
        lemma_walk_flatten(pages, next_slot(pages, i), k);
        lemma_find_concat(page_records(pages[i]).unwrap(), flatten(pages, next_slot(pages, i)), k);
    }
}

/// Consolidation: a base page that replays a chain's records, keeping for
/// each key only its newest record, answers every key as the chain does.
pub proof fn lemma_consolidation(pages: Seq<Seq<u8>>, i: int, base: Seq<u8>)
    requires
        table_wf(pages),
        page_wf(base),
        page_kind(base) == PageKind::BaseData,
        keys_unique(page_records(base).unwrap()),
        forall|m: int|
            0 <= m < page_records(base).unwrap().len() ==> find(
                flatten(pages, i),
                #[trigger] page_records(base).unwrap()[m].key,
            ) == Some(page_records(base).unwrap()[m].value),
        forall|k: Seq<u8>|
            #[trigger] find(flatten(pages, i), k) is Some ==> exists|m: int|
                0 <= m < page_records(base).unwrap().len() && page_records(base).unwrap()[m].key
                    == k,
    ensures
        forall|k: Seq<u8>| #[trigger] find(page_records(base).unwrap(), k) == walk(pages, i, k),
{
    let rs = page_records(base).unwrap();
    assert forall|k: Seq<u8>| #[trigger] find(rs, k) == walk(pages, i, k) by {
        lemma_walk_flatten(pages, i, k);
        if exists|m: int| 0 <= m < rs.len() && rs[m].key == k {
            let m = choose|m: int| 0 <= m < rs.len() && rs[m].key == k;
            assert forall|m2: int| 0 <= m2 < rs.len() && #[trigger] rs[m2].key == k implies m2
                == m by {
                assert(rs[m2].key == rs[m].key);
            }
            lemma_find_unique(rs, k, m);
        } else {
            lemma_find_none(rs, k);
        }
    }
}

/// Publishing a delta on the page at slot `i`, into free slot `s`, puts it
/// in front of that chain: a read answers from the delta's records first,
/// then as before.
pub proof fn lemma_publish_delta(pages: Seq<Seq<u8>>, i: int, s: int, b: Seq<u8>, k: Seq<u8>)
    requires
        table_wf(pages),
        used(pages, i),
        0 <= s < pages.len() < MAX_OFFSET,
        pages[s].len() == 0,
        page_fits(b, s),
        page_kind(b) == PageKind::DeltaData,
        page_next(b) == Some(PagePtr::Mem((i + 1) as u64)),
    ensures
        table_wf(pages.update(s, b)),
        used(pages.update(s, b), s),
        chain(pages.update(s, b), s) == seq![s] + chain(pages, i),
        walk(pages.update(s, b), s, k) == match find(page_records(b).unwrap(), k) {
            Some(v) => Some(v),
            None => walk(pages, i, k),
        },
{
    let ext = pages.update(s, b);
    assert(ext[s] == b);
    assert(next_slot(ext, s) == i);
    assert(is_delta_at(ext, s));
    assert forall|j: int| #[trigger] used(ext, j) implies page_fits(ext[j], j) && (is_delta_at(
        ext,
        j,
    ) ==> used(ext, next_slot(ext, j))) by {
        if j != s {
            assert(ext[j] == pages[j]);
            assert(used(pages, j));
            if is_delta_at(pages, j) {
                assert(used(pages, next_slot(pages, j)));
                assert(ext[next_slot(pages, j)] == pages[next_slot(pages, j)]);
            }
        } else {
            assert(ext[i] == pages[i]);
        }
    }
    assert forall|j: int| used(pages, j) implies ext[j] == pages[j] by {}
    lemma_walk_frame(pages, ext, i, k);
    lemma_chain_frame(pages, ext, i);
}

/// Most recent wins: after a delta that puts `v` under `k` (and says
/// nothing else of `k`) is published on a chain, a read of `k` gives `v`,
/// whatever older pages hold.
pub proof fn lemma_put_wins(
    pages: Seq<Seq<u8>>,
    i: int,
    s: int,
    b: Seq<u8>,
    k: Seq<u8>,
    v: Seq<u8>,
    j: int,
)
    requires
        table_wf(pages),
        used(pages, i),
        0 <= s < pages.len() < MAX_OFFSET,
        pages[s].len() == 0,
        page_fits(b, s),
        page_kind(b) == PageKind::DeltaData,
        page_next(b) == Some(PagePtr::Mem((i + 1) as u64)),
        0 <= j < page_records(b).unwrap().len(),
        page_records(b).unwrap()[j].key == k,
        page_records(b).unwrap()[j].value == ValueModel::Put(v),
        forall|m: int|
            0 <= m < page_records(b).unwrap().len() && #[trigger] page_records(b).unwrap()[m].key
                == k ==> m == j,
    ensures
        read(pages.update(s, b), s, k) == Some(v),
{
    lemma_find_unique(page_records(b).unwrap(), k, j);
    lemma_publish_delta(pages, i, s, b, k);
}

/// Tombstones hide older values: after a delta that deletes `k` (and says
/// nothing else of `k`) is published on a chain, a read of `k` finds
/// nothing, whatever older pages hold.
pub proof fn lemma_delete_wins(pages: Seq<Seq<u8>>, i: int, s: int, b: Seq<u8>, k: Seq<u8>, j: int)
    requires
        table_wf(pages),
        used(pages, i),
        0 <= s < pages.len() < MAX_OFFSET,
        pages[s].len() == 0,
        page_fits(b, s),
        page_kind(b) == PageKind::DeltaData,
        page_next(b) == Some(PagePtr::Mem((i + 1) as u64)),
        0 <= j < page_records(b).unwrap().len(),
        page_records(b).unwrap()[j].key == k,
        page_records(b).unwrap()[j].value == ValueModel::Delete,
        forall|m: int|
            0 <= m < page_records(b).unwrap().len() && #[trigger] page_records(b).unwrap()[m].key
                == k ==> m == j,
    ensures
        read(pages.update(s, b), s, k) is None,
{
    lemma_find_unique(page_records(b).unwrap(), k, j);
    lemma_publish_delta(pages, i, s, b, k);
}

/// Every chain of a well-formed table ends: it is a run of delta pages, each
/// pointing to the next, closed by one base page with no next. A walk for
/// any key reads at most as many pages as the chain holds, and one that
/// reads them all answers from the base page.
pub proof fn lemma_chain_shape(pages: Seq<Seq<u8>>, i: int, k: Seq<u8>)
    requires
        table_wf(pages),
        used(pages, i),
    ensures
        1 <= chain(pages, i).len() <= i + 1,
        chain(pages, i)[0] == i,
        forall|j: int| 0 <= j < chain(pages, i).len() ==> used(pages, #[trigger] chain(pages, i)[j]),
        forall|j: int|
            0 <= j < chain(pages, i).len() - 1 ==> page_kind(pages[#[trigger] chain(pages, i)[j]])
                == PageKind::DeltaData && chain(pages, i)[j + 1] == next_slot(
                pages,
                chain(pages, i)[j],
            ),
        page_kind(pages[chain(pages, i).last()]) == PageKind::BaseData,
        page_next(pages[chain(pages, i).last()]) is None,
        1 <= walk_steps(pages, i, k) <= chain(pages, i).len(),
        walk_steps(pages, i, k) == chain(pages, i).len() ==> walk(pages, i, k) == find(
            page_records(pages[chain(pages, i).last()]).unwrap(),
            k,
        ),
    decreases i,
{
    assert(page_fits(pages[i], i));
    let c = chain(pages, i);
    if is_delta_at(pages, i) {
        let n = next_slot(pages, i);
        lemma_chain_shape(pages, n, k);
        let t = chain(pages, n);
        assert(c == seq![i] + t);
        assert(c.last() == t.last());
        assert(used(pages, n));
        assert forall|j: int| 0 <= j < c.len() implies used(pages, #[trigger] c[j]) by {
            if j > 0 {
                assert(c[j] == t[j - 1]);
            }
        }
        assert forall|j: int| 0 <= j < c.len() - 1 implies page_kind(pages[#[trigger] c[j]])
            == PageKind::DeltaData && c[j + 1] == next_slot(pages, c[j]) by {
            if j > 0 {
                assert(c[j] == t[j - 1]);
                assert(c[j + 1] == t[j]);
            }
        }
    } else {
        assert(c == seq![i]);
    }
}

/// `slots[0]` holds a base page and each later slot a delta on the slot
/// before it: what `slots.len() - 1` successful publishes on one base page
/// leave, whichever slots they were reserved in.
pub open spec fn linked(pages: Seq<Seq<u8>>, slots: Seq<int>) -> bool {
    &&& slots.len() >= 1
    &&& 0 <= slots[0] < pages.len()
    &&& page_kind(pages[slots[0]]) == PageKind::BaseData
    &&& forall|j: int|
        1 <= j < slots.len() ==> #[trigger] is_delta_at(pages, slots[j]) && 0 <= slots[j]
            < pages.len() && next_slot(pages, slots[j]) == slots[j - 1]
}

/// No update is lost: after publishes that each put one delta on the head
/// before it, the chain from the last one holds every published page, newest
/// first, and then the base page. A walk over it reads at most that many
/// pages, and one that reads them all answers from the base page.
pub proof fn lemma_linked_chain(pages: Seq<Seq<u8>>, slots: Seq<int>, k: Seq<u8>)
    requires
        linked(pages, slots),
    ensures
        chain(pages, slots.last()) == Seq::new(slots.len(), |j: int| slots[slots.len() - 1 - j]),
        1 <= walk_steps(pages, slots.last(), k) <= slots.len(),
        walk_steps(pages, slots.last(), k) == slots.len() ==> walk(pages, slots.last(), k) == find(
            page_records(pages[slots[0]]).unwrap(),
            k,
        ),
    decreases slots.len(),
{
    let n = slots.len() as int;
    if n == 1 {
        assert(!is_delta_at(pages, slots[0]));
        assert(chain(pages, slots[0]) =~= Seq::new(1, |j: int| slots[0 - j]));
    } else {
        let init = slots.drop_last();
        assert forall|j: int| 1 <= j < init.len() implies #[trigger] is_delta_at(pages, init[j])
            && 0 <= init[j] < pages.len() && next_slot(pages, init[j]) == init[j - 1] by {
            assert(init[j] == slots[j] && init[j - 1] == slots[j - 1]);
            assert(is_delta_at(pages, slots[j]));
        }
        assert(linked(pages, init));
        lemma_linked_chain(pages, init, k);
        assert(is_delta_at(pages, slots[n - 1]));
        assert(next_slot(pages, slots[n - 1]) == init.last());
        assert(chain(pages, slots.last()) =~= Seq::new(slots.len(), |j: int| slots[slots.len() - 1 - j]));
    }
}

// ---- consolidation ----

pub open spec fn views(v: Seq<Record>) -> Seq<RecordModel> {
    v.map_values(|r: Record| r@)
}

proof fn lemma_key_le_total(a: Seq<u8>, b: Seq<u8>)
    ensures
        key_le(a, b) || key_le(b, a),
    decreases a.len(),
{
    if a.len() > 0 && b.len() > 0 && a[0] == b[0] {
        lemma_key_le_total(a.drop_first(), b.drop_first());
    }
}

/// Looking up after one more record: earlier records still win.
proof fn lemma_find_push(rs: Seq<RecordModel>, r: RecordModel, k: Seq<u8>)
    ensures
        find(rs.push(r), k) == match find(rs, k) {
            Some(v) => Some(v),
            None => if k == r.key {
                Some(r.value)
            } else {
                None
            },
        },
{
    lemma_find_concat(rs, seq![r], k);
    assert(rs + seq![r] =~= rs.push(r));
    reveal_with_fuel(find, 2);
    assert(seq![r].drop_first() =~= Seq::<RecordModel>::empty());
}

/// In a list with unique keys, lookup finds the record with the key.
proof fn lemma_find_in_unique(rs: Seq<RecordModel>, k: Seq<u8>)
    requires
        keys_unique(rs),
    ensures
        (exists|m: int| 0 <= m < rs.len() && rs[m].key == k) ==> find(rs, k) == Some(
            rs[choose|m: int| 0 <= m < rs.len() && rs[m].key == k].value,
        ),
        !(exists|m: int| 0 <= m < rs.len() && rs[m].key == k) ==> find(rs, k) is None,
{
    if exists|m: int| 0 <= m < rs.len() && rs[m].key == k {
        let m = choose|m: int| 0 <= m < rs.len() && rs[m].key == k;
        assert forall|m2: int| 0 <= m2 < rs.len() && #[trigger] rs[m2].key == k implies m2 == m by {
            assert(rs[m2].key == rs[m].key);
        }
        lemma_find_unique(rs, k, m);
    } else {
        lemma_find_none(rs, k);
    }
}

fn contains_key(out: &Vec<Record>, key: &[u8]) -> (r: bool)
    ensures
        r == exists|m: int| 0 <= m < out@.len() && views(out@)[m].key == key@,
{
    let mut i: usize = 0;
    while i < out.len()
        invariant
            i <= out@.len(),
            forall|m: int| 0 <= m < i ==> views(out@)[m].key != key@,
        decreases out@.len() - i,
    {
        if crate::data::slices_eq(out[i].key.as_slice(), key) {
            assert(views(out@)[i as int].key == key@);
            return true;
        }
        i = i + 1;
    }
    false
}

/// Adds `r` to a key-sorted list with unique keys, unless its key is there
/// already; keys stay sorted and unique, and lookups answer as if `r` came
/// last.
fn merge_record(out: &mut Vec<Record>, r: Record)
    requires
        keys_unique(views(old(out)@)),
        keys_sorted(views(old(out)@)),
    ensures
        keys_unique(views(final(out)@)),
        keys_sorted(views(final(out)@)),
        forall|k: Seq<u8>|
            #[trigger] find(views(final(out)@), k) == match find(views(old(out)@), k) {
                Some(v) => Some(v),
                None => if k == r@.key {
                    Some(r@.value)
                } else {
                    None
                },
            },
{
    let ghost v0 = views(out@);
    let ghost rv = r@;
    if contains_key(out, r.key.as_slice()) {
        proof {
            assert forall|k: Seq<u8>| #[trigger] find(v0, k) == match find(v0, k) {
                Some(v) => Some(v),
                None => if k == rv.key {
                    Some(rv.value)
                } else {
                    None
                },
            } by {
                lemma_find_in_unique(v0, k);
            }
        }
        return;
    }
    let mut p: usize = 0;
    while p < out.len() && !key_le_exec(r.key.as_slice(), out[p].key.as_slice())
        invariant
            p <= out@.len(),
            v0 == views(out@),
            rv == r@,
            forall|j: int| 0 <= j < p ==> !key_le(rv.key, #[trigger] v0[j].key),
        decreases out@.len() - p,
    {
        p = p + 1;
    }
    out.insert(p, r);
    proof {
        let v1 = views(out@);
        assert(v1 =~= v0.insert(p as int, rv));
        assert forall|m1: int, m2: int|
            0 <= m1 < v1.len() && 0 <= m2 < v1.len() && #[trigger] v1[m1].key == #[trigger] v1[m2].key
                implies m1 == m2 by {
            let i1 = if m1 < p { m1 } else { m1 - 1 };
            let i2 = if m2 < p { m2 } else { m2 - 1 };
            if m1 != p && m2 != p {
                assert(v0[i1].key == v0[i2].key);
            } else if m1 == p && m2 != p {
                assert(v0[i2].key == rv.key);
            } else if m2 == p && m1 != p {
                assert(v0[i1].key == rv.key);
            }
        }
        assert forall|j: int| 0 <= j < v1.len() - 1 implies key_le(#[trigger] v1[j].key, v1[j + 1].key) by {
            if j + 1 < p {
                assert(key_le(v0[j].key, v0[j + 1].key));
            } else if j + 1 == p {
                lemma_key_le_total(rv.key, v0[j].key);
            } else if j == p {
                assert(key_le(rv.key, v0[p as int].key));
            } else {
                assert(key_le(v0[j - 1].key, v0[j].key));
            }
        }
        assert forall|k: Seq<u8>| #[trigger] find(v1, k) == match find(v0, k) {
            Some(v) => Some(v),
            None => if k == rv.key {
                Some(rv.value)
            } else {
                None
            },
        } by {
            lemma_find_in_unique(v0, k);
            lemma_find_in_unique(v1, k);
            if exists|m: int| 0 <= m < v0.len() && v0[m].key == k {
                let m = choose|m: int| 0 <= m < v0.len() && v0[m].key == k;
                let m1 = if m < p { m } else { m + 1 };
                assert(v1[m1].key == k);
                let c = choose|m: int| 0 <= m < v1.len() && v1[m].key == k;
                assert(c == m1);
            } else if k == rv.key {
                assert(v1[p as int].key == k);
                let c = choose|m: int| 0 <= m < v1.len() && v1[m].key == k;
                assert(c == p);
            } else {
                assert forall|m: int| 0 <= m < v1.len() implies v1[m].key != k by {
                    if m < p {
                        assert(v1[m] == v0[m]);
                    } else if m > p {
                        assert(v1[m] == v0[m - 1]);
                    }
                }
            }
        }
    }
}

/// The record whose span `parse_record` found.
fn record_of(b: &[u8], span: &crate::page::RecordSpan, pos: usize) -> (r: Record)
    requires
        record_at(b@, pos as int) is Some,
        crate::page::span_matches(
            b@,
            *span,
            record_at(b@, pos as int).unwrap().0,
            record_at(b@, pos as int).unwrap().1,
        ),
    ensures
        r@ == record_at(b@, pos as int).unwrap().0,
{
    let key = slice_to_vec(slice_subrange(b, span.key_start, span.key_end));
    let value = if span.is_put {
        Value::Put(slice_to_vec(slice_subrange(b, span.key_end, span.end)))
    } else {
        Value::Delete
    };
    Record { lsn: span.lsn, key, value }
}

impl PageTable {
    /// The newest record of every key in the chain at slot `start`, sorted
    /// by key.
    fn collect(&self, start: usize) -> (out: Vec<Record>)
        requires
            self.wf(),
            used(self@, start as int),
        ensures
            keys_unique(views(out@)),
            keys_sorted(views(out@)),
            forall|k: Seq<u8>|
                #[trigger] find(views(out@), k) == find(flatten(self@, start as int), k),
    {
        let mut out: Vec<Record> = Vec::new();
        let ghost mut done: Seq<RecordModel> = Seq::empty();
        let mut slot: usize = start;
        assert(flatten(self@, start as int) =~= done + flatten(self@, slot as int));
        loop
            invariant
                self.wf(),
                used(self@, slot as int),
                flatten(self@, start as int) == done + flatten(self@, slot as int),
                keys_unique(views(out@)),
                keys_sorted(views(out@)),
                forall|k: Seq<u8>| #[trigger] find(views(out@), k) == find(done, k),
            decreases slot,
        {
            let b = self.pages[slot].as_slice();
            assert(page_fits(self@[slot as int], slot as int));
            let ghost page_start = done;
            let mut pos: usize = crate::page::HEADER_LEN;
            assert(page_records(b@).unwrap() =~= Seq::<RecordModel>::empty() + records_from(
                b@,
                pos as int,
            ).unwrap());
            while pos < b.len()
                invariant
                    self.wf(),
                    used(self@, slot as int),
                    b@ == self@[slot as int],
                    crate::page::HEADER_LEN <= pos <= b@.len(),
                    records_from(b@, pos as int) is Some,
                    page_records(b@).unwrap() == done.subrange(page_start.len() as int, done.len() as int)
                        + records_from(b@, pos as int).unwrap(),
                    page_start.len() <= done.len(),
                    done.subrange(0, page_start.len() as int) == page_start,
                    keys_unique(views(out@)),
                    keys_sorted(views(out@)),
                    forall|k: Seq<u8>| #[trigger] find(views(out@), k) == find(done, k),
                decreases b@.len() - pos,
            {
                let span = parse_record(b, pos).unwrap();
                let r = record_of(b, &span, pos);
                let ghost rv = r@;
                let ghost old_done = done;
                let ghost rest = records_from(b@, span.end as int).unwrap();
                merge_record(&mut out, r);
                proof {
                    done = done.push(rv);
                    assert forall|k: Seq<u8>| #[trigger] find(views(out@), k) == find(done, k) by {
                        lemma_find_push(old_done, rv, k);
                    }
                    assert(done.subrange(page_start.len() as int, done.len() as int) =~= old_done.subrange(
                        page_start.len() as int,
                        old_done.len() as int,
                    ).push(rv));
                    assert(done.subrange(0, page_start.len() as int) =~= old_done.subrange(
                        0,
                        page_start.len() as int,
                    ));
                    assert(records_from(b@, pos as int).unwrap() == seq![rv] + rest);
                    assert(page_records(b@).unwrap() =~= done.subrange(page_start.len() as int, done.len() as int) + rest);
                }
                pos = span.end;
            }
            proof {
                assert(done =~= page_start + page_records(b@).unwrap());
            }
            let page = PageRef::new(b).unwrap();
            if page.kind() == PageKind::DeltaData {
                let a = match page.next() {
                    Some(PagePtr::Mem(a)) => a,
                    _ => {
                        assert(false);
                        return out;
                    },
                };
                proof {
                    assert(is_delta_at(self@, slot as int));
                    assert(used(self@, next_slot(self@, slot as int)));
                    assert(flatten(self@, slot as int) == page_records(b@).unwrap() + flatten(self@, (a - 1) as int));
                    assert(flatten(self@, start as int) =~= done + flatten(self@, (a - 1) as int));
                }
                slot = (a - 1) as usize;
            } else {
                proof {
                    assert(!is_delta_at(self@, slot as int));
                    assert(done =~= flatten(self@, start as int));
                }
                return out;
            }
        }
    }

    /// A base page for slot `addr` at version `ver` that holds the newest
    /// record of every key of the chain at `head`, in key order: it answers
    /// every key as the chain does.
    pub fn consolidate(&self, head: PagePtr, slot: Reservation, ver: u64) -> (r: Result<
        PageBuf,
        ChainError,
    >)
        requires
            self.wf(),
        ensures
            match head {
                PagePtr::Disk(_) => r == Err::<PageBuf, ChainError>(ChainError::NotResident),
                PagePtr::Mem(a) => if used(self@, a - 1) {
                    &&& r is Ok
                    &&& r.unwrap().addr() == slot.addr()
                    &&& page_wf(r.unwrap()@)
                    &&& page_kind(r.unwrap()@) == PageKind::BaseData
                    &&& page_next(r.unwrap()@) is None
                    &&& page_ver(r.unwrap()@) == ver
                    &&& keys_sorted(page_records(r.unwrap()@).unwrap())
                    &&& keys_unique(page_records(r.unwrap()@).unwrap())
                    &&& forall|k: Seq<u8>|
                        #[trigger] find(page_records(r.unwrap()@).unwrap(), k) == walk(
                            self@,
                            a - 1,
                            k,
                        )
                } else {
                    r == Err::<PageBuf, ChainError>(ChainError::Dangling)
                },
            },
    {
        let a = match head {
            PagePtr::Disk(_) => return Err(ChainError::NotResident),
            PagePtr::Mem(a) => a,
        };
        if a < 1 || a - 1 >= self.pages.len() as u64 || self.pages[(a - 1) as usize].len() == 0 {
            return Err(ChainError::Dangling);
        }
        let recs = self.collect((a - 1) as usize);
        let ghost addr = slot.addr();
        let mut base = BaseDataBuf::new(slot, ver);
        let mut i: usize = 0;
        while i < recs.len()
            invariant
                i <= recs@.len(),
                base.wf(),
                base.addr() == addr,
                page_ver(base@) == ver,
                base.records() == views(recs@).subrange(0, i as int),
                keys_sorted(views(recs@)),
            decreases recs@.len() - i,
        {
            proof {
                if i > 0 {
                    assert(key_le(views(recs@)[i - 1].key, views(recs@)[i as int].key));
                }
            }
            base.add(&recs[i]);
            i = i + 1;
            assert(views(recs@).subrange(0, i as int) =~= views(recs@).subrange(0, i - 1 as int).push(
                views(recs@)[i - 1],
            ));
        }
        assert(views(recs@).subrange(0, i as int) =~= views(recs@));
        let buf = base.finish();
        proof {
            assert forall|k: Seq<u8>| #[trigger] find(page_records(buf@).unwrap(), k) == walk(
                self@,
                a - 1,
                k,
            ) by {
                lemma_walk_flatten(self@, a - 1, k);
            }
        }
        Ok(buf)
    }
}

} // verus!
