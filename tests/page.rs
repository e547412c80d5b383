use photondb::chain::{ChainError, PageTable, PublishError};
use photondb::data::{
    key_le_exec, BaseDataBuf, BaseDataRef, DeltaDataBuf, DeltaDataLayout, PageRef, Record,
    Reservation, Value,
};
use photondb::kind::PageKind;
use photondb::page::HEADER_LEN;
use photondb::ptr::PagePtr;

/// A slot of a table of its own, for a buffer that is never published.
fn scratch_slot() -> Reservation {
    PageTable::new().reserve().unwrap()
}

fn base_table(pairs: &[(&[u8], &[u8])]) -> (PageTable, usize) {
    let mut table = PageTable::new();
    let mut base = BaseDataBuf::new(table.reserve().unwrap(), 1);
    for (i, (k, v)) in pairs.iter().enumerate() {
        assert!(base.can_add(k));
        base.add(&Record::put(i as u64 + 1, k, v));
    }
    let id = table.create(base.finish()).unwrap();
    (table, id)
}

fn read(table: &PageTable, id: usize, key: &[u8]) -> Option<Vec<u8>> {
    table.get(table.head(id).unwrap(), key).unwrap()
}

#[test]
fn example_scenario() {
    let (mut table, id) = base_table(&[(b"a", b"1"), (b"b", b"2")]);
    table.write(id, &Record::delete(3, b"b")).unwrap();
    table.write(id, &Record::put(4, b"a", b"9")).unwrap();
    assert_eq!(read(&table, id, b"a"), Some(b"9".to_vec()));
    assert_eq!(read(&table, id, b"b"), None);
    assert_eq!(read(&table, id, b"c"), None);
}

#[test]
fn pointer_round_trip() {
    for raw in [1u64, 42, (1 << 63) - 1, 1 << 63, (1 << 63) | 7, u64::MAX] {
        assert_eq!(PagePtr::decode(raw).encode(), raw);
    }
    for p in [PagePtr::Mem(1), PagePtr::Mem(99), PagePtr::Disk(0), PagePtr::Disk(12345)] {
        assert_eq!(PagePtr::decode(p.encode()), p);
    }
    assert_eq!(PagePtr::decode(5), PagePtr::Mem(5));
    assert_eq!(PagePtr::decode((1 << 63) | 5), PagePtr::Disk(5));
    assert_eq!(PagePtr::Disk(5).encode(), (1 << 63) | 5);
    assert!(PagePtr::Mem(3).is_mem());
    assert!(!PagePtr::Disk(3).is_mem());
}

#[test]
fn kind_classification() {
    assert!(PageKind::BaseData.is_data());
    assert!(PageKind::DeltaData.is_data());
    assert!(!PageKind::BaseIndex.is_data());
    assert!(!PageKind::DeltaIndex.is_data());
    assert_eq!(PageKind::BaseData.code(), 0);
    assert_eq!(PageKind::DeltaData.code(), 1);
    assert_eq!(PageKind::BaseIndex.code(), 32);
    assert_eq!(PageKind::DeltaIndex.code(), 33);
    assert_eq!(PageKind::from_code(33), Some(PageKind::DeltaIndex));
    assert_eq!(PageKind::from_code(2), None);
    assert!(PageKind::DeltaIndex.is_delta());
    assert!(!PageKind::BaseData.is_delta());
}

#[test]
fn header_fields_read_back() {
    let mut table = PageTable::new();
    for _ in 0..6 {
        table.reserve().unwrap();
    }
    let mut delta = DeltaDataBuf::new(table.reserve().unwrap(), 42, PagePtr::Disk(9));
    delta.add(&Record::put(1, b"k", b"v"));
    let buf = delta.finish();
    assert_eq!(buf.as_ptr(), PagePtr::Mem(7));
    let page = buf.as_page();
    assert_eq!(page.ver(), 42);
    assert_eq!(page.kind(), PageKind::DeltaData);
    assert_eq!(page.next(), Some(PagePtr::Disk(9)));
    assert_eq!(page.len(), 1);
    let bytes = buf.into_bytes();
    // 18 header bytes, then 25 + 1 + 1 record bytes.
    assert_eq!(bytes.len(), HEADER_LEN + 27);
    assert_eq!(&bytes[0..8], &42u64.to_be_bytes());
}

#[test]
fn short_or_unknown_header_is_refused() {
    assert!(PageRef::new(&[0u8; 17]).is_none());
    let mut bytes = vec![0u8; 18];
    bytes[9] = 5;
    assert!(PageRef::new(&bytes).is_none());
    bytes[9] = 32;
    assert_eq!(PageRef::new(&bytes).unwrap().kind(), PageKind::BaseIndex);
}

#[test]
fn delta_view_finds_only_its_records() {
    let mut layout = DeltaDataLayout::default();
    layout.add(&Record::put(5, b"x", b"10"));
    layout.add(&Record::delete(6, b"y"));
    let buf = layout.build(scratch_slot(), 2, PagePtr::Mem(1));
    let view = photondb::data::DeltaDataRef::from_page(buf.as_page()).unwrap();
    assert_eq!(view.as_page().next(), Some(PagePtr::Mem(1)));
    let view = photondb::data::DeltaDataRef::from_page(buf.as_page()).unwrap();
    assert_eq!(view.get(b"x"), Some(Value::Put(b"10".to_vec())));
    let view = photondb::data::DeltaDataRef::from_page(buf.as_page()).unwrap();
    assert_eq!(view.get(b"y"), Some(Value::Delete));
    let view = photondb::data::DeltaDataRef::from_page(buf.as_page()).unwrap();
    assert_eq!(view.get(b"z"), None);
    assert!(BaseDataRef::from_page(buf.as_page()).is_none());
}

#[test]
fn base_view_keeps_tombstones() {
    let mut base = BaseDataBuf::new(scratch_slot(), 1);
    base.add(&Record::put(1, b"a", b"1"));
    assert!(base.can_add(b"b"));
    base.add(&Record::delete(2, b"b"));
    assert!(!base.can_add(b"a"));
    assert!(base.can_add(b"b"));
    assert!(base.can_add(b"ba"));
    let buf = base.finish();
    let view = BaseDataRef::from_page(buf.as_page()).unwrap();
    assert_eq!(view.get(b"b"), Some(Value::Delete));
    let view = BaseDataRef::from_page(buf.as_page()).unwrap();
    assert_eq!(view.get(b"a"), Some(Value::Put(b"1".to_vec())));
    let view = BaseDataRef::from_page(buf.as_page()).unwrap();
    assert_eq!(view.get(b"c"), None);
}

#[test]
fn key_order_is_lexicographic() {
    assert!(key_le_exec(b"", b""));
    assert!(key_le_exec(b"a", b"ab"));
    assert!(!key_le_exec(b"ab", b"a"));
    assert!(key_le_exec(b"ab", b"b"));
    assert!(!key_le_exec(b"b", b"ab"));
    assert!(key_le_exec(b"abc", b"abc"));
}

#[test]
fn most_recent_put_wins() {
    let (mut table, id) = base_table(&[(b"k", b"old")]);
    table.write(id, &Record::put(2, b"k", b"mid")).unwrap();
    table.write(id, &Record::put(3, b"other", b"x")).unwrap();
    table.write(id, &Record::put(4, b"k", b"new")).unwrap();
    assert_eq!(read(&table, id, b"k"), Some(b"new".to_vec()));
    assert_eq!(read(&table, id, b"other"), Some(b"x".to_vec()));
}

#[test]
fn tombstone_hides_older_values() {
    let (mut table, id) = base_table(&[(b"k", b"v")]);
    table.write(id, &Record::put(2, b"k", b"w")).unwrap();
    table.write(id, &Record::delete(3, b"k")).unwrap();
    assert_eq!(read(&table, id, b"k"), None);
}

#[test]
fn versions_and_chain_grow_by_one_per_publish() {
    let (mut table, id) = base_table(&[(b"a", b"1")]);
    let n = 5u64;
    for i in 0..n {
        let key = [b'k', i as u8];
        let p = table.write(id, &Record::put(10 + i, &key, b"v")).unwrap();
        assert_eq!(p, PagePtr::Mem(i + 2));
    }
    let head = table.head(id).unwrap();
    assert_eq!(head, PagePtr::Mem(n + 1));
    let mut steps = 0;
    let mut cur = Some(head);
    while let Some(p) = cur {
        let page = table.page(p).unwrap();
        steps += 1;
        assert_eq!(page.ver(), n + 2 - steps);
        cur = page.next();
        if cur.is_none() {
            assert_eq!(page.kind(), PageKind::BaseData);
        } else {
            assert_eq!(page.kind(), PageKind::DeltaData);
        }
    }
    assert_eq!(steps, n + 1);
    for i in 0..n {
        assert_eq!(read(&table, id, &[b'k', i as u8]), Some(b"v".to_vec()));
    }
}

#[test]
fn stale_compare_and_swap_is_refused() {
    let (mut table, id) = base_table(&[(b"a", b"1")]);
    let base_ptr = table.head(id).unwrap();
    let mut d1 = DeltaDataBuf::new(table.reserve().unwrap(), 2, base_ptr);
    d1.add(&Record::put(2, b"a", b"2"));
    assert_eq!(table.publish(id, base_ptr, d1.finish()), Ok(PagePtr::Mem(2)));
    // A second writer that read the same old head loses the race.
    let mut d2 = DeltaDataBuf::new(table.reserve().unwrap(), 2, base_ptr);
    d2.add(&Record::put(3, b"b", b"3"));
    assert_eq!(table.publish(id, base_ptr, d2.finish()), Err(PublishError::Stale));
    // Retrying on the new head succeeds and keeps both updates.
    let head = table.head(id).unwrap();
    let mut d3 = DeltaDataBuf::new(table.reserve().unwrap(), 3, head);
    d3.add(&Record::put(3, b"b", b"3"));
    assert_eq!(table.publish(id, head, d3.finish()), Ok(PagePtr::Mem(4)));
    assert_eq!(read(&table, id, b"a"), Some(b"2".to_vec()));
    assert_eq!(read(&table, id, b"b"), Some(b"3".to_vec()));
}

#[test]
fn publish_errors() {
    let (mut table, id) = base_table(&[(b"a", b"1")]);
    let head = table.head(id).unwrap();
    let d = DeltaDataBuf::new(table.reserve().unwrap(), 2, head);
    assert_eq!(table.publish(id + 1, head, d.finish()), Err(PublishError::UnknownId));
    // A slot of another table is, here, a slot that is filled already.
    let d = DeltaDataBuf::new(scratch_slot(), 2, head);
    assert_eq!(table.publish(id, head, d.finish()), Err(PublishError::WrongAddr));
    // A delta that does not sit on the expected head.
    let d = DeltaDataBuf::new(table.reserve().unwrap(), 2, PagePtr::Mem(2));
    assert_eq!(table.publish(id, head, d.finish()), Err(PublishError::Malformed));
    let b = BaseDataBuf::new(table.reserve().unwrap(), 1);
    assert_eq!(table.create(b.finish()), Ok(1));
    let d = DeltaDataBuf::new(table.reserve().unwrap(), 2, PagePtr::Mem(1));
    assert_eq!(table.create(d.finish()), Err(PublishError::Malformed));
    assert_eq!(table.write(7, &Record::delete(1, b"a")), Err(PublishError::UnknownId));
    // A page whose version does not rise above the head's is refused.
    let head = table.head(id).unwrap();
    let slot = table.reserve().unwrap();
    let next = slot.ptr();
    let d = DeltaDataBuf::new(slot, 1, head);
    assert_eq!(table.publish(id, head, d.finish()), Err(PublishError::OldVersion));
    let d = DeltaDataBuf::new(table.reserve().unwrap(), 2, head);
    let ptr = d.finish();
    let expected = ptr.as_ptr();
    assert_ne!(expected, next);
    assert_eq!(table.publish(id, head, ptr), Ok(expected));
}

#[test]
fn reservations_give_distinct_pointers() {
    let mut table = PageTable::new();
    let s1 = table.reserve().unwrap();
    let s2 = table.reserve().unwrap();
    let (p1, p2) = (s1.ptr(), s2.ptr());
    assert_eq!(p1, PagePtr::Mem(1));
    assert_eq!(p2, PagePtr::Mem(2));
    let b1 = BaseDataBuf::new(s1, 1).finish();
    let b2 = BaseDataBuf::new(s2, 1).finish();
    assert_eq!(b1.as_ptr(), p1);
    assert_eq!(b2.as_ptr(), p2);
    assert_ne!(b1.as_ptr(), b2.as_ptr());
    // Filling the later slot first is fine; the earlier one stays free.
    assert_eq!(table.create(b2), Ok(0));
    assert_eq!(table.get(p1, b"a"), Err(ChainError::Dangling));
    assert!(table.page(p1).is_none());
    assert_eq!(table.create(b1), Ok(1));
    assert!(table.page(p1).is_some());
}

#[test]
fn consolidated_base_answers_as_chain() {
    let (mut table, id) = base_table(&[(b"a", b"1"), (b"b", b"2"), (b"c", b"3")]);
    table.write(id, &Record::delete(4, b"b")).unwrap();
    table.write(id, &Record::put(5, b"a", b"9")).unwrap();
    table.write(id, &Record::put(6, b"d", b"4")).unwrap();
    let head = table.head(id).unwrap();
    let mut base = BaseDataBuf::new(table.reserve().unwrap(), 5);
    base.add(&Record::put(5, b"a", b"9"));
    base.add(&Record::delete(4, b"b"));
    base.add(&Record::put(3, b"c", b"3"));
    base.add(&Record::put(6, b"d", b"4"));
    let new_head = table.publish(id, head, base.finish()).unwrap();
    for key in [&b"a"[..], b"b", b"c", b"d", b"e"] {
        assert_eq!(table.get(new_head, key), table.get(head, key));
    }
    assert_eq!(table.page(new_head).unwrap().next(), None);
}

#[test]
fn unreadable_heads() {
    let (table, _) = base_table(&[(b"a", b"1")]);
    assert_eq!(table.get(PagePtr::Disk(1), b"a"), Err(ChainError::NotResident));
    assert_eq!(table.get(PagePtr::Mem(2), b"a"), Err(ChainError::Dangling));
    assert!(table.page(PagePtr::Disk(1)).is_none());
}

#[test]
fn size_class_counts_blocks() {
    let mut base = BaseDataBuf::new(scratch_slot(), 1);
    let value = vec![7u8; 600];
    base.add(&Record::put(1, b"k", &value));
    let buf = base.finish();
    // 18 + 25 + 1 + 600 = 644 bytes: three 256-byte blocks.
    assert_eq!(buf.as_page().len(), 3);
    let empty = BaseDataBuf::new(scratch_slot(), 1).finish();
    assert_eq!(empty.as_page().len(), 1);
}

#[test]
fn consolidate_replays_newest_per_key() {
    let (mut table, id) = base_table(&[(b"a", b"1"), (b"b", b"2"), (b"c", b"3")]);
    table.write(id, &Record::delete(4, b"b")).unwrap();
    table.write(id, &Record::put(5, b"a", b"9")).unwrap();
    table.write(id, &Record::put(6, b"0", b"z")).unwrap();
    table.write(id, &Record::put(7, b"a", b"10")).unwrap();
    let head = table.head(id).unwrap();
    let slot = table.reserve().unwrap();
    let buf = table.consolidate(head, slot, 6).unwrap();
    {
        let page = buf.as_page();
        assert_eq!(page.kind(), PageKind::BaseData);
        assert_eq!(page.ver(), 6);
        assert_eq!(page.next(), None);
    }
    let new_head = table.publish(id, head, buf).unwrap();
    for key in [&b"0"[..], b"a", b"b", b"c", b"d"] {
        assert_eq!(table.get(new_head, key), table.get(head, key));
    }
    assert_eq!(read(&table, id, b"a"), Some(b"10".to_vec()));
    assert_eq!(read(&table, id, b"b"), None);
    // The tombstone for "b" stays in the base page.
    let view = BaseDataRef::from_page(table.page(new_head).unwrap()).unwrap();
    assert_eq!(view.get(b"b"), Some(Value::Delete));
    let slot = table.reserve().unwrap();
    assert_eq!(table.consolidate(PagePtr::Disk(1), slot, 1).err(), Some(ChainError::NotResident));
    let slot = table.reserve().unwrap();
    assert_eq!(table.consolidate(PagePtr::Mem(99), slot, 1).err(), Some(ChainError::Dangling));
}

#[test]
fn base_lookup_over_many_keys() {
    let mut base = BaseDataBuf::new(scratch_slot(), 1);
    for i in 0..200u32 {
        let key = (i * 2).to_be_bytes();
        if i % 7 == 0 {
            base.add(&Record::delete(i as u64, &key));
        } else {
            base.add(&Record::put(i as u64, &key, &i.to_le_bytes()));
        }
    }
    let buf = base.finish();
    for i in 0..200u32 {
        let view = BaseDataRef::from_page(buf.as_page()).unwrap();
        let got = view.get(&(i * 2).to_be_bytes());
        if i % 7 == 0 {
            assert_eq!(got, Some(Value::Delete));
        } else {
            assert_eq!(got, Some(Value::Put(i.to_le_bytes().to_vec())));
        }
        let view = BaseDataRef::from_page(buf.as_page()).unwrap();
        assert_eq!(view.get(&(i * 2 + 1).to_be_bytes()), None);
    }
}

#[test]
fn base_lookup_with_equal_keys_takes_first() {
    let mut base = BaseDataBuf::new(scratch_slot(), 1);
    base.add(&Record::put(1, b"a", b"x"));
    base.add(&Record::put(2, b"b", b"first"));
    base.add(&Record::put(3, b"b", b"second"));
    base.add(&Record::put(4, b"c", b"y"));
    let buf = base.finish();
    let view = BaseDataRef::from_page(buf.as_page()).unwrap();
    assert_eq!(view.get(b"b"), Some(Value::Put(b"first".to_vec())));
}

#[test]
fn unsorted_base_page_is_refused() {
    let mut base = BaseDataBuf::new(scratch_slot(), 1);
    base.add(&Record::put(1, b"b", b"1"));
    assert!(!base.can_add(b"a"));
    let mut delta = DeltaDataBuf::new(scratch_slot(), 1, PagePtr::Mem(1));
    delta.add(&Record::put(1, b"b", b"1"));
    delta.add(&Record::put(2, b"a", b"2"));
    let mut bytes = delta.finish().into_bytes();
    bytes[9] = PageKind::BaseData.code();
    bytes[10..18].copy_from_slice(&[0u8; 8]);
    let page = PageRef::new(&bytes).unwrap();
    assert_eq!(page.kind(), PageKind::BaseData);
    assert!(BaseDataRef::from_page(page).is_none());
}

#[test]
fn version_overflow_is_full() {
    let mut table = PageTable::new();
    let base = BaseDataBuf::new(table.reserve().unwrap(), u64::MAX);
    let id = table.create(base.finish()).unwrap();
    assert_eq!(table.write(id, &Record::put(1, b"a", b"1")), Err(PublishError::Full));
    assert_eq!(read(&table, id, b"a"), None);
}

#[test]
fn racing_writers_lose_no_update() {
    let (mut table, id) = base_table(&[(b"base", b"0")]);
    let writers = 6u64;
    let mut pending: Vec<u64> = (0..writers).collect();
    let mut rounds = 0;
    while !pending.is_empty() {
        rounds += 1;
        // Every pending writer reads the same head, then all try to swap it.
        let head = table.head(id).unwrap();
        let ver = table.page(head).unwrap().ver();
        let mut losers = Vec::new();
        for &w in &pending {
            let mut d = DeltaDataBuf::new(table.reserve().unwrap(), ver + 1, head);
            d.add(&Record::put(w, &[b'w', w as u8], &[w as u8]));
            match table.publish(id, head, d.finish()) {
                Ok(_) => {}
                Err(PublishError::Stale) => losers.push(w),
                Err(e) => panic!("unexpected {:?}", e),
            }
        }
        assert_eq!(losers.len(), pending.len() - 1);
        pending = losers;
    }
    assert_eq!(rounds, writers);
    let mut deltas = 0;
    let mut cur = table.page(table.head(id).unwrap()).unwrap().next();
    while let Some(p) = cur {
        deltas += 1;
        cur = table.page(p).unwrap().next();
    }
    assert_eq!(deltas, writers);
    for w in 0..writers {
        assert_eq!(read(&table, id, &[b'w', w as u8]), Some(vec![w as u8]));
    }
}

#[test]
fn table_accepts_sorted_base_page() {
    let mut table = PageTable::new();
    let mut base = BaseDataBuf::new(scratch_slot(), 1);
    base.add(&Record::put(1, b"b", b"1"));
    assert!(!base.can_add(b"a"));
    let mut base = BaseDataBuf::new(table.reserve().unwrap(), 1);
    base.add(&Record::put(1, b"a", b"2"));
    base.add(&Record::put(2, b"b", b"1"));
    assert_eq!(table.create(base.finish()), Ok(0));
    assert_eq!(read(&table, 0, b"a"), Some(b"2".to_vec()));
    assert_eq!(read(&table, 0, b"b"), Some(b"1".to_vec()));
}

#[test]
fn layout_reports_collected_keys() {
    let mut layout = DeltaDataLayout::default();
    assert!(!layout.contains(b"x"));
    layout.add(&Record::put(1, b"x", b"1"));
    assert!(layout.contains(b"x"));
    assert!(!layout.contains(b"y"));
    let buf = layout.build(scratch_slot(), 1, PagePtr::Disk(0));
    assert_eq!(buf.as_ptr(), PagePtr::Mem(1));
    assert_ne!(buf.as_ptr().encode(), 0);
}

#[test]
fn views_know_their_pointer() {
    let (table, id) = base_table(&[(b"a", b"1")]);
    let head = table.head(id).unwrap();
    assert_eq!(table.page(head).unwrap().ptr(), Some(head));
    let bytes = [0u8; 18];
    assert_eq!(PageRef::new(&bytes).unwrap().ptr(), None);
    let buf = BaseDataBuf::new(scratch_slot(), 1).finish();
    assert_eq!(buf.as_page().ptr(), Some(buf.as_ptr()));
}
