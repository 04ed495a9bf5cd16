use seekfs::cache::{
    GetOrLoad, LoadAction, LoadEvent, ManifestAction, ManifestCache, ManifestEvent, ManifestLoad,
    ManifestState, HEAD_READ_END, MANIFEST_TTL,
};
use seekfs::digest::{digest_to_path, key_digest, push_le_bytes, read_le_bytes};
use seekfs::l2::{L2Backend, L2Error, L2Put, PutOutcome, StatsSnapshot};
use seekfs::manifest::Manifest;
use seekfs::mem::MemL2;
use seekfs::publish::{head_body, Publish, PublishAction, PublishEvent};
use seekfs::segment::{
    decode_location, encode_location, last_segment, segment_id, segment_name, DeleteAction,
    DeleteEvent, GetAction, GetEvent, Location, SegmentAction, SegmentDelete, SegmentEvent,
    SegmentGet, SegmentPut, SegmentStore, MAX_SEG_BYTES,
};
use seekfs::store::{HeadInfo, StoreError};
use seekfs::types::CacheKey;
use std::collections::HashMap;
use std::sync::Arc;

fn key(path: &str, page_id: u32) -> CacheKey {
    CacheKey::new("dev", path, "sha256-x", page_id)
}

#[test]
fn memory_gives_what_was_put() {
    let mut m = MemL2::new();
    assert_eq!(m.name(), "mem");
    assert!(m.get(&key("a", 0)).is_none());
    assert!(matches!(m.put(key("a", 0), vec![1, 2, 3]), Ok(PutOutcome::Inserted)));
    assert!(matches!(m.put(key("a", 1), vec![4]), Ok(PutOutcome::Inserted)));
    assert_eq!(m.get(&key("a", 0)), Some(vec![1, 2, 3]));
    assert_eq!(m.get(&key("a", 1)), Some(vec![4]));
    assert_eq!(m.stats(), StatsSnapshot { items: 2, bytes: 4 });
    assert!(matches!(m.put(key("a", 0), vec![9]), Ok(PutOutcome::Updated)));
    assert_eq!(m.get(&key("a", 0)), Some(vec![9]));
    assert_eq!(m.get(&key("a", 1)), Some(vec![4]));
    assert_eq!(m.stats(), StatsSnapshot { items: 2, bytes: 2 });
}

#[test]
fn memory_forgets_what_was_deleted() {
    let mut m = MemL2::new();
    m.put(key("a", 0), vec![1, 2]).unwrap();
    m.put(key("b", 0), vec![3]).unwrap();
    m.delete(&key("a", 0)).unwrap();
    m.delete(&key("c", 0)).unwrap();
    assert!(m.get(&key("a", 0)).is_none());
    assert_eq!(m.get(&key("b", 0)), Some(vec![3]));
    assert_eq!(m.stats(), StatsSnapshot { items: 1, bytes: 1 });
    m.delete(&key("b", 0)).unwrap();
    assert_eq!(m.stats(), StatsSnapshot::default());
}

#[test]
fn memory_takes_pages_in_chunks() {
    let mut m = MemL2::new();
    let mut put = m.put_stream(key("a", 0), Some(4)).unwrap();
    put.write(&[1, 2]).unwrap();
    put.write(&[]).unwrap();
    put.write(&[3]).unwrap();
    assert!(m.get(&key("a", 0)).is_none());
    assert!(matches!(put.commit(&mut m), Ok(PutOutcome::Inserted)));
    assert_eq!(m.get(&key("a", 0)), Some(vec![1, 2, 3]));
    let put = m.put_stream(key("a", 0), None).unwrap();
    put.abort();
    assert_eq!(m.stats(), StatsSnapshot { items: 1, bytes: 3 });
}

fn replace_and_read<B: L2Backend>(b: &mut B, k: fn() -> CacheKey) -> Option<Vec<u8>> {
    b.put(k(), vec![1]).ok()?;
    let mut put = b.put_stream(k(), None).ok()?;
    put.write(&[2]).ok()?;
    put.write(&[3]).ok()?;
    put.commit(b).ok()?;
    b.get(&k())
}

#[test]
fn any_backend_gives_what_was_put() {
    let mut m = MemL2::new();
    m.put(key("b", 0), vec![9]).unwrap();
    assert_eq!(replace_and_read(&mut m, || key("a", 0)), Some(vec![2, 3]));
    assert_eq!(m.get(&key("b", 0)), Some(vec![9]));
    assert_eq!(m.stats(), StatsSnapshot { items: 2, bytes: 3 });
}

#[test]
fn counts_go_on_from_zero_behind_the_last_number() {
    let mut store = SegmentStore::new(1, 0);
    store.count_file(u64::MAX);
    store.count_file(3);
    assert_eq!(store.stats, StatsSnapshot { items: 2, bytes: 2 });
    store.stats.items = u64::MAX;
    assert_eq!(store.count_page_file(0, 1), PutOutcome::Inserted);
    assert_eq!(store.stats, StatsSnapshot { items: 0, bytes: 3 });
}

#[test]
fn backend_errors_have_a_text() {
    assert_eq!(L2Error::Backend("disk full".to_string()).message(), "backend error: disk full");
}

#[test]
fn digests_are_sha256_in_hex() {
    assert_eq!(
        key_digest(&CacheKey::new("dev", "warm.bin", "sha256-x", 3)),
        "313430ef9d0050be3b00910c8509540254628ba4c2d92c212d77aee84dcf8445"
    );
    assert_ne!(key_digest(&key("a", 0)), key_digest(&key("a", 1)));
    // The parts are told apart by bars alone.
    assert_eq!(
        key_digest(&CacheKey::new("a|b", "c", "h", 0)),
        key_digest(&CacheKey::new("a", "b|c", "h", 0))
    );
}

#[test]
fn digests_have_places() {
    assert_eq!(digest_to_path("abcdef"), vec!["ab", "cd", "ef.slab"]);
    assert_eq!(digest_to_path("abcd"), vec!["ab", "cd", ".slab"]);
    assert_eq!(digest_to_path("abc"), vec!["abc.slab"]);
}

#[test]
fn numbers_are_read_back_from_their_bytes() {
    let mut b = vec![7];
    push_le_bytes(&mut b, 0x0102_0304, 4);
    assert_eq!(b, vec![7, 4, 3, 2, 1]);
    assert_eq!(read_le_bytes(&b[1..]), 0x0102_0304);
    assert_eq!(read_le_bytes(&[255; 8]), u64::MAX);
    assert_eq!(read_le_bytes(&[]), 0);
}

#[test]
fn segments_have_names() {
    assert_eq!(segment_name(1), "data-00001.seg");
    assert_eq!(segment_name(123456), "data-123456.seg");
    assert_eq!(segment_id("data-00001.seg"), Some(1));
    assert_eq!(segment_id("data-7.seg"), Some(7));
    assert_eq!(segment_id("data-4294967295.seg"), Some(u32::MAX));
    assert_eq!(segment_id("data-4294967296.seg"), None);
    assert_eq!(segment_id("data-.seg"), None);
    assert_eq!(segment_id("data-1.segx"), None);
    assert_eq!(segment_id("index.redb"), None);
    for id in [0, 9, 99999, 100000, u32::MAX] {
        assert_eq!(segment_id(&segment_name(id)), Some(id));
    }
}

#[test]
fn the_last_segment_is_found() {
    let names = |s: &[&str]| s.iter().map(|n| n.to_string()).collect::<Vec<String>>();
    assert_eq!(last_segment(&names(&[])), 1);
    assert_eq!(last_segment(&names(&["index.redb", "data-00000.seg"])), 1);
    assert_eq!(last_segment(&names(&["data-00003.seg", "data-00012.seg", "x", "data-00004.seg"])), 12);
}

#[test]
fn locations_are_read_back_from_their_records() {
    let at = Location { segment: 2, off: 0x1_0000_0001, len: 5 };
    let r = encode_location(at);
    assert_eq!(r, vec![2, 0, 0, 0, 1, 0, 0, 0, 1, 0, 0, 0, 5, 0, 0, 0]);
    assert_eq!(decode_location(&r), Some(at));
    assert_eq!(decode_location(&r[..15]), None);
    let end = Location { segment: u32::MAX, off: u64::MAX, len: u32::MAX };
    assert_eq!(decode_location(&encode_location(end)), Some(end));
}

#[derive(Default)]
struct Disk {
    segments: HashMap<u32, Vec<u8>>,
    index: HashMap<String, Vec<u8>>,
    pages: HashMap<Vec<String>, Vec<u8>>,
}

fn put(disk: &mut Disk, store: &mut SegmentStore, k: &CacheKey, chunks: &[&[u8]]) -> PutOutcome {
    let mut put = SegmentPut::new(k);
    for c in chunks {
        put.write(c);
    }
    let mut event = SegmentEvent::Begin;
    loop {
        event = match put.step(store, event).unwrap() {
            SegmentAction::OpenSegment(id) => {
                disk.segments.entry(id).or_default();
                SegmentEvent::Opened
            }
            SegmentAction::Append { segment, off, data } => {
                let s = disk.segments.entry(segment).or_default();
                assert_eq!(s.len() as u64, off);
                s.extend_from_slice(&data);
                SegmentEvent::Appended
            }
            SegmentAction::IndexPut { digest, record } => {
                SegmentEvent::Indexed(disk.index.insert(digest, record).is_some())
            }
            SegmentAction::Done(o) => return o,
            SegmentAction::Fail(e) => panic!("{}", e.message()),
        };
    }
}

fn get(disk: &Disk, k: &CacheKey) -> Option<Vec<u8>> {
    let mut get = SegmentGet::new(k);
    let mut event = GetEvent::Begin;
    loop {
        event = match get.step(event).unwrap() {
            GetAction::Index(d) => match disk.index.get(&d) {
                Some(r) => GetEvent::Record(r.clone()),
                None => GetEvent::NoRecord,
            },
            GetAction::ReadSegment { name, off, len } => {
                match disk.segments.get(&segment_id(&name).unwrap()) {
                    None => GetEvent::SegmentUnavailable,
                    Some(s) => match s.get(off as usize..off as usize + len as usize) {
                        Some(b) => GetEvent::SegmentRead(b.to_vec()),
                        None => GetEvent::SegmentShort,
                    },
                }
            }
            GetAction::ReadPage(place) => match disk.pages.get(&place) {
                Some(b) => GetEvent::PageRead(b.clone()),
                None => GetEvent::PageMissing,
            },
            GetAction::Found(b) => return Some(b),
            GetAction::Absent => return None,
        };
    }
}

fn delete(disk: &mut Disk, store: &mut SegmentStore, k: &CacheKey) {
    let mut d = SegmentDelete::new(k);
    let digest = match d.step(store, DeleteEvent::Begin) {
        Some(DeleteAction::IndexDelete(digest)) => digest,
        other => panic!("{:?}", other),
    };
    let removed = disk.index.remove(&digest).is_some();
    assert!(matches!(d.step(store, DeleteEvent::Removed(removed)), Some(DeleteAction::Done)));
}

#[test]
fn a_delete_that_fails_changes_nothing() {
    let mut store = SegmentStore::new(1, 0);
    store.count_file(5);
    let mut d = SegmentDelete::new(&key("a", 0));
    d.step(&mut store, DeleteEvent::Begin);
    match d.step(&mut store, DeleteEvent::Failed("io".to_string())) {
        Some(DeleteAction::Fail(e)) => assert_eq!(e.message(), "backend error: io"),
        other => panic!("{:?}", other),
    }
    assert_eq!(store.stats, StatsSnapshot { items: 1, bytes: 5 });
    assert!(d.step(&mut store, DeleteEvent::Removed(true)).is_none());
}

#[test]
fn the_disk_gives_what_was_put() {
    let mut disk = Disk::default();
    let mut store = SegmentStore::new(1, 0);
    assert_eq!(get(&disk, &key("a", 0)), None);
    assert_eq!(put(&mut disk, &mut store, &key("a", 0), &[&[1, 2], &[3]]), PutOutcome::Inserted);
    assert_eq!(put(&mut disk, &mut store, &key("a", 1), &[]), PutOutcome::Inserted);
    assert_eq!(put(&mut disk, &mut store, &key("b", 0), &[&[4, 5]]), PutOutcome::Inserted);
    assert_eq!(get(&disk, &key("a", 0)), Some(vec![1, 2, 3]));
    assert_eq!(get(&disk, &key("a", 1)), Some(vec![]));
    assert_eq!(put(&mut disk, &mut store, &key("a", 0), &[&[9]]), PutOutcome::Updated);
    assert_eq!(get(&disk, &key("a", 0)), Some(vec![9]));
    assert_eq!(get(&disk, &key("b", 0)), Some(vec![4, 5]));
    assert_eq!(store.active.size, 6);
    assert_eq!(store.stats, StatsSnapshot { items: 3, bytes: 6 });
}

#[test]
fn the_disk_forgets_what_was_deleted() {
    let mut disk = Disk::default();
    let mut store = SegmentStore::new(1, 0);
    put(&mut disk, &mut store, &key("a", 0), &[&[1]]);
    put(&mut disk, &mut store, &key("b", 0), &[&[2]]);
    delete(&mut disk, &mut store, &key("a", 0));
    delete(&mut disk, &mut store, &key("a", 0));
    assert_eq!(get(&disk, &key("a", 0)), None);
    assert_eq!(get(&disk, &key("b", 0)), Some(vec![2]));
    assert_eq!(store.stats, StatsSnapshot { items: 1, bytes: 2 });
    store.count_removed(false);
    assert_eq!(store.stats.items, 1);
    store.count_removed(true);
    store.count_removed(true);
    assert_eq!(store.stats.items, 0);
}

#[test]
fn a_page_may_have_a_file_of_its_own() {
    let mut disk = Disk::default();
    let place = digest_to_path(&key_digest(&key("a", 0)));
    disk.pages.insert(place, vec![7, 7]);
    assert_eq!(get(&disk, &key("a", 0)), Some(vec![7, 7]));
    // A record of another length, or into a segment that is too short.
    disk.index.insert(key_digest(&key("a", 0)), vec![0; 15]);
    assert_eq!(get(&disk, &key("a", 0)), Some(vec![7, 7]));
    disk.segments.insert(1, vec![0; 3]);
    let at = Location { segment: 1, off: 2, len: 2 };
    disk.index.insert(key_digest(&key("a", 0)), encode_location(at));
    assert_eq!(get(&disk, &key("a", 0)), Some(vec![7, 7]));
    // Not so if the segment is gone.
    disk.segments.clear();
    assert_eq!(get(&disk, &key("a", 0)), None);
}

#[test]
fn segments_roll_at_one_gib() {
    let mut disk = Disk::default();
    disk.segments.insert(5, vec![]);
    let mut store = SegmentStore::new(4, MAX_SEG_BYTES - 2);
    let mut p = SegmentPut::new(&key("a", 0));
    p.write(&[1, 2]);
    match p.step(&mut store, SegmentEvent::Begin) {
        Some(SegmentAction::Append { segment, off, data }) => {
            assert_eq!((segment, off, data), (4, 1_073_741_822, vec![1, 2]));
        }
        other => panic!("{:?}", other),
    }
    assert_eq!(put(&mut disk, &mut store, &key("a", 0), &[&[1, 2, 3]]), PutOutcome::Inserted);
    assert_eq!((store.active.id, store.active.size), (5, 3));
    assert_eq!(disk.segments[&5], vec![1, 2, 3]);
}

#[test]
fn a_store_that_is_opened_again_goes_on() {
    let mut disk = Disk::default();
    let mut store = SegmentStore::new(2, MAX_SEG_BYTES);
    put(&mut disk, &mut store, &key("a", 0), &[&[1, 2]]);
    let mut names: Vec<String> = disk.segments.keys().map(|id| segment_name(*id)).collect();
    names.push("index.redb".to_string());
    let id = last_segment(&names);
    let mut again = SegmentStore::new(id, disk.segments[&id].len() as u64);
    assert_eq!(again.active, store.active);
    put(&mut disk, &mut again, &key("b", 0), &[&[3]]);
    assert_eq!(get(&disk, &key("a", 0)), Some(vec![1, 2]));
    assert_eq!(get(&disk, &key("b", 0)), Some(vec![3]));
}

#[test]
fn a_put_that_fails_says_why() {
    let mut store = SegmentStore::new(1, MAX_SEG_BYTES);
    let mut p = SegmentPut::new(&key("a", 0));
    p.write(&[1]);
    assert!(matches!(p.step(&mut store, SegmentEvent::Begin), Some(SegmentAction::OpenSegment(2))));
    match p.step(&mut store, SegmentEvent::Failed("no space".to_string())) {
        Some(SegmentAction::Fail(e)) => assert_eq!(e.message(), "backend error: no space"),
        other => panic!("{:?}", other),
    }
    assert_eq!((store.active.id, store.active.size), (1, MAX_SEG_BYTES));
    // The segment stays begun when the write fails.
    let mut p = SegmentPut::new(&key("a", 0));
    p.write(&[1]);
    p.step(&mut store, SegmentEvent::Begin);
    p.step(&mut store, SegmentEvent::Opened);
    assert!(p.step(&mut store, SegmentEvent::Failed("io".to_string())).is_some());
    assert_eq!((store.active.id, store.active.size), (2, 0));
    assert_eq!(store.stats, StatsSnapshot::default());
    assert!(p.step(&mut store, SegmentEvent::Appended).is_none());
}

#[test]
fn files_are_counted() {
    let mut store = SegmentStore::new(1, 0);
    store.count_file(10);
    store.count_file(0);
    assert_eq!(store.stats, StatsSnapshot { items: 2, bytes: 10 });
    assert_eq!(store.count_page_file(0, 5), PutOutcome::Inserted);
    assert_eq!(store.stats, StatsSnapshot { items: 3, bytes: 15 });
    assert_eq!(store.count_page_file(5, 2), PutOutcome::Updated);
    assert_eq!(store.stats, StatsSnapshot { items: 3, bytes: 12 });
}

fn state(version: u64, loaded_at: u64) -> ManifestState {
    let manifest =
        Manifest { version, files: vec![], parents: vec![], tombstones: vec![], created_at: 0 };
    ManifestState { version, manifest: Arc::new(manifest), loaded_at }
}

#[test]
fn manifests_are_fresh_for_ten_seconds() {
    assert_eq!(MANIFEST_TTL, 10_000_000_000);
    let mut c = ManifestCache::new(MANIFEST_TTL);
    assert!(c.try_get_fresh("dev", 0).is_none());
    c.insert("dev".to_string(), state(1, 5));
    c.insert("prod".to_string(), state(7, 5));
    assert_eq!(c.try_get_fresh("dev", 5).map(|s| s.version), Some(1));
    assert_eq!(c.try_get_fresh("dev", 0).map(|s| s.version), Some(1));
    assert_eq!(c.try_get_fresh("dev", 4 + MANIFEST_TTL).map(|s| s.version), Some(1));
    assert!(c.try_get_fresh("dev", 5 + MANIFEST_TTL).is_none());
    c.insert("dev".to_string(), state(2, 5 + MANIFEST_TTL));
    assert_eq!(c.try_get_fresh("dev", 5 + MANIFEST_TTL).map(|s| s.version), Some(2));
    assert_eq!(c.try_get_fresh("prod", 6).map(|s| s.manifest.version), Some(7));
    let mut none = ManifestCache::new(0);
    none.insert("dev".to_string(), state(1, 5));
    assert!(none.try_get_fresh("dev", 5).is_none());
}

/// The object that a publishing stores for this JSON.
fn stored_manifest(json: &[u8], version: u64) -> (String, Vec<u8>) {
    let mut p = Publish::new("dev", "f", HeadInfo { size: Some(0), etag: None }, 1, version);
    p.step(PublishEvent::Begin);
    p.step(PublishEvent::Info(None));
    p.step(PublishEvent::Now(1));
    match p.step(PublishEvent::Encoded(json.to_vec())) {
        Some(PublishAction::PutManifest { key, body }) => (key, body),
        other => panic!("{:?}", other),
    }
}

#[test]
fn a_published_manifest_is_loaded() {
    let json = b"{\"version\":12}".to_vec();
    let (key, gz) = stored_manifest(&json, 12);
    assert_eq!(key, "namespaces/dev/manifests/v-12.json.gz");
    assert_eq!(&gz[..2], &[0x1f, 0x8b]);
    let mut load = ManifestLoad::new("dev");
    match load.step(LoadEvent::Begin) {
        Some(LoadAction::Get { key, start, end }) => {
            assert_eq!((key.as_str(), start, end), ("namespaces/dev/HEAD", 0, HEAD_READ_END));
        }
        other => panic!("{:?}", other),
    }
    match load.step(LoadEvent::Bytes(head_body(12))) {
        Some(LoadAction::Head { key: k }) => assert_eq!(k, key),
        other => panic!("{:?}", other),
    }
    let info = HeadInfo { size: Some(gz.len() as u64), etag: None };
    match load.step(LoadEvent::Info(Some(info))) {
        Some(LoadAction::Get { key: k, start, end }) => {
            assert_eq!((k, start, end), (key, 0, gz.len() as u64));
        }
        other => panic!("{:?}", other),
    }
    match load.step(LoadEvent::Bytes(gz)) {
        Some(LoadAction::Parse(b)) => assert_eq!(b, json),
        other => panic!("{:?}", other),
    }
    match load.step(LoadEvent::Parsed) {
        Some(LoadAction::Keep { version }) => assert_eq!(version, 12),
        other => panic!("{:?}", other),
    }
}

fn parsed(version: u64) -> Manifest {
    Manifest { version, files: vec![], parents: vec![], tombstones: vec![], created_at: 0 }
}

/// Gets the manifest of `dev`; the store has `version`, or nothing.
fn get_or_load(c: &mut ManifestCache, now: u64, version: Option<u64>) -> (Result<u64, String>, usize) {
    let mut get = GetOrLoad::new("dev");
    let mut calls = 0;
    let mut event = ManifestEvent::Begin { now };
    loop {
        event = match get.step(c, event).unwrap() {
            ManifestAction::Get { key, .. } => {
                calls += 1;
                match version {
                    None => ManifestEvent::StoreFailed(StoreError::Get("gone".to_string())),
                    Some(v) if key.ends_with("HEAD") => ManifestEvent::Bytes(head_body(v)),
                    Some(v) => ManifestEvent::Bytes(stored_manifest(b"{}", v).1),
                }
            }
            ManifestAction::Head { .. } => {
                calls += 1;
                ManifestEvent::Info(Some(HeadInfo { size: Some(9), etag: None }))
            }
            ManifestAction::Parse(b) => {
                assert_eq!(b, b"{}".to_vec());
                ManifestEvent::Parsed { manifest: parsed(version.unwrap()), now }
            }
            ManifestAction::Answer(st) => {
                assert_eq!(st.version, st.manifest.version);
                return (Ok(st.version), calls);
            }
            ManifestAction::Fail(e) => return (Err(e.message()), calls),
        };
    }
}

#[test]
fn a_fresh_manifest_is_answered_without_the_store() {
    let mut c = ManifestCache::new(100);
    assert_eq!(get_or_load(&mut c, 5, Some(1)), (Ok(1), 3));
    // HEAD has moved meanwhile.
    assert_eq!(get_or_load(&mut c, 104, Some(2)), (Ok(1), 0));
    assert_eq!(get_or_load(&mut c, 105, Some(2)), (Ok(2), 3));
    let mut never = ManifestCache::new(0);
    assert_eq!(get_or_load(&mut never, 5, Some(1)), (Ok(1), 3));
    assert_eq!(get_or_load(&mut never, 5, Some(2)), (Ok(2), 3));
}

#[test]
fn a_failed_load_is_not_covered_by_a_stale_manifest() {
    let mut c = ManifestCache::new(100);
    assert_eq!(get_or_load(&mut c, 5, Some(1)), (Ok(1), 3));
    assert_eq!(get_or_load(&mut c, 105, None), (Err("get error: gone".to_string()), 1));
    // What was kept is kept, though it is not fresh.
    assert_eq!(c.try_get_fresh("dev", 50).map(|s| s.version), Some(1));
    let mut get = GetOrLoad::new("dev");
    assert!(get.step(&mut c, ManifestEvent::Bytes(vec![])).is_none());
}

#[test]
fn loading_fails_with_a_reason() {
    let failed = |events: Vec<LoadEvent>| {
        let mut load = ManifestLoad::new("dev");
        let mut last = load.step(LoadEvent::Begin);
        for e in events {
            last = load.step(e);
        }
        match last {
            Some(LoadAction::Fail(e)) => e.message(),
            other => panic!("{:?}", other),
        }
    };
    let head = || LoadEvent::Bytes(b"v-3\n".to_vec());
    let info = |n: u64| LoadEvent::Info(Some(HeadInfo { size: Some(n), etag: None }));
    assert_eq!(
        failed(vec![LoadEvent::Bytes(b"nope".to_vec())]),
        "head error: invalid HEAD content: nope"
    );
    assert_eq!(
        failed(vec![LoadEvent::Bytes(vec![b'v', 0xff])]),
        "head error: invalid HEAD content: v\u{fffd}"
    );
    assert_eq!(
        failed(vec![LoadEvent::StoreFailed(StoreError::NotImplemented)]),
        "not implemented"
    );
    assert_eq!(failed(vec![head(), LoadEvent::Info(None)]), "head error: manifest size unknown");
    assert_eq!(
        failed(vec![head(), LoadEvent::Info(Some(HeadInfo::default()))]),
        "head error: manifest size unknown"
    );
    assert_eq!(
        failed(vec![head(), info(4), LoadEvent::StoreFailed(StoreError::Get("x".to_string()))]),
        "get error: x"
    );
    assert_eq!(
        failed(vec![head(), info(4), LoadEvent::Bytes(b"none".to_vec())]),
        "client error: gzip decode: unexpected end of file"
    );
    assert_eq!(
        failed(vec![head(), info(4), LoadEvent::Bytes(b"this is no gzip member".to_vec())]),
        "client error: gzip decode: invalid gzip header"
    );
    let (_, gz) = stored_manifest(b"[]", 3);
    assert_eq!(
        failed(vec![
            head(),
            info(4),
            LoadEvent::Bytes(gz),
            LoadEvent::ParseFailed("bad".to_string())
        ]),
        "client error: json: bad"
    );
    let mut load = ManifestLoad::new("dev");
    assert!(load.step(LoadEvent::Parsed).is_none());
}

#[test]
fn loading_decides_by_text_and_by_found_bytes() {
    let mut load = ManifestLoad::new("dev");
    match load.head_read("v9") {
        LoadAction::Head { key } => assert_eq!(key, "namespaces/dev/manifests/v-9.json.gz"),
        other => panic!("{:?}", other),
    }
    match load.unzipped(9, Err("eof".to_string())) {
        LoadAction::Fail(e) => assert_eq!(e.message(), "client error: gzip decode: eof"),
        other => panic!("{:?}", other),
    }
    match load.unzipped(9, Ok(vec![1])) {
        LoadAction::Parse(b) => assert_eq!(b, vec![1]),
        other => panic!("{:?}", other),
    }
}
