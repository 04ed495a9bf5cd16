use seekfs::blob::{BlobQuery, BlobRead};
use seekfs::l2::{L2Backend, L2Error};
use seekfs::manifest::{FileEntry, Manifest, ObjectLoc, PageInfo};
use seekfs::mem::MemL2;
use seekfs::plan::{Plan, PlanEnd};
use seekfs::proto::ReadvItem;
use seekfs::publish::{
    chosen_version, head_body, publish_refused, version_after, wrote_text, Publish, PublishAction,
    PublishEvent, HEAD_PROBE_END,
};
use seekfs::read::{manifest_refused, store_refused, ReadAction, ReadEvent};
use seekfs::readv::{readv_refused, ReadvRead};
use seekfs::store::{HeadInfo, StoreError};
use seekfs::types::CacheKey;
use std::collections::HashMap;

const CRC_ABCD: u32 = 2462583345;
const CRC_EFGH: u32 = 1962750420;
const CRC_IJ: u32 = 4117738049;

fn page(page_id: u32, len: u32, crc32c: u32) -> PageInfo {
    PageInfo { page_id, off: page_id as u64 * 4, len, crc32c }
}

fn entry(path: &str, size: u64, page_table: Vec<PageInfo>) -> FileEntry {
    FileEntry {
        path: path.to_string(),
        size,
        hash: "h1".to_string(),
        page_table,
        storage: ObjectLoc { key: format!("objects/{}", path), etag: None, sse: None },
    }
}

fn manifest() -> Manifest {
    let ten = vec![page(0, 4, CRC_ABCD), page(1, 4, CRC_EFGH), page(2, 2, CRC_IJ)];
    Manifest {
        version: 1,
        files: vec![entry("ten", 10, ten), entry("b", 3, vec![]), entry("empty", 0, vec![])],
        parents: vec![],
        tombstones: vec![],
        created_at: 0,
    }
}

struct World {
    cache: MemL2,
    objects: HashMap<String, Vec<u8>>,
    stream: Vec<u8>,
    log: Vec<String>,
    chunk: usize,
}

impl World {
    fn new() -> World {
        let mut objects = HashMap::new();
        objects.insert("objects/ten".to_string(), b"abcdefghij".to_vec());
        objects.insert("objects/b".to_string(), b"xyz".to_vec());
        World { cache: MemL2::new(), objects, stream: vec![], log: vec![], chunk: 3 }
    }

    fn answer(&mut self, a: ReadAction) -> Result<ReadEvent, Result<Vec<u8>, (u16, String)>> {
        Ok(match a {
            ReadAction::Lookup(k) => match self.cache.get(&k) {
                Some(b) => ReadEvent::Found(b),
                None => ReadEvent::Absent,
            },
            ReadAction::Open { key, start, end } => {
                self.log.push(format!("{} {}..{}", key, start, end));
                match self.objects.get(&key) {
                    Some(o) => {
                        self.stream = o[start as usize..end as usize].to_vec();
                        ReadEvent::Opened
                    }
                    None => ReadEvent::OpenFailed(StoreError::Get("no object".to_string())),
                }
            }
            ReadAction::NextChunk => {
                if self.stream.is_empty() {
                    ReadEvent::StreamEnd
                } else {
                    let n = self.chunk.min(self.stream.len());
                    ReadEvent::Chunk(self.stream.drain(..n).collect())
                }
            }
            ReadAction::Store { key, page } => {
                self.log.push(format!("store {} {}", key.item.path, key.page_id));
                self.cache.put(key, page).unwrap();
                ReadEvent::Stored
            }
            ReadAction::Reply(b) => return Err(Ok(b)),
            ReadAction::Refuse(r) => return Err(Err((r.status, r.message))),
        })
    }
}

fn query(path: &str, off: u64, len: u64) -> BlobQuery {
    BlobQuery { ns: "dev".to_string(), path: path.to_string(), off, len, hash: None }
}

fn blob(w: &mut World, m: &Manifest, q: BlobQuery) -> Result<Vec<u8>, (u16, String)> {
    let mut read = BlobRead::new(m, q, 4);
    let mut event = ReadEvent::Begin;
    loop {
        match w.answer(read.step(event).unwrap()) {
            Ok(e) => event = e,
            Err(done) => return done,
        }
    }
}

fn readv(w: &mut World, m: &Manifest, items: &[(&str, u64, u32)]) -> Result<Vec<u8>, (u16, String)> {
    let mut read = ReadvRead::new(m, "dev".to_string(), list(items), 4);
    let mut event = ReadEvent::Begin;
    loop {
        match w.answer(read.step(event).unwrap()) {
            Ok(e) => event = e,
            Err(done) => return done,
        }
    }
}

fn list(items: &[(&str, u64, u32)]) -> Vec<ReadvItem> {
    items
        .iter()
        .map(|(p, off, len)| ReadvItem { path: p.to_string(), off: *off, len: *len })
        .collect()
}

#[test]
fn a_range_is_read() {
    let (m, mut w) = (manifest(), World::new());
    assert_eq!(blob(&mut w, &m, query("ten", 2, 5)), Ok(b"cdefg".to_vec()));
    assert_eq!(
        w.log,
        vec!["objects/ten 0..4", "store ten 0", "objects/ten 4..8", "store ten 1"]
    );
    // Cached pages are not fetched again.
    w.log.clear();
    assert_eq!(blob(&mut w, &m, query("ten", 0, 8)), Ok(b"abcdefgh".to_vec()));
    assert!(w.log.is_empty());
    assert_eq!(blob(&mut w, &m, query("ten", 9, u64::MAX)), Ok(b"j".to_vec()));
    assert_eq!(w.log, vec!["objects/ten 8..10", "store ten 2"]);
}

#[test]
fn every_range_of_a_file_is_read() {
    let m = manifest();
    for off in 0..10u64 {
        for len in 1..12u64 {
            let mut w = World::new();
            w.chunk = 1 + (off + len) as usize % 5;
            let end = (off + len).min(10);
            let expected = b"abcdefghij"[off as usize..end as usize].to_vec();
            assert_eq!(blob(&mut w, &m, query("ten", off, len)), Ok(expected.clone()));
            assert_eq!(readv(&mut w, &m, &[("ten", off, len as u32)]), Ok(expected));
        }
    }
}

#[test]
fn ranges_that_are_not_there_are_refused() {
    let (m, mut w) = (manifest(), World::new());
    let refused = |r: (u16, &str)| Err((r.0, r.1.to_string()));
    assert_eq!(blob(&mut w, &m, query("no", 0, 1)), refused((404, "file not in manifest")));
    assert_eq!(blob(&mut w, &m, query("ten", 10, 1)), refused((416, "offset beyond EOF")));
    assert_eq!(blob(&mut w, &m, query("empty", 0, 1)), refused((416, "offset beyond EOF")));
    assert_eq!(blob(&mut w, &m, query("ten", 3, 0)), refused((400, "len must be > 0")));
    assert_eq!(readv(&mut w, &m, &[("no", 0, 1)]), refused((404, "file not in manifest: no")));
    assert_eq!(
        readv(&mut w, &m, &[("ten", 10, 1)]),
        refused((416, "ten: offset beyond EOF"))
    );
    assert!(w.log.is_empty());
}

#[test]
fn a_page_with_another_checksum_is_not_stored() {
    let (m, mut w) = (manifest(), World::new());
    w.objects.insert("objects/ten".to_string(), b"XXXXefghij".to_vec());
    let expected =
        (503, format!("crc32c mismatch for page 0: got 4115493708, expected {}", CRC_ABCD));
    assert_eq!(blob(&mut w, &m, query("ten", 0, 1)), Err(expected.clone()));
    assert_eq!(readv(&mut w, &m, &[("ten", 0, 1)]), Err(expected));
    assert_eq!(w.cache.stats().items, 0);
    // A file without a page table is not checked.
    w.objects.insert("objects/b".to_string(), b"???".to_vec());
    assert_eq!(blob(&mut w, &m, query("b", 0, 3)), Ok(b"???".to_vec()));
}

#[test]
fn the_hash_of_the_request_is_part_of_the_key() {
    let (m, mut w) = (manifest(), World::new());
    w.cache.put(CacheKey::new("dev", "ten", "other", 0), b"WXYZ".to_vec()).unwrap();
    let mut q = query("ten", 0, 4);
    q.hash = Some("other".to_string());
    assert_eq!(blob(&mut w, &m, q), Ok(b"WXYZ".to_vec()));
    assert_eq!(blob(&mut w, &m, query("ten", 0, 4)), Ok(b"abcd".to_vec()));
}

#[test]
fn short_pages_leave_zeros_at_the_end() {
    let (m, mut w) = (manifest(), World::new());
    w.cache.put(CacheKey::new("dev", "ten", "h1", 0), b"ab".to_vec()).unwrap();
    w.cache.put(CacheKey::new("dev", "ten", "h1", 1), b"efgh".to_vec()).unwrap();
    assert_eq!(blob(&mut w, &m, query("ten", 0, 8)), Ok(b"abefgh\0\0".to_vec()));
    // A page that ends before the range begins has nothing to give.
    let mut read = BlobRead::new(&m, query("ten", 3, 1), 4);
    read.step(ReadEvent::Begin);
    read.step(ReadEvent::Found(b"ab".to_vec()));
    assert!(read.step(ReadEvent::Found(b"ab".to_vec())).is_none());
}

#[test]
fn failures_of_outside_work_are_told() {
    let m = manifest();
    let refused = |events: Vec<ReadEvent>| {
        let mut read = BlobRead::new(&m, query("ten", 0, 1), 4);
        let mut readv = ReadvRead::new(&m, "dev".to_string(), list(&[("ten", 0, 1)]), 4);
        read.step(ReadEvent::Begin);
        readv.step(ReadEvent::Begin);
        let mut last = None;
        let copy = |e: &ReadEvent| match e {
            ReadEvent::Found(b) => ReadEvent::Found(b.clone()),
            ReadEvent::Absent => ReadEvent::Absent,
            ReadEvent::Opened => ReadEvent::Opened,
            ReadEvent::OpenFailed(_) => ReadEvent::OpenFailed(StoreError::NotImplemented),
            ReadEvent::Chunk(b) => ReadEvent::Chunk(b.clone()),
            ReadEvent::ChunkFailed(_) => ReadEvent::ChunkFailed(StoreError::NotImplemented),
            ReadEvent::StreamEnd => ReadEvent::StreamEnd,
            ReadEvent::Stored => ReadEvent::Stored,
            ReadEvent::PutStreamFailed(_) => {
                ReadEvent::PutStreamFailed(L2Error::Backend("x".to_string()))
            }
            ReadEvent::WriteFailed(_) => ReadEvent::WriteFailed(L2Error::Backend("x".to_string())),
            ReadEvent::CommitFailed(_) => {
                ReadEvent::CommitFailed(L2Error::Backend("x".to_string()))
            }
            ReadEvent::Begin => ReadEvent::Begin,
        };
        for e in events {
            let other = readv.step(copy(&e));
            last = read.step(e);
            assert_eq!(format!("{:?}", last), format!("{:?}", other));
        }
        match last {
            Some(ReadAction::Refuse(r)) => (r.status, r.message),
            other => panic!("{:?}", other),
        }
    };
    let backend = || L2Error::Backend("x".to_string());
    let filled = || {
        vec![
            ReadEvent::Absent,
            ReadEvent::Opened,
            ReadEvent::Chunk(b"abcd".to_vec()),
            ReadEvent::StreamEnd,
        ]
    };
    let then = |mut v: Vec<ReadEvent>, e: ReadEvent| {
        v.push(e);
        v
    };
    assert_eq!(
        refused(vec![ReadEvent::Absent, ReadEvent::OpenFailed(StoreError::NotImplemented)]),
        (503, "store stream error: not implemented".to_string())
    );
    assert_eq!(
        refused(vec![
            ReadEvent::Absent,
            ReadEvent::Opened,
            ReadEvent::ChunkFailed(StoreError::NotImplemented)
        ]),
        (503, "store chunk: not implemented".to_string())
    );
    assert_eq!(
        refused(then(filled(), ReadEvent::PutStreamFailed(backend()))),
        (500, "l2 put_stream error: backend error: x".to_string())
    );
    assert_eq!(
        refused(then(filled(), ReadEvent::WriteFailed(backend()))),
        (500, "l2 write: backend error: x".to_string())
    );
    assert_eq!(
        refused(then(filled(), ReadEvent::CommitFailed(backend()))),
        (500, "l2 commit: backend error: x".to_string())
    );
    assert_eq!(
        refused(vec![ReadEvent::Found(b"abcd".to_vec()), ReadEvent::Absent]),
        (500, "l2 missing after fetch".to_string())
    );
}

#[test]
fn events_that_answer_nothing_end_a_read() {
    let m = manifest();
    let mut read = BlobRead::new(&m, query("ten", 0, 1), 4);
    assert!(read.step(ReadEvent::Stored).is_none());
    assert!(read.step(ReadEvent::Begin).is_none());
    let mut read = ReadvRead::new(&m, "dev".to_string(), list(&[("ten", 0, 1)]), 4);
    read.step(ReadEvent::Begin);
    assert!(read.step(ReadEvent::Opened).is_none());
}

#[test]
fn many_ranges_come_in_the_order_of_the_request() {
    let (m, mut w) = (manifest(), World::new());
    let items = [("ten", 6, 3), ("b", 1, 9), ("ten", 0, 2), ("ten", 5, 0), ("b", 0, 1)];
    assert_eq!(readv(&mut w, &m, &items), Ok(b"ghiyzabx".to_vec()));
    // Pages are brought in by path and number, each once.
    assert_eq!(
        w.log,
        vec![
            "objects/b 0..3",
            "store b 0",
            "objects/ten 0..4",
            "store ten 0",
            "objects/ten 4..8",
            "store ten 1",
            "objects/ten 8..10",
            "store ten 2"
        ]
    );
}

#[test]
fn a_file_that_is_not_there_is_refused_behind_the_files_before_it() {
    let (m, mut w) = (manifest(), World::new());
    assert_eq!(
        readv(&mut w, &m, &[("zz", 0, 1), ("b", 0, 1)]),
        Err((404, "file not in manifest: zz".to_string()))
    );
    assert_eq!(w.log, vec!["objects/b 0..3", "store b 0"]);
}

#[test]
fn plans_have_each_page_once() {
    let m = manifest();
    let plan = Plan::new(&m, &list(&[("ten", 3, 2), ("b", 0, 3), ("ten", 0, 5)]), 4);
    assert_eq!(plan.pages, vec![(1, 0), (0, 0), (0, 1)]);
    assert!(matches!(plan.end, PlanEnd::Complete));
    let plan = Plan::new(&m, &list(&[("ten", 8, 0)]), 4);
    assert!(plan.pages.is_empty() && matches!(plan.end, PlanEnd::Complete));
    let plan = Plan::new(&m, &list(&[("ten", 5, 0)]), 4);
    assert_eq!(plan.pages, vec![(0, 1)]);
    let plan = Plan::new(&m, &list(&[("ten", 0, 0)]), 4);
    assert!(matches!(plan.end, PlanEnd::Stuck));
    let plan = Plan::new(&m, &list(&[("empty", 0, 0)]), 4);
    assert!(matches!(plan.end, PlanEnd::Refuse(r) if r.status == 416));
}

#[test]
fn requests_are_refused_before_they_begin() {
    let text = |r: Option<seekfs::read::Refusal>| r.map(|r| (r.status, r.message));
    assert_eq!(text(readv_refused(&vec![], true)), Some((400, "empty readv".to_string())));
    assert_eq!(text(readv_refused(&vec![], false)), Some((400, "empty readv".to_string())));
    let one = list(&[("ten", 0, 1)]);
    let none = Some((503, "ObjectStore not configured".to_string()));
    assert_eq!(text(readv_refused(&one, false)), none);
    assert_eq!(text(readv_refused(&one, true)), None);
    assert_eq!(text(store_refused(false)), none);
    assert_eq!(text(store_refused(true)), None);
    assert_eq!(
        text(Some(manifest_refused(&StoreError::Head("x".to_string())))),
        Some((503, "manifest load: head error: x".to_string()))
    );
}

fn publish(content: &[u8], mib: u32, version: u64) -> Manifest {
    let head = HeadInfo { size: Some(content.len() as u64), etag: Some("\"t\"".to_string()) };
    let mut p = Publish::new("dev", "ten", head, mib, version);
    let mut event = PublishEvent::Begin;
    let mut stream: Vec<u8> = vec![];
    loop {
        event = match p.step(event).unwrap() {
            PublishAction::Open { key, start, end } => {
                assert_eq!(key, "namespaces/dev/files/ten");
                stream = content[start as usize..end as usize].to_vec();
                PublishEvent::Opened
            }
            PublishAction::NextChunk => {
                if stream.is_empty() {
                    PublishEvent::StreamEnd
                } else {
                    let n = stream.len().min(700_000);
                    PublishEvent::Chunk(stream.drain(..n).collect())
                }
            }
            PublishAction::FindManifest { key } => {
                assert_eq!(key, format!("namespaces/dev/manifests/v-{}.json.gz", version));
                PublishEvent::Info(None)
            }
            PublishAction::Stamp => PublishEvent::Now(77),
            PublishAction::Encode(m) => return m,
            other => panic!("{:?}", other),
        };
    }
}

#[test]
fn a_small_file_is_published() {
    let m = publish(b"123456789", 1, 5);
    assert_eq!((m.version, m.created_at), (5, 77));
    assert_eq!(m.parents, vec![4]);
    assert!(m.tombstones.is_empty());
    assert_eq!(m.files.len(), 1);
    let f = &m.files[0];
    assert_eq!((f.path.as_str(), f.size), ("ten", 9));
    assert_eq!(
        f.page_table,
        vec![PageInfo { page_id: 0, off: 0, len: 9, crc32c: 3808858755 }]
    );
    assert_eq!(f.storage.key, "namespaces/dev/files/ten");
    assert_eq!(f.storage.etag.as_deref(), Some("\"t\""));
    assert!(f.storage.sse.is_none());
    assert!(publish(b"x", 1, 1).parents.is_empty());
}

#[test]
fn an_empty_file_is_published() {
    let m = publish(b"", 0, 1);
    assert!(m.files[0].page_table.is_empty());
    assert_eq!(
        m.files[0].hash,
        "sha256:e3b0c44298fc1c149afbf4c8996fb92427ae41e4649b934ca495991b7852b855"
    );
    // A file with bytes cannot be cut into pages of none.
    let head = HeadInfo { size: Some(1), etag: None };
    let mut p = Publish::new("dev", "ten", head, 0, 1);
    p.step(PublishEvent::Begin);
    assert!(p.step(PublishEvent::Info(None)).is_none());
}

fn at_put_manifest() -> Publish {
    let mut p = Publish::new("dev", "f", HeadInfo { size: None, etag: None }, 8, 4);
    p.step(PublishEvent::Begin);
    assert!(matches!(p.step(PublishEvent::Info(None)), Some(PublishAction::Stamp)));
    assert!(matches!(p.step(PublishEvent::Now(1)), Some(PublishAction::Encode(_))));
    match p.step(PublishEvent::Encoded(b"{}".to_vec())) {
        Some(PublishAction::PutManifest { key, body }) => {
            assert_eq!(key, "namespaces/dev/manifests/v-4.json.gz");
            assert_ne!(body, b"{}".to_vec());
        }
        other => panic!("{:?}", other),
    }
    p
}

#[test]
fn head_moves_once_the_manifest_is_stored() {
    let mut p = at_put_manifest();
    match p.step(PublishEvent::Stored) {
        Some(PublishAction::PutHead { key, body }) => {
            assert_eq!(key, "namespaces/dev/HEAD");
            assert_eq!(body, b"v-4\n".to_vec());
        }
        other => panic!("{:?}", other),
    }
    match p.step(PublishEvent::Stored) {
        Some(PublishAction::Done(t)) => assert_eq!(t, wrote_text("dev", 4)),
        other => panic!("{:?}", other),
    }
    assert!(p.step(PublishEvent::Stored).is_none());
    // A manifest that is not stored leaves HEAD where it is.
    let mut p = at_put_manifest();
    match p.step(PublishEvent::Failed("denied".to_string())) {
        Some(PublishAction::Fail(t)) => assert_eq!(t, "denied"),
        other => panic!("{:?}", other),
    }
    assert!(p.step(PublishEvent::Stored).is_none());
    let mut p = Publish::new("dev", "f", HeadInfo { size: None, etag: None }, 8, 4);
    match p.zipped(Err("full".to_string())) {
        PublishAction::Fail(t) => assert_eq!(t, "full"),
        other => panic!("{:?}", other),
    }
}

#[test]
fn a_published_version_is_not_overwritten() {
    let mut p = Publish::new("dev", "f", HeadInfo { size: Some(1), etag: None }, 8, 4);
    match p.step(PublishEvent::Begin) {
        Some(PublishAction::FindManifest { key }) => {
            assert_eq!(key, "namespaces/dev/manifests/v-4.json.gz");
        }
        other => panic!("{:?}", other),
    }
    let found = HeadInfo { size: Some(3), etag: None };
    match p.step(PublishEvent::Info(Some(found))) {
        Some(PublishAction::Fail(t)) => assert_eq!(t, "manifest v-4 is already published"),
        other => panic!("{:?}", other),
    }
    assert!(p.step(PublishEvent::Opened).is_none());
    assert!(publish_refused(4, &None).is_none());
    assert!(publish_refused(4, &Some(HeadInfo::default())).is_some());
}

#[test]
fn refusals_come_before_pages_are_counted() {
    let m = manifest();
    let first = |q: BlobQuery| match BlobRead::new(&m, q, 0).step(ReadEvent::Begin) {
        Some(ReadAction::Refuse(r)) => r.status,
        other => panic!("{:?}", other),
    };
    assert_eq!(first(query("no", 0, 1)), 404);
    assert_eq!(first(query("ten", 10, 1)), 416);
    assert_eq!(first(query("ten", 0, 0)), 400);
    assert!(BlobRead::new(&m, query("ten", 0, 1), 0).step(ReadEvent::Begin).is_none());
    let many = |items: &[(&str, u64, u32)]| {
        ReadvRead::new(&m, "dev".to_string(), list(items), 0).step(ReadEvent::Begin)
    };
    assert!(matches!(many(&[("no", 0, 1)]), Some(ReadAction::Refuse(r)) if r.status == 404));
    assert!(matches!(many(&[("ten", 10, 1)]), Some(ReadAction::Refuse(r)) if r.status == 416));
    assert!(many(&[("ten", 0, 1)]).is_none());
}

#[test]
fn a_read_that_was_answered_needs_no_store() {
    let (m, mut w) = (manifest(), World::new());
    let items = [("ten", 6, 3), ("b", 1, 9), ("ten", 0, 2)];
    let first = readv(&mut w, &m, &items);
    w.log.clear();
    w.objects.clear();
    assert_eq!(readv(&mut w, &m, &items), first);
    assert_eq!(blob(&mut w, &m, query("ten", 0, 10)), Ok(b"abcdefghij".to_vec()));
    assert!(w.log.is_empty());
}

#[test]
fn a_published_file_is_read_back() {
    let content: Vec<u8> =
        (0..2 * 1048576 + 100u64).map(|i| ((i * 7 + i / 251) % 256) as u8).collect();
    let m = publish(&content, 1, 1);
    let f = &m.files[0];
    assert_eq!(
        f.hash,
        "sha256:79ac78522458d5547434d82b0bd8662dd381a11001fc52f488b636d58cbad707"
    );
    let shape: Vec<(u32, u64, u32)> =
        f.page_table.iter().map(|p| (p.page_id, p.off, p.len)).collect();
    assert_eq!(shape, vec![(0, 0, 1048576), (1, 1048576, 1048576), (2, 2097152, 100)]);
    let mut w = World::new();
    w.chunk = 300_000;
    w.objects.insert("namespaces/dev/files/ten".to_string(), content.clone());
    let mut read = BlobRead::new(&m, query("ten", 1_000_000, 1_097_252), 1048576);
    let mut event = ReadEvent::Begin;
    let body = loop {
        match w.answer(read.step(event).unwrap()) {
            Ok(e) => event = e,
            Err(done) => break done,
        }
    };
    assert_eq!(body, Ok(content[1_000_000..2_097_252].to_vec()));
    let items = list(&[("ten", 2_097_000, 500), ("ten", 0, 3), ("ten", 1_048_570, 12)]);
    let mut read = ReadvRead::new(&m, "dev".to_string(), items, 1048576);
    let mut event = ReadEvent::Begin;
    let body = loop {
        match w.answer(read.step(event).unwrap()) {
            Ok(e) => event = e,
            Err(done) => break done,
        }
    };
    let parts = [&content[2_097_000..2_097_252], &content[0..3], &content[1_048_570..1_048_582]];
    assert_eq!(body, Ok(parts.concat()));
}

#[test]
fn pages_of_other_files_and_hashes_stay() {
    let (m, mut w) = (manifest(), World::new());
    let old = CacheKey::new("dev", "ten", "an older hash", 0);
    let other = CacheKey::new("prod", "ten", &m.files[0].hash, 0);
    w.cache.put(old.clone(), b"old".to_vec()).unwrap();
    w.cache.put(other.clone(), b"other".to_vec()).unwrap();
    assert_eq!(blob(&mut w, &m, query("ten", 0, 10)), Ok(b"abcdefghij".to_vec()));
    readv(&mut w, &m, &[("ten", 0, 10), ("b", 0, 3)]).unwrap();
    assert_eq!(w.cache.get(&old), Some(b"old".to_vec()));
    assert_eq!(w.cache.get(&other), Some(b"other".to_vec()));
}

#[test]
fn versions_grow() {
    assert_eq!(chosen_version(Some(9), Some(b"v-3")), Some(9));
    assert_eq!(chosen_version(None, None), Some(1));
    assert_eq!(chosen_version(None, Some(b"v-3\n")), Some(4));
    assert_eq!(chosen_version(None, Some(b"junk")), Some(1));
    assert_eq!(chosen_version(None, Some(&[0xff])), Some(1));
    assert_eq!(version_after("v-18446744073709551615"), None);
    assert_eq!(head_body(12), b"v-12\n".to_vec());
    assert_eq!(chosen_version(None, Some(&head_body(12))), Some(13));
    assert!(head_body(u64::MAX).len() as u64 <= HEAD_PROBE_END);
    assert_eq!(
        wrote_text("dev", 2),
        "Wrote namespaces/dev/HEAD and namespaces/dev/manifests/v-2.json.gz"
    );
}
