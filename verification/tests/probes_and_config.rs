use seekfs::config::{
    default_l2_backend, default_listen, default_segment_path, default_slab_size_mib, slab_bytes,
    ApiCfg, CacheCfg, Config, L2Cfg, L2Choice,
};
use seekfs::l2::{L2Error, PutOutcome};
use seekfs::probe::{
    head_answer, head_info, head_probe, probe_refused, range_answer, range_probe, Answer,
    ObjectQuery, StreamAction, StreamEvent, StreamProbe, StreamQuery,
};
use seekfs::store::{HeadInfo, StoreError};

fn some(s: &str) -> Option<String> {
    Some(s.to_string())
}

fn object(key: Option<&str>, ns: Option<&str>, path: Option<&str>, hash: Option<&str>) -> ObjectQuery {
    let own = |s: Option<&str>| s.map(|t| t.to_string());
    ObjectQuery { key: own(key), ns: own(ns), path: own(path), hash: own(hash) }
}

fn pair(a: Answer) -> (u16, String) {
    (a.status, a.text)
}

#[test]
fn probes_need_a_store() {
    assert_eq!(
        probe_refused(false).map(pair),
        Some((503, "ObjectStore not configured".to_string()))
    );
    assert!(probe_refused(true).is_none());
}

#[test]
fn a_range_probe_has_defaults() {
    let p = range_probe(object(None, None, None, None), None, None).unwrap();
    assert_eq!((p.key.as_str(), p.start, p.end), ("namespaces/dev/files/test-file", 0, 1024));
    let q = object(None, some("ns").as_deref(), Some("p"), Some("h"));
    let p = range_probe(q, Some(5), Some(7)).unwrap();
    assert_eq!((p.key.as_str(), p.start, p.end), ("namespaces/ns/files/p/v-h", 7, 12));
    let p = range_probe(object(Some("k"), Some("ns"), None, None), Some(0), None).unwrap();
    assert_eq!((p.key.as_str(), p.start, p.end), ("k", 0, 0));
    assert!(range_probe(object(None, None, None, None), Some(1), Some(u64::MAX)).is_none());
}

#[test]
fn range_probes_are_answered() {
    assert_eq!(pair(range_answer("sdk", Ok(12))), (200, "store=sdk, fetched 12 bytes".to_string()));
    assert_eq!(
        pair(range_answer("sdk", Err(StoreError::NotImplemented))),
        (503, "fetch failed: not implemented".to_string())
    );
}

#[test]
fn head_probes_are_answered() {
    assert_eq!(head_probe(object(None, None, None, None)), "namespaces/dev/files/");
    assert_eq!(head_probe(object(None, None, Some("warm.bin"), None)), "namespaces/dev/files/warm.bin");
    let info = HeadInfo { size: Some(3), etag: some("\"a\\b\"") };
    assert_eq!(
        pair(head_answer(Ok(Some(info)))),
        (200, "size=Some(3) etag=Some(\"\\\"a\\\\b\\\"\")".to_string())
    );
    assert_eq!(
        pair(head_answer(Ok(Some(HeadInfo::default())))),
        (200, "size=None etag=None".to_string())
    );
    assert_eq!(head_info(None, some("q")), "size=None etag=Some(q)");
    assert_eq!(pair(head_answer(Ok(None))), (404, "not found".to_string()));
    assert_eq!(
        pair(head_answer(Err(StoreError::Head("x".to_string())))),
        (503, "head failed: head error: x".to_string())
    );
}

fn stream_query() -> StreamQuery {
    StreamQuery {
        key: "k".to_string(),
        off: 10,
        len: 5,
        ns: None,
        path: None,
        hash: None,
        page_id: None,
    }
}

#[test]
fn a_range_is_streamed_into_the_cache() {
    let mut s = StreamProbe::new(stream_query());
    match s.step(StreamEvent::Begin) {
        Some(StreamAction::BeginPut { key, expected_len }) => {
            assert_eq!(key.ns.0, "default");
            assert_eq!(key.item.path, "k");
            assert_eq!(key.item.file_hash, "sha256-dev");
            assert_eq!((key.page_id, expected_len), (0, 5));
        }
        other => panic!("{:?}", other),
    }
    match s.step(StreamEvent::Done) {
        Some(StreamAction::Open { key, start, end }) => {
            assert_eq!(key, "k");
            assert_eq!((start, end), (10, 15));
        }
        other => panic!("{:?}", other),
    }
    assert!(matches!(s.step(StreamEvent::Done), Some(StreamAction::NextChunk)));
    for n in [2usize, 3] {
        match s.step(StreamEvent::Chunk(vec![9; n])) {
            Some(StreamAction::Write(b)) => assert_eq!(b, vec![9; n]),
            other => panic!("{:?}", other),
        }
        assert!(matches!(s.step(StreamEvent::Done), Some(StreamAction::NextChunk)));
    }
    assert!(matches!(s.step(StreamEvent::StreamEnd), Some(StreamAction::Commit)));
    match s.step(StreamEvent::Committed(PutOutcome::Inserted)) {
        Some(StreamAction::Reply(a)) => {
            assert_eq!(pair(a), (200, "streamed 5 bytes to L2 (Inserted)".to_string()));
        }
        other => panic!("{:?}", other),
    }
}

#[test]
fn the_object_of_a_stream_is_named_by_key_or_by_file() {
    let opened = |q: StreamQuery| {
        let mut s = StreamProbe::new(q);
        s.step(StreamEvent::Begin);
        match s.step(StreamEvent::Done) {
            Some(StreamAction::Open { key, start, end }) => (key, start, end),
            other => panic!("{:?}", other),
        }
    };
    let mut q = stream_query();
    q.key = "some-object".to_string();
    q.off = 0;
    q.len = 1024;
    assert_eq!(opened(q), ("some-object".to_string(), 0, 1024));
    let mut q = stream_query();
    q.ns = some("dev");
    assert_eq!(opened(q).0, "namespaces/dev/files/k/v-sha256-dev");
    let mut q = stream_query();
    q.path = some("p");
    assert_eq!(opened(q).0, "namespaces/default/files/p/v-sha256-dev");
    let mut q = stream_query();
    q.hash = some("h");
    assert_eq!(opened(q).0, "namespaces/default/files/k/v-h");
}

#[test]
fn failures_of_streaming_are_told() {
    let backend = || StreamEvent::CacheFailed(L2Error::Backend("x".to_string()));
    let store = || StreamEvent::StoreFailed(StoreError::NotImplemented);
    let replied = |events: Vec<StreamEvent>| {
        let mut s = StreamProbe::new(stream_query());
        s.step(StreamEvent::Begin);
        let mut last = None;
        for e in events {
            last = s.step(e);
        }
        match last {
            Some(StreamAction::Reply(a)) => pair(a),
            other => panic!("{:?}", other),
        }
    };
    let done = || StreamEvent::Done;
    assert_eq!(replied(vec![backend()]), (500, "l2 put_stream error: backend error: x".to_string()));
    assert_eq!(
        replied(vec![done(), store()]),
        (503, "store stream error: not implemented".to_string())
    );
    assert_eq!(
        replied(vec![done(), done(), store()]),
        (503, "store stream chunk error: not implemented".to_string())
    );
    assert_eq!(
        replied(vec![done(), done(), StreamEvent::Chunk(vec![1]), backend()]),
        (500, "l2 write error: backend error: x".to_string())
    );
    assert_eq!(
        replied(vec![done(), done(), StreamEvent::StreamEnd, backend()]),
        (500, "l2 commit error: backend error: x".to_string())
    );
    assert_eq!(
        replied(vec![
            done(),
            done(),
            StreamEvent::StreamEnd,
            StreamEvent::Committed(PutOutcome::Updated)
        ]),
        (200, "streamed 0 bytes to L2 (Updated)".to_string())
    );
    let mut q = stream_query();
    q.off = u64::MAX;
    let mut s = StreamProbe::new(q);
    s.step(StreamEvent::Begin);
    assert!(s.step(StreamEvent::Done).is_none());
}

#[test]
fn the_configuration_has_defaults() {
    assert_eq!(default_slab_size_mib(), 8);
    assert_eq!(default_listen(), "0.0.0.0:7070");
    assert_eq!(default_l2_backend(), "segmentstore");
    assert_eq!(default_segment_path(), "/var/lib/seekfs/l2");
    let c = Config::default();
    assert_eq!(c.listen(), "0.0.0.0:7070");
    assert_eq!(c.slab_size(), 8 * 1024 * 1024);
    assert!(matches!(c.l2(), L2Choice::Segments(p) if p == "/var/lib/seekfs/l2"));
    let no_l2 = Config {
        cache: Some(CacheCfg { slab_size_mib: 1, l2: None }),
        ..Config::default()
    };
    assert!(matches!(no_l2.l2(), L2Choice::Segments(p) if p == "/var/lib/seekfs/l2"));
    assert!(c.s3.is_none());
    assert_eq!(slab_bytes(u32::MAX), 4294967295 * 1048576);
}

#[test]
fn the_configuration_is_followed() {
    let with = |backend: &str, segment: Option<&str>, slabfile: Option<&str>| Config {
        cache: Some(CacheCfg {
            slab_size_mib: 4,
            l2: Some(L2Cfg {
                backend: backend.to_string(),
                slabfile_path: slabfile.map(|s| s.to_string()),
                segment_path: segment.map(|s| s.to_string()),
            }),
        }),
        api: Some(ApiCfg { listen: "127.0.0.1:1".to_string() }),
        s3: None,
    };
    let path = |c: Config| match c.l2() {
        L2Choice::Segments(p) => p,
        other => panic!("{:?}", other),
    };
    let c = with("mem", Some("/x"), None);
    assert_eq!((c.listen().as_str(), c.slab_size()), ("127.0.0.1:1", 4 * 1024 * 1024));
    assert!(matches!(c.l2(), L2Choice::Mem));
    assert_eq!(path(with("segmentstore", Some("/a"), Some("/b"))), "/a");
    assert_eq!(path(with("slabfile", None, Some("/b"))), "/b");
    assert_eq!(path(with("slabfile", None, None)), "/var/lib/seekfs/l2");
    assert!(matches!(with("blobdb", None, None).l2(), L2Choice::NoBlobDb));
    assert!(matches!(with("rocks", None, None).l2(), L2Choice::Unknown(n) if n == "rocks"));
}
