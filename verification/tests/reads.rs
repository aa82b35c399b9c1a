use bytes::Bytes;
use mvsqlite::namespace::NamespaceOverlayBase;
use mvsqlite::read::{
    PageRead, ReadAction, ReadError, ReadEvent, ReadPageRequest, ReadTransaction,
};
use mvsqlite::store::{Core, CoreConfig};

fn open_store(read_only: bool) -> Core {
    Core::open(CoreConfig {
        cluster: "fdb.cluster".to_string(),
        raw_data_prefix: "m".to_string(),
        metadata_prefix: "meta".to_string(),
        read_only,
        dr_tag: "default".to_string(),
        content_cache_size: 0,
        auto_create_ns: false,
    })
}

const V1: &str = "00000000000000000001";

fn start(version: &str) -> (PageRead, ReadAction) {
    let req = ReadPageRequest { page_index: 4, version, hash: None };
    let (read, txn, action) = open_store(false).read_page([1; 10], req, false).ok().unwrap();
    assert!(matches!(txn, ReadTransaction::AtVersion(_)));
    (read, action)
}

fn fetched(action: &ReadAction) -> ([u8; 10], u32, &str) {
    match action {
        ReadAction::FetchPageHash { ns_id, page_index, version } => {
            (*ns_id, *page_index, version.as_str())
        }
        _ => panic!(),
    }
}

#[test]
fn own_page_is_read_by_hash() {
    let req = ReadPageRequest { page_index: 4, version: V1, hash: Some([8; 32]) };
    let (read, txn, action) =
        open_store(true).read_page([1; 10], req, true).ok().unwrap();
    assert!(matches!(txn, ReadTransaction::Latest { read_lock_aware: true }));
    assert!(matches!(
        action,
        ReadAction::FetchContent { ns_id, hash } if ns_id == [1; 10] && hash == [8; 32]
    ));
    let (_, action) = read.step(ReadEvent::Content(Some(Bytes::from_static(b"mine"))));
    match action {
        ReadAction::Done(Some(page)) => {
            assert_eq!(page.version, V1);
            assert_eq!(&page.data[..], b"mine");
        }
        _ => panic!(),
    }
    let req = ReadPageRequest { page_index: 4, version: "any", hash: Some([8; 32]) };
    let (read, _, _) = open_store(false).read_page([1; 10], req, false).ok().unwrap();
    let (_, action) = read.step(ReadEvent::Content(None));
    assert!(matches!(action, ReadAction::Done(None)));
}

#[test]
fn unlabelled_page_has_an_empty_version() {
    let req = ReadPageRequest { page_index: 4, version: "any", hash: Some([8; 32]) };
    let (read, _, _) = open_store(false).read_page([1; 10], req, false).ok().unwrap();
    match read.step(ReadEvent::Content(Some(Bytes::from_static(b"x")))).1 {
        ReadAction::Done(Some(page)) => assert_eq!(page.version, ""),
        _ => panic!(),
    }
}

#[test]
fn malformed_version_cannot_be_read() {
    let req = ReadPageRequest { page_index: 4, version: "junk", hash: None };
    assert_eq!(
        open_store(false).read_page([1; 10], req, false).err(),
        Some(ReadError::InvalidVersion)
    );
    assert_eq!(ReadError::InvalidVersion.message(), "invalid version");
    assert_eq!(ReadError::InvalidOverlayNsId.message(), "invalid version");
    assert_eq!(
        ReadError::MissingContent.message(),
        "cannot find content for the provided hash"
    );
}

#[test]
fn page_is_found_at_its_version() {
    let (read, action) = start(V1);
    assert_eq!(fetched(&action), ([1; 10], 4, V1));
    let (read, action) = read.step(ReadEvent::PageHash(Some(("old".to_string(), [5; 32]))));
    assert!(matches!(
        action,
        ReadAction::FetchContent { ns_id, hash } if ns_id == [1; 10] && hash == [5; 32]
    ));
    match read.step(ReadEvent::Content(Some(Bytes::from_static(b"page")))).1 {
        ReadAction::Done(Some(page)) => {
            assert_eq!(page.version, "old");
            assert_eq!(&page.data[..], b"page");
        }
        _ => panic!(),
    }
}

#[test]
fn indexed_page_without_content_is_an_error() {
    let (read, _) = start(V1);
    let (read, _) = read.step(ReadEvent::PageHash(Some(("old".to_string(), [5; 32]))));
    let (_, action) = read.step(ReadEvent::Content(None));
    assert!(matches!(action, ReadAction::Fail(ReadError::MissingContent)));
}

#[test]
fn page_of_the_overlay_base_shows_through() {
    let (read, _) = start(V1);
    let (read, action) = read.step(ReadEvent::PageHash(None));
    assert!(matches!(action, ReadAction::FetchOverlayBase { ns_id } if ns_id == [1; 10]));
    let base = NamespaceOverlayBase {
        ns_id: "0202020202020202020F".to_string(),
        snapshot_version: "snap".to_string(),
    };
    let (read, action) = read.step(ReadEvent::OverlayBase(Some(base)));
    assert_eq!(fetched(&action), ([2, 2, 2, 2, 2, 2, 2, 2, 2, 15], 4, "snap"));
    let (read, action) = read.step(ReadEvent::PageHash(Some(("below".to_string(), [6; 32]))));
    assert!(matches!(
        action,
        ReadAction::FetchContent { ns_id, hash } if ns_id[9] == 15 && hash == [6; 32]
    ));
    match read.step(ReadEvent::Content(Some(Bytes::from_static(b"base")))).1 {
        ReadAction::Done(Some(page)) => {
            assert_eq!(page.version, "below");
            assert_eq!(&page.data[..], b"base");
        }
        _ => panic!(),
    }
}

#[test]
fn page_that_is_nowhere_is_absent() {
    let (read, _) = start(V1);
    let (read, _) = read.step(ReadEvent::PageHash(None));
    let (_, action) = read.step(ReadEvent::OverlayBase(None));
    assert!(matches!(action, ReadAction::Done(None)));
    let (read, _) = start(V1);
    let (read, _) = read.step(ReadEvent::PageHash(None));
    let base =
        NamespaceOverlayBase { ns_id: V1.to_string(), snapshot_version: V1.to_string() };
    let (read, _) = read.step(ReadEvent::OverlayBase(Some(base)));
    let (_, action) = read.step(ReadEvent::PageHash(None));
    assert!(matches!(action, ReadAction::Done(None)));
}

#[test]
fn malformed_overlay_base_cannot_be_read() {
    let (read, _) = start(V1);
    let (read, _) = read.step(ReadEvent::PageHash(None));
    let base =
        NamespaceOverlayBase { ns_id: "junk".to_string(), snapshot_version: V1.to_string() };
    let (_, action) = read.step(ReadEvent::OverlayBase(Some(base)));
    assert!(matches!(action, ReadAction::Fail(ReadError::InvalidOverlayNsId)));
}
