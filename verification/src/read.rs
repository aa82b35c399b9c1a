//! Reading pages: by content hash, or at a version, with the pages of an overlay base showing
//! through.

use bytes::Bytes;
use vstd::prelude::*;

use crate::namespace::{NamespaceOverlayBase, VersionedRead};
use crate::store::Core;
use crate::version::decode_version;

verus! {

/// A request for one page.
pub struct ReadPageRequest<'a> {
    pub page_index: u32,
    pub version: &'a str,
    /// If set, the page is looked up by its content hash and not at a version: the caller
    /// has written it in the same transaction.
    pub hash: Option<[u8; 32]>,
}

/// A page, and the version at which it was written.
pub struct Page {
    pub version: String,
    pub data: Bytes,
}

/// Why a page could not be read.
#[derive(Debug, Clone, Copy, PartialEq, Eq, Structural)]
pub enum ReadError {
    /// The version asked for is malformed.
    InvalidVersion,
    /// The page is indexed under a hash whose content is not stored.
    MissingContent,
    /// The namespace lies over a base whose id is malformed.
    InvalidOverlayNsId,
}

impl ReadError {
    /// The text of the error.
    pub fn message(&self) -> (r: String)
        ensures
            r@ == match *self {
                ReadError::InvalidVersion => "invalid version"@,
                ReadError::MissingContent => "cannot find content for the provided hash"@,
                ReadError::InvalidOverlayNsId => "invalid version"@,
            },
    {
        match self {
            ReadError::InvalidVersion => "invalid version".to_owned(),
            ReadError::MissingContent => "cannot find content for the provided hash".to_owned(),
            ReadError::InvalidOverlayNsId => "invalid version".to_owned(),
        }
    }
}

/// The database transaction that a page is read in.
pub enum ReadTransaction {
    /// One at whatever version the database hands out.
    Latest { read_lock_aware: bool },
    /// One at the version asked for.
    AtVersion(VersionedRead),
}

/// What the read of a page waits for.
pub enum ReadWait {
    /// The content of a page that is read by its hash. `version` is what the page is marked
    /// with: the version asked for, or nothing where it is too long for that.
    OwnContent { version: String },
    /// The hash of the page.
    PageHash { from_overlay: bool },
    /// The content of the page, which was written at `version`.
    Content { version: String },
    /// The overlay base of the namespace.
    OverlayBase,
    /// Nothing: the read is over.
    Nothing,
}

/// A page that is being read.
pub struct PageRead {
    /// The namespace that is read: in the end, perhaps the overlay base.
    pub ns_id: [u8; 10],
    pub page_index: u32,
    pub wait: ReadWait,
}

/// What the store has found.
pub enum ReadEvent {
    Content(Option<Bytes>),
    /// The hash of a page, and the version at which it was written.
    PageHash(Option<(String, [u8; 32])>),
    OverlayBase(Option<NamespaceOverlayBase>),
}

/// What to do next in order to read a page.
pub enum ReadAction {
    /// Fetch the content that the namespace has under this hash.
    FetchContent { ns_id: [u8; 10], hash: [u8; 32] },
    /// Find the hash that the page had at `version`.
    FetchPageHash { ns_id: [u8; 10], page_index: u32, version: String },
    /// Find the overlay base of the namespace.
    FetchOverlayBase { ns_id: [u8; 10] },
    /// The page, or nothing if there is no such page.
    Done(Option<Page>),
    Fail(ReadError),
}

/// `action` asks for the hash that a page had at `version`.
pub open spec fn fetches_page(
    action: ReadAction,
    ns_id: Seq<u8>,
    page_index: u32,
    version: Seq<char>,
) -> bool {
    action matches ReadAction::FetchPageHash { ns_id: n, page_index: p, version: v } && n@ == ns_id
        && p == page_index && v@ == version
}

/// The read waits for `event`.
pub open spec fn awaits(wait: ReadWait, event: ReadEvent) -> bool {
    match wait {
        ReadWait::OwnContent { .. } => event is Content,
        ReadWait::PageHash { .. } => event is PageHash,
        ReadWait::Content { .. } => event is Content,
        ReadWait::OverlayBase => event is OverlayBase,
        ReadWait::Nothing => false,
    }
}

/// On `event` the read goes on from `before` to `after`, and `action` is next.
pub open spec fn read_step(
    before: PageRead,
    event: ReadEvent,
    after: PageRead,
    action: ReadAction,
) -> bool {
    &&& after.page_index == before.page_index
    &&& event !is OverlayBase ==> after.ns_id == before.ns_id
    &&& match (before.wait, event) {
        (ReadWait::OwnContent { version }, ReadEvent::Content(content)) => {
            &&& after.wait is Nothing
            &&& action == ReadAction::Done(
                match content {
                    Some(data) => Some(Page { version, data }),
                    None => None,
                },
            )
        },
        (ReadWait::PageHash { from_overlay }, ReadEvent::PageHash(Some((version, hash)))) => {
            &&& after.wait == ReadWait::Content { version }
            &&& action == ReadAction::FetchContent { ns_id: before.ns_id, hash }
        },
        (ReadWait::PageHash { from_overlay }, ReadEvent::PageHash(None)) => if from_overlay {
            after.wait is Nothing && action == ReadAction::Done(None)
        } else {
            &&& after.wait is OverlayBase
            &&& action == ReadAction::FetchOverlayBase { ns_id: before.ns_id }
        },
        (ReadWait::Content { version }, ReadEvent::Content(content)) => {
            &&& after.wait is Nothing
            &&& action == match content {
                Some(data) => ReadAction::Done(Some(Page { version, data })),
                None => ReadAction::Fail(ReadError::MissingContent),
            }
        },
        (ReadWait::OverlayBase, ReadEvent::OverlayBase(Some(base))) => {
            if crate::version::is_version_text(base.ns_id@) {
                &&& after.wait == ReadWait::PageHash { from_overlay: true }
                &&& after.ns_id@ == crate::outside::hex_value(base.ns_id@)
                &&& fetches_page(
                    action,
                    after.ns_id@,
                    before.page_index,
                    base.snapshot_version@,
                )
            } else {
                &&& after.wait is Nothing
                &&& after.ns_id == before.ns_id
                &&& action == ReadAction::Fail(ReadError::InvalidOverlayNsId)
            }
        },
        (ReadWait::OverlayBase, ReadEvent::OverlayBase(None)) => {
            &&& after.wait is Nothing
            &&& after.ns_id == before.ns_id
            &&& action == ReadAction::Done(None)
        },
        _ => false,
    }
}

impl Core {
    /// Starts to read a page. A page that the caller has written is fetched by its hash, from
    /// whatever version; any other page is looked for at the version asked for. `fits_label` is
    /// whether the version is short enough for a page to be marked with it.
    pub fn read_page(&self, ns_id: [u8; 10], req: ReadPageRequest, fits_label: bool) -> (r: Result<
        (PageRead, ReadTransaction, ReadAction),
        ReadError,
    >)
        ensures
            match req.hash {
                Some(hash) => {
                    &&& r matches Ok((read, txn, action))
                    &&& read.ns_id == ns_id
                    &&& read.page_index == req.page_index
                    &&& read.wait matches ReadWait::OwnContent { version }
                    &&& version@ == if fits_label {
                        req.version@
                    } else {
                        Seq::empty()
                    }
                    &&& txn == (ReadTransaction::Latest {
                        read_lock_aware: self.replica_tag is Some,
                    })
                    &&& action == ReadAction::FetchContent { ns_id, hash }
                },
                None => if crate::version::is_version_text(req.version@) {
                    &&& r matches Ok((read, txn, action))
                    &&& read.ns_id == ns_id
                    &&& read.page_index == req.page_index
                    &&& read.wait == ReadWait::PageHash { from_overlay: false }
                    &&& txn matches ReadTransaction::AtVersion(open)
                    &&& open.version@ == crate::outside::hex_value(req.version@)
                    &&& open.read_lock_aware == (self.replica_tag is Some)
                    &&& open.causal_read_risky
                    &&& !open.grv_called
                    &&& fetches_page(action, ns_id@, req.page_index, req.version@)
                } else {
                    r == Err::<(PageRead, ReadTransaction, ReadAction), ReadError>(
                        ReadError::InvalidVersion,
                    )
                },
            },
    {
        match req.hash {
            Some(hash) => {
                let version = if fits_label {
                    req.version.to_owned()
                } else {
                    proof {
                        reveal_strlit("");
                        assert(""@ =~= Seq::<char>::empty());
                    }
                    "".to_owned()
                };
                Ok(
                    (
                        PageRead {
                            ns_id,
                            page_index: req.page_index,
                            wait: ReadWait::OwnContent { version },
                        },
                        ReadTransaction::Latest { read_lock_aware: self.is_read_only() },
                        ReadAction::FetchContent { ns_id, hash },
                    ),
                )
            },
            None => match self.create_versioned_read_txn(req.version) {
                Err(_) => Err(ReadError::InvalidVersion),
                Ok(open) => Ok(
                    (
                        PageRead {
                            ns_id,
                            page_index: req.page_index,
                            wait: ReadWait::PageHash { from_overlay: false },
                        },
                        ReadTransaction::AtVersion(open),
                        ReadAction::FetchPageHash {
                            ns_id,
                            page_index: req.page_index,
                            version: req.version.to_owned(),
                        },
                    ),
                ),
            },
        }
    }
}

impl PageRead {
    /// Goes on reading, after the store has found what the read waits for.
    pub fn step(self, event: ReadEvent) -> (r: (PageRead, ReadAction))
        requires
            awaits(self.wait, event),
        ensures
            read_step(self, event, r.0, r.1),
    {
        let PageRead { ns_id, page_index, wait } = self;
        let (ns_id, wait, action) = match (wait, event) {
            (ReadWait::OwnContent { version }, ReadEvent::Content(content)) => (
                ns_id,
                ReadWait::Nothing,
                ReadAction::Done(
                    match content {
                        Some(data) => Some(Page { version, data }),
                        None => None,
                    },
                ),
            ),
            (ReadWait::PageHash { from_overlay }, ReadEvent::PageHash(found)) => match found {
                Some((version, hash)) => (
                    ns_id,
                    ReadWait::Content { version },
                    ReadAction::FetchContent { ns_id, hash },
                ),
                None => if from_overlay {
                    (ns_id, ReadWait::Nothing, ReadAction::Done(None))
                } else {
                    (ns_id, ReadWait::OverlayBase, ReadAction::FetchOverlayBase { ns_id })
                },
            },
            (ReadWait::Content { version }, ReadEvent::Content(content)) => match content {
                Some(data) => (
                    ns_id,
                    ReadWait::Nothing,
                    ReadAction::Done(Some(Page { version, data })),
                ),
                None => (ns_id, ReadWait::Nothing, ReadAction::Fail(ReadError::MissingContent)),
            },
            (ReadWait::OverlayBase, ReadEvent::OverlayBase(base)) => match base {
                None => (ns_id, ReadWait::Nothing, ReadAction::Done(None)),
                Some(base) => match decode_version(base.ns_id.as_str()) {
                    Err(_) => (
                        ns_id,
                        ReadWait::Nothing,
                        ReadAction::Fail(ReadError::InvalidOverlayNsId),
                    ),
                    Ok(base_ns_id) => (
                        base_ns_id,
                        ReadWait::PageHash { from_overlay: true },
                        ReadAction::FetchPageHash {
                            ns_id: base_ns_id,
                            page_index,
                            version: base.snapshot_version,
                        },
                    ),
                },
            },
            _ => {
                assert(false);
                (ns_id, ReadWait::Nothing, ReadAction::Done(None))
            },
        };
        (PageRead { ns_id, page_index, wait }, action)
    }
}

/// What a store holds, as far as reading is concerned.
pub ghost struct StoredPages {
    /// The hash that a page of a namespace had at a version.
    pub page_hash: spec_fn(Seq<u8>, u32, Seq<char>) -> Option<(String, [u8; 32])>,
    /// The content that a namespace has under a hash.
    pub content: spec_fn(Seq<u8>, [u8; 32]) -> Option<Bytes>,
    /// The overlay base of a namespace.
    pub base: spec_fn(Seq<u8>) -> Option<NamespaceOverlayBase>,
}

/// `event` is what `store` finds on `action`.
pub open spec fn finds(store: StoredPages, action: ReadAction, event: ReadEvent) -> bool {
    match action {
        ReadAction::FetchContent { ns_id, hash } => event == ReadEvent::Content(
            (store.content)(ns_id@, hash),
        ),
        ReadAction::FetchPageHash { ns_id, page_index, version } => event == ReadEvent::PageHash(
            (store.page_hash)(ns_id@, page_index, version@),
        ),
        ReadAction::FetchOverlayBase { ns_id } => event == ReadEvent::OverlayBase(
            (store.base)(ns_id@),
        ),
        _ => false,
    }
}

/// The page of one namespace at a version, whatever lies below the namespace.
pub open spec fn own_page(
    store: StoredPages,
    ns_id: Seq<u8>,
    page_index: u32,
    version: Seq<char>,
) -> ReadAction {
    match (store.page_hash)(ns_id, page_index, version) {
        None => ReadAction::Done(None),
        Some((written, hash)) => match (store.content)(ns_id, hash) {
            Some(data) => ReadAction::Done(Some(Page { version: written, data })),
            None => ReadAction::Fail(ReadError::MissingContent),
        },
    }
}

/// The page of a namespace at a version: its own page, or the page of its overlay base where
/// it has none.
pub open spec fn visible_page(
    store: StoredPages,
    ns_id: Seq<u8>,
    page_index: u32,
    version: Seq<char>,
) -> ReadAction {
    if own_page(store, ns_id, page_index, version) != ReadAction::Done(None) {
        own_page(store, ns_id, page_index, version)
    } else {
        match (store.base)(ns_id) {
            None => ReadAction::Done(None),
            Some(base) => if crate::version::is_version_text(base.ns_id@) {
                own_page(
                    store,
                    crate::outside::hex_value(base.ns_id@),
                    page_index,
                    base.snapshot_version@,
                )
            } else {
                ReadAction::Fail(ReadError::InvalidOverlayNsId)
            },
        }
    }
}

/// A read that `store` has answered so far: `actions[k]` was answered by `events[k]`, which
/// took the read from `reads[k]` to `reads[k + 1]` and to `actions[k + 1]`.
pub open spec fn read_run(
    store: StoredPages,
    reads: Seq<PageRead>,
    actions: Seq<ReadAction>,
    events: Seq<ReadEvent>,
) -> bool {
    &&& reads.len() == events.len() + 1
    &&& actions.len() == reads.len()
    &&& forall|k: int|
        0 <= k < events.len() ==> {
            &&& finds(store, actions[k], #[trigger] events[k])
            &&& read_step(reads[k], events[k], reads[k + 1], actions[k + 1])
        }
}

/// A read at a version is over after at most five answers, and it then yields the page that
/// is visible at that version.
pub proof fn versioned_read_finds_the_visible_page(
    store: StoredPages,
    reads: Seq<PageRead>,
    actions: Seq<ReadAction>,
    events: Seq<ReadEvent>,
    version: Seq<char>,
)
    requires
        read_run(store, reads, actions, events),
        reads[0].wait == (ReadWait::PageHash { from_overlay: false }),
        fetches_page(actions[0], reads[0].ns_id@, reads[0].page_index, version),
    ensures
        events.len() <= 5,
        events.len() == 5 ==> reads.last().wait is Nothing,
        reads.last().wait is Nothing ==> actions.last() == visible_page(
            store,
            reads[0].ns_id@,
            reads[0].page_index,
            version,
        ),
{
    if events.len() > 0 {
        assert(finds(store, actions[0], events[0]));
        assert(read_step(reads[0], events[0], reads[1], actions[1]));
    }
    if events.len() > 1 {
        assert(finds(store, actions[1], events[1]));
        assert(read_step(reads[1], events[1], reads[2], actions[2]));
    }
    if events.len() > 2 {
        assert(finds(store, actions[2], events[2]));
        assert(read_step(reads[2], events[2], reads[3], actions[3]));
    }
    if events.len() > 3 {
        assert(finds(store, actions[3], events[3]));
        assert(read_step(reads[3], events[3], reads[4], actions[4]));
    }
    if events.len() > 4 {
        assert(finds(store, actions[4], events[4]));
        assert(read_step(reads[4], events[4], reads[5], actions[5]));
    }
}

/// A read by hash is over after one answer, and yields the content that the namespace has
/// under that hash, whatever pages it has at which version and whatever lies below it.
pub proof fn read_by_hash_ignores_versions(
    store: StoredPages,
    reads: Seq<PageRead>,
    actions: Seq<ReadAction>,
    events: Seq<ReadEvent>,
    label: String,
    ns_id: [u8; 10],
    hash: [u8; 32],
)
    requires
        read_run(store, reads, actions, events),
        reads[0].wait == (ReadWait::OwnContent { version: label }),
        actions[0] == (ReadAction::FetchContent { ns_id, hash }),
    ensures
        events.len() <= 1,
        events.len() == 1 ==> actions[1] == ReadAction::Done(
            match (store.content)(ns_id@, hash) {
                Some(data) => Some(Page { version: label, data }),
                None => None,
            },
        ),
{
    if events.len() > 0 {
        assert(finds(store, actions[0], events[0]));
        assert(read_step(reads[0], events[0], reads[1], actions[1]));
    }
    if events.len() > 1 {
        assert(finds(store, actions[1], events[1]));
    }
}

/// A read at a version, from its start on: `actions[k]` is answered by what `store` holds, and
/// the answer takes the read to `actions[k + 1]`.
///
/// Whenever the read says that it is done or has failed, what it says is what the store holds:
/// the content under the hash that the page has at that version, marked with the version at
/// which it was written; where the namespace has no such page, the same of its overlay base at
/// the snapshot; and nothing where neither has the page. The read then waits for nothing more.
/// Until then it can take in whatever the store finds, and it is over after five answers.
pub proof fn versioned_read_reports_what_is_stored(
    core: &Core,
    ns_id: [u8; 10],
    req: ReadPageRequest,
    fits_label: bool,
    opened: Result<(PageRead, ReadTransaction, ReadAction), ReadError>,
    store: StoredPages,
    reads: Seq<PageRead>,
    actions: Seq<ReadAction>,
    events: Seq<ReadEvent>,
)
    requires
        call_ensures(Core::read_page, (core, ns_id, req, fits_label), opened),
        req.hash is None,
        opened is Ok,
        reads.len() == events.len() + 1,
        actions.len() == reads.len(),
        reads[0] == opened->Ok_0.0,
        actions[0] == opened->Ok_0.2,
        forall|k: int|
            0 <= k < events.len() ==> {
                &&& call_ensures(
                    PageRead::step,
                    (reads[k], #[trigger] events[k]),
                    (reads[k + 1], actions[k + 1]),
                )
                &&& match actions[k] {
                    ReadAction::FetchContent { ns_id: n, hash } => events[k] == ReadEvent::Content(
                        (store.content)(n@, hash),
                    ),
                    ReadAction::FetchPageHash { ns_id: n, page_index, version } => events[k]
                        == ReadEvent::PageHash((store.page_hash)(n@, page_index, version@)),
                    ReadAction::FetchOverlayBase { ns_id: n } => events[k]
                        == ReadEvent::OverlayBase((store.base)(n@)),
                    _ => false,
                }
            },
    ensures
        events.len() <= 5,
        events.len() == 5 ==> actions.last() is Done || actions.last() is Fail,
        forall|k: int|
            0 <= k < reads.len() ==> {
                &&& (#[trigger] reads[k]).wait is Nothing
                    <==> actions[k] is Done || actions[k] is Fail
                &&& actions[k] is Done || actions[k] is Fail ==> k == events.len()
                &&& actions[k] is FetchContent ==> forall|found: Option<Bytes>|
                    call_requires(PageRead::step, (reads[k], ReadEvent::Content(found)))
                &&& actions[k] is FetchPageHash ==> forall|found: Option<(String, [u8; 32])>|
                    call_requires(PageRead::step, (reads[k], ReadEvent::PageHash(found)))
                &&& actions[k] is FetchOverlayBase ==> forall|found: Option<NamespaceOverlayBase>|
                    call_requires(PageRead::step, (reads[k], ReadEvent::OverlayBase(found)))
            },
        actions.last() is Done || actions.last() is Fail ==> actions.last() == match (
        store.page_hash)(ns_id@, req.page_index, req.version@) {
            Some((written, hash)) => match (store.content)(ns_id@, hash) {
                Some(data) => ReadAction::Done(Some(Page { version: written, data })),
                None => ReadAction::Fail(ReadError::MissingContent),
            },
            None => match (store.base)(ns_id@) {
                None => ReadAction::Done(None),
                Some(base) => if base.ns_id@.len() == 20 && forall|i: int|
                    0 <= i < 20 ==> crate::outside::is_hex_digit(#[trigger] base.ns_id@[i]) {
                    let below = crate::outside::hex_value(base.ns_id@);
                    match (store.page_hash)(below, req.page_index, base.snapshot_version@) {
                        Some((written, hash)) => match (store.content)(below, hash) {
                            Some(data) => ReadAction::Done(Some(Page { version: written, data })),
                            None => ReadAction::Fail(ReadError::MissingContent),
                        },
                        None => ReadAction::Done(None),
                    }
                } else {
                    ReadAction::Fail(ReadError::InvalidOverlayNsId)
                },
            },
        },
{
    let n: int = events.len() as int;
    if n > 0 {
        assert(read_step(reads[0], events[0], reads[1], actions[1]));
    }
    if n > 1 {
        assert(read_step(reads[1], events[1], reads[2], actions[2]));
    }
    if n > 2 {
        assert(read_step(reads[2], events[2], reads[3], actions[3]));
    }
    if n > 3 {
        assert(read_step(reads[3], events[3], reads[4], actions[4]));
    }
    if n > 4 {
        assert(read_step(reads[4], events[4], reads[5], actions[5]));
    }
    if n > 5 {
        assert(read_step(reads[5], events[5], reads[6], actions[6]));
    }
    assert forall|k: int| 0 <= k < reads.len() implies {
        &&& (#[trigger] reads[k]).wait is Nothing <==> actions[k] is Done || actions[k] is Fail
        &&& actions[k] is Done || actions[k] is Fail ==> k == events.len()
        &&& actions[k] is FetchContent ==> forall|found: Option<Bytes>|
            call_requires(PageRead::step, (reads[k], ReadEvent::Content(found)))
        &&& actions[k] is FetchPageHash ==> forall|found: Option<(String, [u8; 32])>|
            call_requires(PageRead::step, (reads[k], ReadEvent::PageHash(found)))
        &&& actions[k] is FetchOverlayBase ==> forall|found: Option<NamespaceOverlayBase>|
            call_requires(PageRead::step, (reads[k], ReadEvent::OverlayBase(found)))
    } by {
        if k < n {
            assert(read_step(reads[k], events[k], reads[k + 1], actions[k + 1]));
        }
        if k > 0 {
            assert(read_step(reads[k - 1], events[k - 1], reads[k], actions[k]));
        }
    }
}

/// A read by hash, from its start on: whatever the version asked for, it fetches the content
/// that the namespace has under that hash, and one answer ends it. The page is marked with the
/// version asked for if that is short enough for it, and with no version otherwise.
pub proof fn read_by_hash_reports_that_content(
    core: &Core,
    ns_id: [u8; 10],
    req: ReadPageRequest,
    fits_label: bool,
    opened: Result<(PageRead, ReadTransaction, ReadAction), ReadError>,
    found: Option<Bytes>,
    r: (PageRead, ReadAction),
)
    requires
        call_ensures(Core::read_page, (core, ns_id, req, fits_label), opened),
        req.hash is Some,
        opened is Ok,
        call_ensures(PageRead::step, (opened->Ok_0.0, ReadEvent::Content(found)), r),
    ensures
        opened->Ok_0.2 == (ReadAction::FetchContent { ns_id, hash: req.hash->0 }),
        call_requires(PageRead::step, (opened->Ok_0.0, ReadEvent::Content(found))),
        r.0.wait is Nothing,
        r.1 matches ReadAction::Done(page) && match (page, found) {
            (Some(page), Some(content)) => {
                &&& page.data == content
                &&& fits_label ==> page.version@ == req.version@
                &&& !fits_label ==> page.version@.len() == 0
            },
            (None, None) => true,
            _ => false,
        },
{
}

/// A read by hash can always be started, in a transaction at whatever version the database
/// hands out. A read at a version can be started exactly if the version is twenty hexadecimal
/// digits, and it goes by a transaction at that version that has not asked the database for
/// one. Only a replica is read although the database is locked.
pub proof fn reads_start_at_the_version_asked_for(
    core: &Core,
    ns_id: [u8; 10],
    req: ReadPageRequest,
    fits_label: bool,
    opened: Result<(PageRead, ReadTransaction, ReadAction), ReadError>,
    decoded: Result<crate::version::Version, crate::version::InvalidVersion>,
)
    requires
        call_ensures(Core::read_page, (core, ns_id, req, fits_label), opened),
        call_ensures(decode_version, (req.version,), decoded),
    ensures
        req.hash is Some ==> {
            &&& opened matches Ok((read, txn, action))
            &&& txn == (ReadTransaction::Latest { read_lock_aware: core.replica_tag is Some })
        },
        req.hash is None ==> match decoded {
            Err(_) => opened matches Err(e) && e == ReadError::InvalidVersion,
            Ok(version) => {
                &&& opened matches Ok((read, txn, action))
                &&& txn matches ReadTransaction::AtVersion(open)
                &&& open.version@ == version@
                &&& open.read_lock_aware == (core.replica_tag is Some)
                &&& open.causal_read_risky
                &&& !open.grv_called
                &&& action matches ReadAction::FetchPageHash { ns_id: n, page_index, version: v }
                &&& n@ == ns_id@
                &&& page_index == req.page_index
                &&& v@ == req.version@
            },
        },
{
}

} // verus!
