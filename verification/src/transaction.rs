//! A transaction on one namespace: what it has read and written, and what it asks of the
//! store.

use std::collections::{HashMap, HashSet};

use bytes::Bytes;
use vstd::prelude::*;

use crate::client::{
    CommitNamespaceInit, CommitOutput, CommitRequest, CommitResult, MultiVersionClientConfig,
    NamespaceCommitIntent,
};
use crate::hashes::ContentHashSet;
use crate::outside::{buffer_slice, content_hash, share_buffer};
use crate::read::{Page, ReadPageRequest};
use crate::write::WriteRequest;

verus! {

broadcast use vstd::std_specs::hash::group_hash_axioms;

/// A transaction pinned to one version of a namespace.
pub struct Transaction {
    ns_key: String,
    ns_key_hashproof: Option<String>,
    ns_id: [u8; 10],
    version: String,
    page_buffer: HashMap<u32, [u8; 32]>,
    seen_hashes: ContentHashSet,
    read_only: bool,
    read_set: Option<HashSet<u32>>,
}

/// What a transaction stands for.
#[verifier::ext_equal]
pub struct TransactionView {
    pub ns_key: Seq<char>,
    pub ns_key_hashproof: Option<Seq<char>>,
    pub ns_id: Seq<u8>,
    pub version: Seq<char>,
    /// The pages that the transaction has written, and their content hashes.
    pub pages: Map<u32, Seq<u8>>,
    /// The hashes of all contents that the transaction has read or written.
    pub seen: Set<Seq<u8>>,
    pub read_only: bool,
    /// The pages that the transaction has declared to have read, if it keeps track of them.
    pub read_set: Option<Set<u32>>,
}

/// A transaction that has neither read nor written anything.
pub open spec fn fresh_transaction(
    config: MultiVersionClientConfig,
    ns_id: Seq<u8>,
    version: Seq<char>,
    read_only: bool,
) -> TransactionView {
    TransactionView {
        ns_key: config.ns_key@,
        ns_key_hashproof: crate::client::opt_text(config.ns_key_hashproof),
        ns_id,
        version,
        pages: Map::empty(),
        seen: Set::empty(),
        read_only,
        read_set: None,
    }
}

/// The pages of a buffer, with their hashes as byte strings.
spec fn buffered_pages(buffer: Map<u32, [u8; 32]>) -> Map<u32, Seq<u8>> {
    buffer.map_values(|h: [u8; 32]| h@)
}

impl View for Transaction {
    type V = TransactionView;

    closed spec fn view(&self) -> TransactionView {
        TransactionView {
            ns_key: self.ns_key@,
            ns_key_hashproof: crate::client::opt_text(self.ns_key_hashproof),
            ns_id: self.ns_id@,
            version: self.version@,
            pages: buffered_pages(self.page_buffer@),
            seen: self.seen_hashes@,
            read_only: self.read_only,
            read_set: match self.read_set {
                Some(read_set) => Some(read_set@),
                None => None,
            },
        }
    }
}

pub(crate) fn copy_text(s: &Option<String>) -> (r: Option<String>)
    ensures
        r == *s,
{
    match s {
        Some(s) => Some(s.clone()),
        None => None,
    }
}

pub(crate) fn copy_read_set(read_set: &HashSet<u32>) -> (r: HashSet<u32>)
    ensures
        r@ == read_set@,
{
    let mut r: HashSet<u32> = HashSet::new();
    for page in it: read_set.iter()
        invariant
            it.seq() == vstd::std_specs::iter::IteratorSpec::remaining(
                &vstd::std_specs::hash::spec_hash_keys_iter(read_set),
            ),
            forall|p: u32|
                r@.contains(p) <==> exists|i: int|
                    0 <= i < it.index() && *(#[trigger] it.seq()[i]) == p,
    {
        r.insert(*page);
    }
    proof {
        let pages = vstd::std_specs::iter::IteratorSpec::remaining(
            &vstd::std_specs::hash::spec_hash_keys_iter(read_set),
        );
        assert forall|p: u32| r@.contains(p) <==> read_set@.contains(p) by {
            assert(pages.unref().to_set() == read_set@);
            assert(read_set@.contains(p) <==> pages.unref().contains(p));
            if pages.unref().contains(p) {
                let i: int = choose|i: int| 0 <= i < pages.unref().len() && pages.unref()[i] == p;
                assert(*pages[i] == p);
            }
            if r@.contains(p) {
                let i: int = choose|i: int| 0 <= i < pages.len() && *(#[trigger] pages[i]) == p;
                assert(pages.unref()[i] == p);
            }
        }
        assert(r@ =~= read_set@);
    }
    r
}

/// The keys of a map, each once, in no particular order.
fn page_keys<V>(m: &HashMap<u32, V>) -> (r: Vec<u32>)
    ensures
        r@.no_duplicates(),
        r@.to_set() == m@.dom(),
        r@.len() == m@.len(),
{
    let mut r: Vec<u32> = Vec::new();
    for page in it: m.keys()
        invariant
            it.seq() == vstd::std_specs::iter::IteratorSpec::remaining(
                &vstd::std_specs::hash::spec_keys_iter(m),
            ),
            r@.len() == it.index(),
            forall|i: int| 0 <= i < r@.len() ==> r@[i] == *it.seq()[i],
    {
        r.push(*page);
    }
    proof {
        let keys = vstd::std_specs::iter::IteratorSpec::remaining(
            &vstd::std_specs::hash::spec_keys_iter(m),
        );
        assert(r@ =~= keys.unref());
    }
    r
}

impl Transaction {
    /// Opens a transaction.
    pub(crate) fn open(
        config: &MultiVersionClientConfig,
        ns_id: [u8; 10],
        version: &str,
        read_only: bool,
    ) -> (r: Transaction)
        ensures
            r@ == fresh_transaction(*config, ns_id@, version@, read_only),
    {
        let r = Transaction {
            ns_key: config.ns_key.clone(),
            ns_key_hashproof: copy_text(&config.ns_key_hashproof),
            ns_id,
            version: version.to_owned(),
            page_buffer: HashMap::new(),
            seen_hashes: ContentHashSet::new(),
            read_only,
            read_set: None,
        };
        assert(r@ =~= fresh_transaction(*config, ns_id@, version@, read_only));
        r
    }

    /// The version that the transaction reads at.
    pub fn version(&self) -> (r: &str)
        ensures
            r@ == self@.version,
    {
        self.version.as_str()
    }

    pub fn is_read_only(&self) -> (r: bool)
        ensures
            r == self@.read_only,
    {
        self.read_only
    }

    /// The namespace that the transaction is on.
    pub fn ns_id(&self) -> (r: [u8; 10])
        ensures
            r@ == self@.ns_id,
    {
        self.ns_id
    }

    /// Whether the transaction has written the page.
    pub fn page_is_written(&self, page_id: u32) -> (r: bool)
        ensures
            r == self@.pages.contains_key(page_id),
    {
        self.page_buffer.contains_key(&page_id)
    }

    /// The pages that the transaction has written, each once, in no particular order.
    pub fn written_pages(&self) -> (r: Vec<u32>)
        ensures
            r@.no_duplicates(),
            r@.to_set() == self@.pages.dom(),
    {
        let r = page_keys(&self.page_buffer);
        assert(self@.pages.dom() =~= self.page_buffer@.dom());
        r
    }

    /// Starts to keep track of the pages that are read, if the transaction does not already.
    pub fn enable_read_set(&mut self)
        ensures
            final(self)@ == (TransactionView {
                read_set: match old(self)@.read_set {
                    Some(read_set) => Some(read_set),
                    None => Some(Set::empty()),
                },
                ..old(self)@
            }),
    {
        if self.read_set.is_none() {
            self.read_set = Some(HashSet::new());
        }
        assert(self@ =~= (TransactionView {
            read_set: match old(self)@.read_set {
                Some(read_set) => Some(read_set),
                None => Some(Set::empty()),
            },
            ..old(self)@
        }));
    }

    /// Stops keeping track of the pages that are read, and forgets those noted so far.
    pub fn disable_read_set(&mut self)
        ensures
            final(self)@ == (TransactionView { read_set: None, ..old(self)@ }),
    {
        self.read_set = None;
    }

    /// How many pages are noted as read.
    pub fn read_set_size(&self) -> (r: usize)
        ensures
            r == match self@.read_set {
                Some(read_set) => read_set.len(),
                None => 0,
            },
    {
        match &self.read_set {
            Some(read_set) => read_set.len(),
            None => 0,
        }
    }

    pub fn is_read_set_enabled(&self) -> (r: bool)
        ensures
            r == self@.read_set is Some,
    {
        self.read_set.is_some()
    }

    /// Notes that the page is read, if the transaction keeps track of that.
    pub fn mark_read(&mut self, page_id: u32)
        ensures
            final(self)@ == (TransactionView {
                read_set: match old(self)@.read_set {
                    Some(read_set) => Some(read_set.insert(page_id)),
                    None => None,
                },
                ..old(self)@
            }),
    {
        match self.read_set.take() {
            Some(mut read_set) => {
                read_set.insert(page_id);
                self.read_set = Some(read_set);
            },
            None => {},
        }
    }
}

/// The content hash by which a transaction asks for a page that it has written itself.
pub open spec fn own_hash(txn: TransactionView, page: u32) -> Option<Seq<u8>> {
    if txn.pages.contains_key(page) {
        Some(txn.pages[page])
    } else {
        None
    }
}

/// The bytes of an optional hash.
pub open spec fn opt_hash(hash: Option<[u8; 32]>) -> Option<Seq<u8>> {
    match hash {
        Some(hash) => Some(hash@),
        None => None,
    }
}

/// The content of a page: nothing, if the page was never written.
pub open spec fn page_content(page: Option<Page>) -> Seq<u8> {
    match page {
        Some(page) => crate::outside::buffer_bytes(page.data),
        None => Seq::empty(),
    }
}

/// `seen` and the hashes of the first `n` contents.
pub open spec fn with_hashes(seen: Set<Seq<u8>>, hashes: Seq<Seq<u8>>, n: int) -> Set<Seq<u8>>
    decreases n,
{
    if n <= 0 {
        seen
    } else {
        with_hashes(seen, hashes, n - 1).insert(hashes[n - 1])
    }
}

/// `pages` after the first `n` writes: of two writes to one page the later one counts.
pub open spec fn with_writes(
    pages: Map<u32, Seq<u8>>,
    raw_pages: Seq<(u32, &[u8])>,
    hashes: Seq<Seq<u8>>,
    n: int,
) -> Map<u32, Seq<u8>>
    decreases n,
{
    if n <= 0 {
        pages
    } else {
        with_writes(pages, raw_pages, hashes, n - 1).insert(raw_pages[n - 1].0, hashes[n - 1])
    }
}

/// Those of the first `n` writes whose content the transaction has not seen.
pub open spec fn unseen_writes<'a>(
    seen: Set<Seq<u8>>,
    raw_pages: Seq<(u32, &'a [u8])>,
    hashes: Seq<Seq<u8>>,
    n: int,
) -> Seq<WriteRequest<'a>>
    decreases n,
{
    if n <= 0 {
        Seq::empty()
    } else {
        let before = unseen_writes(seen, raw_pages, hashes, n - 1);
        if seen.contains(hashes[n - 1]) {
            before
        } else {
            before.push(
                WriteRequest {
                    data: raw_pages[n - 1].1,
                    delta_base: Some(raw_pages[n - 1].0),
                },
            )
        }
    }
}

/// The byte strings of some hashes.
pub open spec fn hash_bytes(hashes: Seq<[u8; 32]>) -> Seq<Seq<u8>> {
    hashes.map_values(|h: [u8; 32]| h@)
}

/// The content hashes of some contents.
pub open spec fn content_hashes(contents: Seq<Vec<u8>>) -> Seq<Seq<u8>> {
    contents.map_values(|c: Vec<u8>| crate::outside::blake3_hash(c@))
}

/// The content hashes of some writes.
pub open spec fn write_hashes(raw_pages: Seq<(u32, &[u8])>) -> Seq<Seq<u8>> {
    raw_pages.map_values(|w: (u32, &[u8])| crate::outside::blake3_hash(w.1@))
}

impl Transaction {
    /// What to ask the store for in order to read some pages. A page that the transaction
    /// has written is asked for by its hash, so that the transaction reads its own writes.
    pub fn read_requests<'a>(&'a self, page_id_list: &[u32]) -> (r: Vec<ReadPageRequest<'a>>)
        ensures
            r@.len() == page_id_list@.len(),
            forall|i: int|
                0 <= i < r@.len() ==> {
                    &&& (#[trigger] r@[i]).page_index == page_id_list@[i]
                    &&& r@[i].version@ == self@.version
                    &&& opt_hash(r@[i].hash) == own_hash(self@, page_id_list@[i])
                },
    {
        let mut r: Vec<ReadPageRequest<'a>> = Vec::new();
        let mut i: usize = 0;
        while i < page_id_list.len()
            invariant
                i <= page_id_list.len(),
                r@.len() == i,
                forall|j: int|
                    0 <= j < i ==> {
                        &&& (#[trigger] r@[j]).page_index == page_id_list@[j]
                        &&& r@[j].version@ == self@.version
                        &&& opt_hash(r@[j].hash) == own_hash(self@, page_id_list@[j])
                    },
            decreases page_id_list.len() - i,
        {
            let hash = match self.page_buffer.get(&page_id_list[i]) {
                Some(hash) => Some(*hash),
                None => None,
            };
            r.push(
                ReadPageRequest {
                    page_index: page_id_list[i],
                    version: self.version.as_str(),
                    hash,
                },
            );
            i = i + 1;
        }
        r
    }

    /// Takes in the pages that the store has found, and hands out their contents. They are
    /// not noted as read.
    pub fn read_many_nomark(&mut self, results: Vec<Option<Page>>) -> (r: Vec<Vec<u8>>)
        ensures
            r@.len() == results@.len(),
            forall|i: int|
                0 <= i < r@.len() ==> (#[trigger] r@[i])@ == page_content(results@[i]),
            final(self)@ == (TransactionView {
                seen: with_hashes(old(self)@.seen, content_hashes(r@), r@.len() as int),
                ..old(self)@
            }),
    {
        let mut r: Vec<Vec<u8>> = Vec::new();
        let mut hashes: Vec<[u8; 32]> = Vec::new();
        let mut i: usize = 0;
        while i < results.len()
            invariant
                i <= results.len(),
                r@.len() == i,
                hashes@.len() == i,
                *self == *old(self),
                forall|j: int| 0 <= j < i ==> (#[trigger] r@[j])@ == page_content(results@[j]),
                forall|j: int|
                    0 <= j < i ==> (#[trigger] hashes@[j])@ == crate::outside::blake3_hash(
                        r@[j]@,
                    ),
            decreases results.len() - i,
        {
            let data: Vec<u8> = match &results[i] {
                Some(page) => vstd::slice::slice_to_vec(buffer_slice(&page.data)),
                None => Vec::new(),
            };
            hashes.push(content_hash(data.as_slice()));
            r.push(data);
            i = i + 1;
        }
        assert(hash_bytes(hashes@) =~= content_hashes(r@));
        self.note_contents(&hashes);
        r
    }

    /// Notes the hashes of contents that the transaction has read.
    pub fn note_contents(&mut self, hashes: &Vec<[u8; 32]>)
        ensures
            final(self)@ == (TransactionView {
                seen: with_hashes(old(self)@.seen, hash_bytes(hashes@), hashes@.len() as int),
                ..old(self)@
            }),
    {
        let mut i: usize = 0;
        while i < hashes.len()
            invariant
                i <= hashes.len(),
                self@ == (TransactionView {
                    seen: with_hashes(old(self)@.seen, hash_bytes(hashes@), i as int),
                    ..old(self)@
                }),
            decreases hashes.len() - i,
        {
            self.seen_hashes.insert(&hashes[i]);
            i = i + 1;
        }
    }

    /// Writes pages. The transaction remembers their hashes at once; what is handed out has
    /// to be stored, and is everything that the transaction has not seen before.
    pub fn write_many<'a>(&mut self, raw_pages: &[(u32, &'a [u8])]) -> (r: Vec<WriteRequest<'a>>)
        ensures
            r@ == unseen_writes(
                old(self)@.seen,
                raw_pages@,
                write_hashes(raw_pages@),
                raw_pages@.len() as int,
            ),
            final(self)@ == (TransactionView {
                pages: with_writes(
                    old(self)@.pages,
                    raw_pages@,
                    write_hashes(raw_pages@),
                    raw_pages@.len() as int,
                ),
                seen: with_hashes(
                    old(self)@.seen,
                    write_hashes(raw_pages@),
                    raw_pages@.len() as int,
                ),
                ..old(self)@
            }),
    {
        let mut hashes: Vec<[u8; 32]> = Vec::new();
        let mut i: usize = 0;
        while i < raw_pages.len()
            invariant
                i <= raw_pages.len(),
                hashes@.len() == i,
                *self == *old(self),
                forall|j: int|
                    0 <= j < i ==> (#[trigger] hashes@[j])@ == crate::outside::blake3_hash(
                        raw_pages@[j].1@,
                    ),
            decreases raw_pages.len() - i,
        {
            hashes.push(content_hash(raw_pages[i].1));
            i = i + 1;
        }
        assert(hash_bytes(hashes@) =~= write_hashes(raw_pages@));
        self.write_hashed(raw_pages, &hashes)
    }

    /// Writes pages whose hashes are known.
    pub fn write_hashed<'a>(
        &mut self,
        raw_pages: &[(u32, &'a [u8])],
        hashes: &Vec<[u8; 32]>,
    ) -> (r: Vec<WriteRequest<'a>>)
        requires
            hashes.len() == raw_pages.len(),
        ensures
            r@ == unseen_writes(
                old(self)@.seen,
                raw_pages@,
                hash_bytes(hashes@),
                raw_pages@.len() as int,
            ),
            final(self)@ == (TransactionView {
                pages: with_writes(
                    old(self)@.pages,
                    raw_pages@,
                    hash_bytes(hashes@),
                    raw_pages@.len() as int,
                ),
                seen: with_hashes(
                    old(self)@.seen,
                    hash_bytes(hashes@),
                    raw_pages@.len() as int,
                ),
                ..old(self)@
            }),
    {
        let mut pushes: Vec<WriteRequest<'a>> = Vec::new();
        let mut i: usize = 0;
        while i < raw_pages.len()
            invariant
                i <= raw_pages.len(),
                hashes.len() == raw_pages.len(),
                *self == *old(self),
                pushes@ == unseen_writes(
                    old(self)@.seen,
                    raw_pages@,
                    hash_bytes(hashes@),
                    i as int,
                ),
            decreases raw_pages.len() - i,
        {
            if !self.seen_hashes.contains(&hashes[i]) {
                pushes.push(
                    WriteRequest { data: raw_pages[i].1, delta_base: Some(raw_pages[i].0) },
                );
            }
            i = i + 1;
        }
        i = 0;
        while i < raw_pages.len()
            invariant
                i <= raw_pages.len(),
                hashes.len() == raw_pages.len(),
                self@ == (TransactionView {
                    pages: with_writes(
                        old(self)@.pages,
                        raw_pages@,
                        hash_bytes(hashes@),
                        i as int,
                    ),
                    seen: with_hashes(old(self)@.seen, hash_bytes(hashes@), i as int),
                    ..old(self)@
                }),
            decreases raw_pages.len() - i,
        {
            let ghost before = self.page_buffer@;
            self.page_buffer.insert(raw_pages[i].0, hashes[i]);
            self.seen_hashes.insert(&hashes[i]);
            assert(buffered_pages(self.page_buffer@) =~= buffered_pages(before).insert(
                raw_pages@[i as int].0,
                hashes@[i as int]@,
            ));
            i = i + 1;
        }
        pushes
    }
}


/// `req` commits a page whose content comes along.
pub open spec fn commits_content(req: CommitRequest, fast_writes: Map<u32, Bytes>) -> bool {
    &&& fast_writes.contains_key(req.page_index)
    &&& req.data matches Some(data)
    &&& crate::outside::buffer_bytes(data) == crate::outside::buffer_bytes(
        fast_writes[req.page_index],
    )
}

/// `req` commits a page whose content is stored already.
pub open spec fn commits_stored(req: CommitRequest, pages: Map<u32, Seq<u8>>) -> bool {
    &&& pages.contains_key(req.page_index)
    &&& req.hash@ == pages[req.page_index]
    &&& req.data is None
}

/// The pages that some requests commit.
pub open spec fn request_pages(requests: Seq<CommitRequest>) -> Seq<u32> {
    requests.map_values(|r: CommitRequest| r.page_index)
}

/// `requests` holds each of `fast_writes` once, with its content.
pub open spec fn carries_all(requests: Seq<CommitRequest>, fast_writes: Map<u32, Bytes>) -> bool {
    &&& request_pages(requests).no_duplicates()
    &&& request_pages(requests).to_set() == fast_writes.dom()
    &&& requests.len() == fast_writes.len()
    &&& forall|i: int|
        0 <= i < requests.len() ==> commits_content(#[trigger] requests[i], fast_writes)
}

/// What an intent says of its namespace and its transaction.
pub open spec fn intent_header(
    intent: NamespaceCommitIntent,
    txn: TransactionView,
    metadata: Option<Seq<char>>,
    fast_writes: Map<u32, Bytes>,
) -> bool {
    &&& intent.ns_id@ == txn.ns_id
    &&& intent.init.ns_key@ == txn.ns_key
    &&& crate::client::opt_text(intent.init.ns_key_hashproof) == txn.ns_key_hashproof
    &&& intent.init.version@ == txn.version
    &&& crate::client::opt_text(intent.init.metadata) == metadata
    &&& intent.init.num_pages as int == (txn.pages.len() + fast_writes.len()) % 0x1_0000_0000
    &&& match intent.init.read_set {
        Some(read_set) => txn.read_set == Some(read_set@),
        None => txn.read_set is None,
    }
}

/// The requests of an intent: first the pages whose content comes along, then the other
/// pages that the transaction has written; no page twice.
pub open spec fn intent_requests(
    requests: Seq<CommitRequest>,
    carried: int,
    pages: Map<u32, Seq<u8>>,
    fast_writes: Map<u32, Bytes>,
) -> bool {
    &&& request_pages(requests).no_duplicates()
    &&& request_pages(requests).to_set() == fast_writes.dom().union(pages.dom())
    &&& forall|i: int|
        carried <= i < requests.len() ==> {
            &&& commits_stored(#[trigger] requests[i], pages)
            &&& !fast_writes.contains_key(requests[i].page_index)
        }
}

/// Nothing is to be committed.
pub open spec fn nothing_to_commit(
    txn: TransactionView,
    metadata: Option<Seq<char>>,
    fast_writes: Map<u32, Bytes>,
) -> bool {
    txn.pages.dom() == Set::<u32>::empty() && metadata is None && fast_writes.dom() == Set::<
        u32,
    >::empty()
}

/// `intent` commits all that the transaction has written, and `fast_writes` along with their
/// contents, each under the hash of its content.
pub open spec fn intent_commits(
    intent: NamespaceCommitIntent,
    txn: TransactionView,
    metadata: Option<Seq<char>>,
    fast_writes: Map<u32, Bytes>,
) -> bool {
    let carried: int = fast_writes.len() as int;
    &&& intent_header(intent, txn, metadata, fast_writes)
    &&& intent_requests(intent.requests@, carried, txn.pages, fast_writes)
    &&& carried <= intent.requests@.len()
    &&& crate::commit::hashes_are_whole(intent.requests@)
    &&& forall|i: int|
        0 <= i < carried ==> {
            let req = #[trigger] intent.requests@[i];
            &&& commits_content(req, fast_writes)
            &&& req.hash@ == crate::outside::blake3_hash(
                crate::outside::buffer_bytes(fast_writes[req.page_index]),
            )
        }
}

proof fn lemma_request_pages_push(requests: Seq<CommitRequest>, req: CommitRequest)
    ensures
        request_pages(requests.push(req)) == request_pages(requests).push(req.page_index),
        request_pages(requests.push(req)).to_set() == request_pages(requests).to_set().insert(
            req.page_index,
        ),
        request_pages(requests).no_duplicates() && !request_pages(requests).contains(
            req.page_index,
        ) ==> request_pages(requests.push(req)).no_duplicates(),
{
    let before = request_pages(requests);
    let after = request_pages(requests.push(req));
    assert(after =~= before.push(req.page_index));
    assert forall|p: u32| after.to_set().contains(p) <==> before.to_set().insert(
        req.page_index,
    ).contains(p) by {
        if before.contains(p) {
            let i: int = choose|i: int| 0 <= i < before.len() && before[i] == p;
            assert(after[i] == p);
        }
        assert(after[before.len() as int] == req.page_index);
        if after.contains(p) {
            let i: int = choose|i: int| 0 <= i < after.len() && after[i] == p;
            if i < before.len() {
                assert(before[i] == p);
            }
        }
    }
    assert(after.to_set() =~= before.to_set().insert(req.page_index));
}

proof fn lemma_take_push(pages: Seq<u32>, n: int)
    requires
        0 <= n < pages.len(),
    ensures
        pages.take(n + 1).to_set() == pages.take(n).to_set().insert(pages[n]),
        pages.no_duplicates() ==> !pages.take(n).contains(pages[n]),
{
    let before = pages.take(n);
    let after = pages.take(n + 1);
    assert forall|p: u32| after.to_set().contains(p) <==> before.to_set().insert(
        pages[n],
    ).contains(p) by {
        if before.contains(p) {
            let i: int = choose|i: int| 0 <= i < before.len() && before[i] == p;
            assert(after[i] == p);
        }
        assert(after[n] == pages[n]);
        if after.contains(p) {
            let i: int = choose|i: int| 0 <= i < after.len() && after[i] == p;
            if i < n {
                assert(before[i] == p);
            }
        }
    }
    assert(after.to_set() =~= before.to_set().insert(pages[n]));
}

/// The request for each page whose content comes along.
fn carry_writes(fast_writes: &HashMap<u32, Bytes>) -> (r: Vec<CommitRequest>)
    ensures
        carries_all(r@, fast_writes@),
        crate::commit::hashes_are_whole(r@),
        forall|i: int|
            0 <= i < r@.len() ==> (#[trigger] r@[i]).hash@ == crate::outside::blake3_hash(
                crate::outside::buffer_bytes(fast_writes@[r@[i].page_index]),
            ),
{
    let pages = page_keys(fast_writes);
    let mut r: Vec<CommitRequest> = Vec::new();
    let mut i: usize = 0;
    assert(request_pages(r@) =~= pages@.take(0));
    while i < pages.len()
        invariant
            i <= pages.len(),
            pages@.no_duplicates(),
            pages@.to_set() == fast_writes@.dom(),
            r@.len() == i,
            request_pages(r@) == pages@.take(i as int),
            crate::commit::hashes_are_whole(r@),
            forall|j: int|
                0 <= j < r@.len() ==> commits_content(#[trigger] r@[j], fast_writes@),
            forall|j: int|
                0 <= j < r@.len() ==> (#[trigger] r@[j]).hash@ == crate::outside::blake3_hash(
                    crate::outside::buffer_bytes(fast_writes@[r@[j].page_index]),
                ),
        decreases pages.len() - i,
    {
        let page: u32 = pages[i];
        assert(pages@.contains(page));
        assert(fast_writes@.dom().contains(page));
        match fast_writes.get(&page) {
            Some(data) => {
                let hash = content_hash(buffer_slice(data));
                let req = CommitRequest {
                    page_index: page,
                    hash: vstd::slice::slice_to_vec(hash.as_slice()),
                    data: Some(share_buffer(data)),
                };
                proof {
                    lemma_request_pages_push(r@, req);
                    assert(pages@.take(i as int + 1) =~= pages@.take(i as int).push(page));
                }
                r.push(req);
            },
            None => {
                assert(false);
            },
        }
        i = i + 1;
    }
    assert(pages@.take(pages@.len() as int) =~= pages@);
    r
}

impl Transaction {
    /// What the transaction wants to commit: every page that it has written, and the pages
    /// of `fast_writes`, whose contents come along and take precedence. `None` if there is
    /// nothing to commit.
    pub fn commit_intent(
        &self,
        metadata: Option<String>,
        fast_writes: &HashMap<u32, Bytes>,
    ) -> (r: Option<NamespaceCommitIntent>)
        ensures
            match r {
                None => nothing_to_commit(
                    self@,
                    crate::client::opt_text(metadata),
                    fast_writes@,
                ),
                Some(intent) => {
                    &&& !nothing_to_commit(
                        self@,
                        crate::client::opt_text(metadata),
                        fast_writes@,
                    )
                    &&& intent_commits(
                        intent,
                        self@,
                        crate::client::opt_text(metadata),
                        fast_writes@,
                    )
                },
            },
    {
        assert(self@.pages.dom() =~= self.page_buffer@.dom());
        if self.page_buffer.is_empty() && metadata.is_none() && fast_writes.is_empty() {
            assert(self@.pages.dom() =~= Set::<u32>::empty());
            assert(fast_writes@.dom() =~= Set::<u32>::empty());
            return None;
        }
        let carried = carry_writes(fast_writes);
        Some(self.intent_from(metadata, fast_writes, carried))
    }

    /// What the transaction wants to commit, given the requests for the pages whose
    /// contents come along.
    pub fn intent_from(
        &self,
        metadata: Option<String>,
        fast_writes: &HashMap<u32, Bytes>,
        carried: Vec<CommitRequest>,
    ) -> (r: NamespaceCommitIntent)
        requires
            carries_all(carried@, fast_writes@),
        ensures
            intent_header(r, self@, crate::client::opt_text(metadata), fast_writes@),
            intent_requests(r.requests@, carried@.len() as int, self@.pages, fast_writes@),
            carried@.len() <= r.requests@.len(),
            forall|i: int| 0 <= i < carried@.len() ==> #[trigger] r.requests@[i] == carried@[i],
            crate::commit::hashes_are_whole(carried@) ==> crate::commit::hashes_are_whole(
                r.requests@,
            ),
    {
        let total: u64 = self.page_buffer.len() as u64;
        let num_pages: u32 = add_page_counts(total, fast_writes.len() as u64);
        let read_set = match &self.read_set {
            Some(read_set) => Some(copy_read_set(read_set)),
            None => None,
        };
        let init = CommitNamespaceInit {
            ns_key: self.ns_key.clone(),
            ns_key_hashproof: copy_text(&self.ns_key_hashproof),
            version: self.version.clone(),
            metadata,
            num_pages,
            read_set,
        };
        let pages = page_keys(&self.page_buffer);
        let mut requests = carried;
        let mut i: usize = 0;
        proof {
            assert(self@.pages.dom() =~= self.page_buffer@.dom());
            assert(pages@.take(0).to_set() =~= Set::<u32>::empty());
            assert(request_pages(requests@).to_set() =~= fast_writes@.dom().union(
                pages@.take(0).to_set(),
            ));
        }
        while i < pages.len()
            invariant
                i <= pages.len(),
                pages@.no_duplicates(),
                pages@.to_set() == self.page_buffer@.dom(),
                carried@.len() <= requests@.len(),
                forall|j: int| 0 <= j < carried@.len() ==> #[trigger] requests@[j] == carried@[j],
                request_pages(requests@).no_duplicates(),
                request_pages(requests@).to_set() == fast_writes@.dom().union(
                    pages@.take(i as int).to_set(),
                ),
                forall|j: int|
                    carried@.len() <= j < requests@.len() ==> {
                        &&& commits_stored(#[trigger] requests@[j], self@.pages)
                        &&& !fast_writes@.contains_key(requests@[j].page_index)
                        &&& requests@[j].hash@.len() == 32
                    },
            decreases pages.len() - i,
        {
            let page: u32 = pages[i];
            proof {
                assert(pages@.contains(page));
                assert(self.page_buffer@.dom().contains(page));
                lemma_take_push(pages@, i as int);
            }
            if fast_writes.contains_key(&page) {
                assert(request_pages(requests@).to_set() =~= fast_writes@.dom().union(
                    pages@.take(i as int + 1).to_set(),
                ));
            } else {
                match self.page_buffer.get(&page) {
                    Some(hash) => {
                        let req = CommitRequest {
                            page_index: page,
                            hash: vstd::slice::slice_to_vec(hash.as_slice()),
                            data: None,
                        };
                        proof {
                            lemma_request_pages_push(requests@, req);
                            assert(!request_pages(requests@).contains(page)) by {
                                if request_pages(requests@).contains(page) {
                                    assert(request_pages(requests@).to_set().contains(page));
                                    assert(pages@.take(i as int).to_set().contains(page));
                                }
                            }
                        }
                        requests.push(req);
                        assert(request_pages(requests@).to_set() =~= fast_writes@.dom().union(
                            pages@.take(i as int + 1).to_set(),
                        ));
                    },
                    None => {
                        assert(false);
                    },
                }
            }
            i = i + 1;
        }
        proof {
            assert(pages@.take(pages@.len() as int) =~= pages@);
            assert(buffered_pages(self.page_buffer@).dom() =~= self.page_buffer@.dom());
            if crate::commit::hashes_are_whole(carried@) {
                assert forall|j: int| 0 <= j < requests@.len() implies (
                #[trigger] requests@[j]).hash@.len() == 32 by {
                    if j < carried@.len() {
                        assert(requests@[j] == carried@[j]);
                    }
                }
            }
        }
        NamespaceCommitIntent { ns_id: self.ns_id, init, requests }
    }
}

/// The low 32 bits of a sum.
fn add_page_counts(a: u64, b: u64) -> (r: u32)
    ensures
        r as int == (a + b) % 0x1_0000_0000,
{
    let sum: u64 = a.wrapping_add(b);
    assert(sum as int % 0x1_0000_0000 == (a + b) % 0x1_0000_0000);
    (sum % 0x1_0000_0000) as u32
}

/// Where a commit goes from here.
pub enum CommitStart {
    /// There is nothing to commit.
    Empty,
    /// The intent is to be applied.
    Apply(NamespaceCommitIntent),
}

impl Transaction {
    /// Ends the transaction: hands out what is to be applied.
    pub fn commit(self, metadata: Option<&str>, fast_writes: &HashMap<u32, Bytes>) -> (r:
        CommitStart)
        ensures
            match r {
                CommitStart::Empty => nothing_to_commit(
                    self@,
                    crate::client::opt_str(metadata),
                    fast_writes@,
                ),
                CommitStart::Apply(intent) => {
                    &&& !nothing_to_commit(self@, crate::client::opt_str(metadata), fast_writes@)
                    &&& intent_commits(
                        intent,
                        self@,
                        crate::client::opt_str(metadata),
                        fast_writes@,
                    )
                },
            },
    {
        let owned = match metadata {
            Some(metadata) => Some(metadata.to_owned()),
            None => None,
        };
        assert(crate::client::opt_text(owned) == crate::client::opt_str(metadata));
        match self.commit_intent(owned, fast_writes) {
            Some(intent) => CommitStart::Apply(intent),
            None => CommitStart::Empty,
        }
    }
}

/// The outcome of a commit whose intent was applied.
pub fn commit_output(applied: Option<CommitResult>) -> (r: CommitOutput)
    ensures
        r == match applied {
            Some(result) => CommitOutput::Committed(result),
            None => CommitOutput::Conflict,
        },
{
    match applied {
        Some(result) => CommitOutput::Committed(result),
        None => CommitOutput::Conflict,
    }
}

/// A transaction reads its own writes: after a batch of writes it asks for a page by the hash
/// of the last write to it, and asks for every other page as before.
pub proof fn transaction_reads_its_own_writes(
    txn: TransactionView,
    raw_pages: Seq<(u32, &[u8])>,
    hashes: Seq<Seq<u8>>,
    n: int,
)
    requires
        0 <= n <= raw_pages.len(),
        hashes.len() == raw_pages.len(),
    ensures
        ({
            let after = TransactionView {
                pages: with_writes(txn.pages, raw_pages, hashes, n),
                ..txn
            };
            &&& forall|i: int|
                0 <= i < n && (forall|j: int|
                    i < j < n ==> (#[trigger] raw_pages[j]).0 != raw_pages[i].0) ==> own_hash(
                    after,
                    (#[trigger] raw_pages[i]).0,
                ) == Some(hashes[i])
            &&& forall|page: u32|
                (forall|j: int| 0 <= j < n ==> (#[trigger] raw_pages[j]).0 != page)
                    ==> #[trigger] own_hash(after, page) == own_hash(txn, page)
        }),
    decreases n,
{
    let after = TransactionView { pages: with_writes(txn.pages, raw_pages, hashes, n), ..txn };
    if n > 0 {
        transaction_reads_its_own_writes(txn, raw_pages, hashes, n - 1);
        let before = TransactionView {
            pages: with_writes(txn.pages, raw_pages, hashes, n - 1),
            ..txn
        };
        let last = raw_pages[n - 1].0;
        assert forall|page: u32| page != last implies #[trigger] own_hash(after, page) == own_hash(
            before,
            page,
        ) by {}
        assert forall|i: int|
            0 <= i < n && (forall|j: int|
                i < j < n ==> (#[trigger] raw_pages[j]).0 != raw_pages[i].0) implies own_hash(
            after,
            (#[trigger] raw_pages[i]).0,
        ) == Some(hashes[i]) by {
            if i < n - 1 {
                assert(raw_pages[n - 1].0 != raw_pages[i].0);
                assert(own_hash(before, raw_pages[i].0) == Some(hashes[i]));
            }
        }
        assert forall|page: u32|
            (forall|j: int|
                0 <= j < n ==> (#[trigger] raw_pages[j]).0 != page) implies #[trigger] own_hash(
            after,
            page,
        ) == own_hash(txn, page) by {
            assert(raw_pages[n - 1].0 != page);
            assert(own_hash(before, page) == own_hash(txn, page));
        }
    }
}

/// After a batch of writes the transaction has seen the content of each of them, and it has
/// forgotten no content that it had seen before.
pub proof fn written_contents_are_seen(seen: Set<Seq<u8>>, hashes: Seq<Seq<u8>>, n: int)
    requires
        0 <= n <= hashes.len(),
    ensures
        forall|i: int|
            0 <= i < n ==> with_hashes(seen, hashes, n).contains(#[trigger] hashes[i]),
        forall|h: Seq<u8>|
            seen.contains(h) ==> #[trigger] with_hashes(seen, hashes, n).contains(h),
    decreases n,
{
    if n > 0 {
        written_contents_are_seen(seen, hashes, n - 1);
        assert forall|h: Seq<u8>| seen.contains(h) implies #[trigger] with_hashes(
            seen,
            hashes,
            n,
        ).contains(h) by {
            assert(with_hashes(seen, hashes, n - 1).contains(h));
        }
    }
}

/// A write is stored unless the transaction has seen its content before.
pub proof fn every_unseen_write_is_stored<'a>(
    seen: Set<Seq<u8>>,
    raw_pages: Seq<(u32, &'a [u8])>,
    hashes: Seq<Seq<u8>>,
    n: int,
)
    requires
        0 <= n <= raw_pages.len(),
        hashes.len() == raw_pages.len(),
    ensures
        forall|i: int|
            #![trigger raw_pages[i]]
            0 <= i < n && !seen.contains(hashes[i]) ==> unseen_writes(
                seen,
                raw_pages,
                hashes,
                n,
            ).contains(WriteRequest { data: raw_pages[i].1, delta_base: Some(raw_pages[i].0) }),
        (forall|i: int| 0 <= i < n ==> seen.contains(#[trigger] hashes[i])) ==> unseen_writes(
            seen,
            raw_pages,
            hashes,
            n,
        ).len() == 0,
    decreases n,
{
    if n > 0 {
        every_unseen_write_is_stored(seen, raw_pages, hashes, n - 1);
        let before = unseen_writes(seen, raw_pages, hashes, n - 1);
        let after = unseen_writes(seen, raw_pages, hashes, n);
        assert forall|i: int|
            #![trigger raw_pages[i]]
            0 <= i < n && !seen.contains(hashes[i]) implies after.contains(
            WriteRequest { data: raw_pages[i].1, delta_base: Some(raw_pages[i].0) },
        ) by {
            let req = WriteRequest { data: raw_pages[i].1, delta_base: Some(raw_pages[i].0) };
            if i < n - 1 {
                assert(before.contains(req));
                let k: int = choose|k: int| 0 <= k < before.len() && before[k] == req;
                assert(after[k] == req);
            } else {
                assert(after[before.len() as int] == req);
            }
        }
        if forall|i: int| 0 <= i < n ==> seen.contains(#[trigger] hashes[i]) {
            assert(seen.contains(hashes[n - 1]));
        }
    }
}

/// Writing the same contents again stores nothing.
pub proof fn rewriting_stores_nothing<'a>(
    seen: Set<Seq<u8>>,
    raw_pages: Seq<(u32, &'a [u8])>,
    hashes: Seq<Seq<u8>>,
)
    requires
        hashes.len() == raw_pages.len(),
    ensures
        unseen_writes(
            with_hashes(seen, hashes, raw_pages.len() as int),
            raw_pages,
            hashes,
            raw_pages.len() as int,
        ).len() == 0,
{
    let n: int = raw_pages.len() as int;
    written_contents_are_seen(seen, hashes, n);
    every_unseen_write_is_stored(with_hashes(seen, hashes, n), raw_pages, hashes, n);
}

/// Every page that is to be committed has exactly one request. It carries the content if the
/// page is among the fast writes, and otherwise names the hash under which the transaction
/// itself reads the page.
pub proof fn each_page_is_committed_once(
    intent: NamespaceCommitIntent,
    txn: TransactionView,
    metadata: Option<Seq<char>>,
    fast_writes: Map<u32, Bytes>,
    page: u32,
)
    requires
        intent_commits(intent, txn, metadata, fast_writes),
        txn.pages.contains_key(page) || fast_writes.contains_key(page),
    ensures
        exists|i: int|
            {
                &&& 0 <= i < intent.requests@.len()
                &&& (#[trigger] intent.requests@[i]).page_index == page
                &&& forall|j: int|
                    0 <= j < intent.requests@.len() && (#[trigger] intent.requests@[j]).page_index
                        == page ==> j == i
                &&& if fast_writes.contains_key(page) {
                    commits_content(intent.requests@[i], fast_writes)
                } else {
                    &&& intent.requests@[i].data is None
                    &&& Some(intent.requests@[i].hash@) == own_hash(txn, page)
                }
            },
{
    let requests = intent.requests@;
    let pages = request_pages(requests);
    assert(pages.to_set().contains(page));
    let i: int = choose|i: int| 0 <= i < pages.len() && pages[i] == page;
    assert(requests[i].page_index == page);
    assert forall|j: int| 0 <= j < requests.len() && (#[trigger] requests[j]).page_index
        == page implies j == i by {
        assert(pages[j] == pages[i]);
    }
    if i < fast_writes.len() {
        assert(commits_content(requests[i], fast_writes));
    } else {
        assert(commits_stored(requests[i], txn.pages));
    }
}

/// Every content that a commit carries has the hash that the commit names for it.
pub proof fn committed_contents_have_their_hashes(
    intent: NamespaceCommitIntent,
    txn: TransactionView,
    metadata: Option<Seq<char>>,
    fast_writes: Map<u32, Bytes>,
)
    requires
        intent_commits(intent, txn, metadata, fast_writes),
    ensures
        crate::commit::hashes_fit_contents(intent.requests@),
{
    let requests = intent.requests@;
    assert forall|i: int| 0 <= i < requests.len() implies (
    (#[trigger] requests[i]).data matches Some(data) ==> requests[i].hash@
        == crate::outside::blake3_hash(crate::outside::buffer_bytes(data))) by {
        if i < fast_writes.len() {
            assert(commits_content(requests[i], fast_writes));
        } else {
            assert(commits_stored(requests[i], txn.pages));
        }
    }
}

/// What a transaction commits can be handed to the store, unless the version that it was opened
/// at is malformed: never is it refused for the length of a hash.
pub proof fn own_commit_is_refused_only_for_its_version(
    intent: NamespaceCommitIntent,
    txn: TransactionView,
    metadata: Option<Seq<char>>,
    fast_writes: Map<u32, Bytes>,
)
    requires
        intent_commits(intent, txn, metadata, fast_writes),
    ensures
        crate::commit::plan_error(seq![intent]) == if crate::version::is_version_text(
            txn.version,
        ) {
            None
        } else {
            Some(crate::commit::IntentError::InvalidVersion)
        },
{
    reveal_with_fuel(crate::commit::first_intent_error, 2);
}

/// What a transaction commits carries a read set exactly if the transaction keeps track of
/// the pages that it reads, and then the set holds the pages noted.
pub proof fn read_set_goes_into_the_commit(
    intent: NamespaceCommitIntent,
    txn: TransactionView,
    metadata: Option<Seq<char>>,
    fast_writes: Map<u32, Bytes>,
)
    requires
        intent_header(intent, txn, metadata, fast_writes),
    ensures
        intent.init.read_set is Some <==> txn.read_set is Some,
        txn.read_set matches Some(noted) ==> intent.init.read_set->0@ == noted,
{
}

/// What a transaction has written, it reads back: as long as the store finds under a hash
/// only contents with that hash, the page that is read after a batch of writes has the hash
/// of the last write to it.
pub proof fn written_page_is_read_back(
    txn: TransactionView,
    raw_pages: Seq<(u32, &[u8])>,
    last: int,
    ns_id: [u8; 10],
    hash: [u8; 32],
    label: String,
    store: crate::read::StoredPages,
    reads: Seq<crate::read::PageRead>,
    actions: Seq<crate::read::ReadAction>,
    events: Seq<crate::read::ReadEvent>,
)
    requires
        0 <= last < raw_pages.len(),
        forall|j: int|
            last < j < raw_pages.len() ==> (#[trigger] raw_pages[j]).0 != raw_pages[last].0,
        own_hash(
            TransactionView {
                pages: with_writes(
                    txn.pages,
                    raw_pages,
                    write_hashes(raw_pages),
                    raw_pages.len() as int,
                ),
                ..txn
            },
            raw_pages[last].0,
        ) == Some(hash@),
        crate::read::read_run(store, reads, actions, events),
        reads[0].wait == (crate::read::ReadWait::OwnContent { version: label }),
        actions[0] == (crate::read::ReadAction::FetchContent { ns_id, hash }),
        events.len() == 1,
        (store.content)(ns_id@, hash) matches Some(content) && crate::outside::blake3_hash(
            crate::outside::buffer_bytes(content),
        ) == hash@,
    ensures
        actions[1] is Done,
        crate::outside::blake3_hash(page_content(actions[1]->Done_0))
            == crate::outside::blake3_hash(raw_pages[last].1@),
{
    transaction_reads_its_own_writes(
        txn,
        raw_pages,
        write_hashes(raw_pages),
        raw_pages.len() as int,
    );
    crate::read::read_by_hash_ignores_versions(
        store,
        reads,
        actions,
        events,
        label,
        ns_id,
        hash,
    );
    assert(raw_pages[last] == raw_pages[last]);
}

/// What a transaction tells of itself is what it stands for: its version, its namespace, whether
/// it can only be read, which pages it has written, and whether and how many pages it has noted.
pub proof fn transaction_tells_what_it_is(
    txn: &Transaction,
    version: &str,
    ns_id: [u8; 10],
    read_only: bool,
    page: u32,
    is_written: bool,
    written: Vec<u32>,
    tracks: bool,
    size: usize,
)
    requires
        call_ensures(Transaction::version, (txn,), version),
        call_ensures(Transaction::ns_id, (txn,), ns_id),
        call_ensures(Transaction::is_read_only, (txn,), read_only),
        call_ensures(Transaction::page_is_written, (txn, page), is_written),
        call_ensures(Transaction::written_pages, (txn,), written),
        call_ensures(Transaction::is_read_set_enabled, (txn,), tracks),
        call_ensures(Transaction::read_set_size, (txn,), size),
    ensures
        version@ == txn@.version,
        ns_id@ == txn@.ns_id,
        read_only == txn@.read_only,
        is_written <==> txn@.pages.contains_key(page),
        is_written <==> written@.contains(page),
        forall|i: int, j: int|
            0 <= i < j < written@.len() ==> #[trigger] written@[i] != #[trigger] written@[j],
        tracks <==> txn@.read_set is Some,
        txn@.read_set matches Some(noted) ==> size == noted.len(),
        !tracks ==> size == 0,
{
    assert(written@.to_set().contains(page) <==> txn@.pages.dom().contains(page));
}

/// A transaction that starts to keep track of its reads has noted none yet; one that does
/// already keeps what it has noted. One that stops forgets all. Nothing else about it changes.
pub proof fn read_set_is_switched_on_and_off(on: &mut Transaction, off: &mut Transaction)
    requires
        call_ensures(Transaction::enable_read_set, (on,), ()),
        call_ensures(Transaction::disable_read_set, (off,), ()),
    ensures
        final(on)@.read_set is Some,
        forall|page: u32| #[trigger]
            final(on)@.read_set->0.contains(page) <==> old(on)@.read_set is Some
                && old(on)@.read_set->0.contains(page),
        final(off)@.read_set is None,
        final(on)@.ns_key == old(on)@.ns_key,
        final(on)@.ns_key_hashproof == old(on)@.ns_key_hashproof,
        final(on)@.ns_id == old(on)@.ns_id,
        final(on)@.version == old(on)@.version,
        final(on)@.pages == old(on)@.pages,
        final(on)@.seen == old(on)@.seen,
        final(on)@.read_only == old(on)@.read_only,
        final(off)@.ns_key == old(off)@.ns_key,
        final(off)@.ns_key_hashproof == old(off)@.ns_key_hashproof,
        final(off)@.ns_id == old(off)@.ns_id,
        final(off)@.version == old(off)@.version,
        final(off)@.pages == old(off)@.pages,
        final(off)@.seen == old(off)@.seen,
        final(off)@.read_only == old(off)@.read_only,
{
}

/// A page that is marked as read is noted, and no other is that was not before, exactly if the
/// transaction keeps track of its reads. Nothing else about it changes.
pub proof fn marked_page_is_noted(txn: &mut Transaction, page: u32)
    requires
        call_ensures(Transaction::mark_read, (txn, page), ()),
    ensures
        final(txn)@.read_set is Some <==> old(txn)@.read_set is Some,
        old(txn)@.read_set is Some ==> forall|p: u32| #[trigger]
            final(txn)@.read_set->0.contains(p) <==> p == page || old(txn)@.read_set->0.contains(p),
        final(txn)@.ns_key == old(txn)@.ns_key,
        final(txn)@.ns_key_hashproof == old(txn)@.ns_key_hashproof,
        final(txn)@.ns_id == old(txn)@.ns_id,
        final(txn)@.version == old(txn)@.version,
        final(txn)@.pages == old(txn)@.pages,
        final(txn)@.seen == old(txn)@.seen,
        final(txn)@.read_only == old(txn)@.read_only,
{
}

/// A transaction asks for the pages in order, at its own version, and by hash exactly for those
/// that it has written.
pub proof fn pages_are_asked_for_at_the_version_of_the_transaction(
    txn: &Transaction,
    page_id_list: &[u32],
    r: Vec<ReadPageRequest>,
)
    requires
        call_ensures(Transaction::read_requests, (txn, page_id_list), r),
    ensures
        r@.len() == page_id_list@.len(),
        forall|i: int|
            0 <= i < r@.len() ==> {
                let (req, page) = (#[trigger] r@[i], page_id_list@[i]);
                &&& req.page_index == page
                &&& req.version@ == txn@.version
                &&& req.hash is Some <==> txn@.pages.contains_key(page)
                &&& req.hash matches Some(hash) ==> hash@ == txn@.pages[page]
            },
{
}

/// What a transaction reads is what the store has found, and nothing for a page that is not
/// there. It has then seen the contents read, and has forgotten none; nothing else about it
/// changes, and nothing is noted as read.
pub proof fn contents_read_are_handed_on_and_seen(
    txn: &mut Transaction,
    results: Vec<Option<Page>>,
    r: Vec<Vec<u8>>,
)
    requires
        call_ensures(Transaction::read_many_nomark, (txn, results), r),
    ensures
        r@.len() == results@.len(),
        forall|i: int|
            0 <= i < r@.len() ==> match results@[i] {
                Some(page) => (#[trigger] r@[i])@ == crate::outside::buffer_bytes(page.data),
                None => r@[i]@.len() == 0,
            },
        forall|h: Seq<u8>| #[trigger]
            final(txn)@.seen.contains(h) <==> {
                ||| old(txn)@.seen.contains(h)
                ||| exists|i: int|
                    0 <= i < r@.len() && crate::outside::blake3_hash((#[trigger] r@[i])@) == h
            },
        final(txn)@.ns_key == old(txn)@.ns_key,
        final(txn)@.ns_key_hashproof == old(txn)@.ns_key_hashproof,
        final(txn)@.ns_id == old(txn)@.ns_id,
        final(txn)@.version == old(txn)@.version,
        final(txn)@.pages == old(txn)@.pages,
        final(txn)@.read_only == old(txn)@.read_only,
        final(txn)@.read_set == old(txn)@.read_set,
{
    let n: int = r@.len() as int;
    let hashes = content_hashes(r@);
    assert(hashes.len() == n);
    lemma_hashes_are_seen(old(txn)@.seen, hashes, n);
    assert forall|h: Seq<u8>| #[trigger] final(txn)@.seen.contains(h) <==> {
        ||| old(txn)@.seen.contains(h)
        ||| exists|i: int|
            0 <= i < r@.len() && crate::outside::blake3_hash((#[trigger] r@[i])@) == h
    } by {
        if exists|i: int| 0 <= i < n && #[trigger] hashes[i] == h {
            let i: int = choose|i: int| 0 <= i < n && #[trigger] hashes[i] == h;
            assert(crate::outside::blake3_hash(r@[i]@) == h);
        }
        if exists|i: int|
            0 <= i < r@.len() && crate::outside::blake3_hash((#[trigger] r@[i])@) == h {
            let i: int = choose|i: int|
                0 <= i < r@.len() && crate::outside::blake3_hash((#[trigger] r@[i])@) == h;
            assert(hashes[i] == h);
        }
    }
}

proof fn lemma_hashes_are_seen(seen: Set<Seq<u8>>, hashes: Seq<Seq<u8>>, n: int)
    requires
        0 <= n <= hashes.len(),
    ensures
        forall|h: Seq<u8>| #[trigger]
            with_hashes(seen, hashes, n).contains(h) <==> {
                ||| seen.contains(h)
                ||| exists|i: int| 0 <= i < n && #[trigger] hashes[i] == h
            },
    decreases n,
{
    if n > 0 {
        lemma_hashes_are_seen(seen, hashes, n - 1);
        let before = with_hashes(seen, hashes, n - 1);
        assert forall|h: Seq<u8>| #[trigger] with_hashes(seen, hashes, n).contains(h) <==> {
            ||| seen.contains(h)
            ||| exists|i: int| 0 <= i < n && #[trigger] hashes[i] == h
        } by {
            assert(with_hashes(seen, hashes, n).contains(h) <==> before.contains(h) || h
                == hashes[n - 1]);
            if exists|i: int| 0 <= i < n - 1 && #[trigger] hashes[i] == h {
                let i: int = choose|i: int| 0 <= i < n - 1 && #[trigger] hashes[i] == h;
                assert(0 <= i < n && hashes[i] == h);
            }
        }
    }
}

/// Contents whose hashes are noted count as seen, and no other that did not before.
pub proof fn noted_contents_are_seen(txn: &mut Transaction, hashes: &Vec<[u8; 32]>)
    requires
        call_ensures(Transaction::note_contents, (txn, hashes), ()),
    ensures
        forall|h: Seq<u8>| #[trigger]
            final(txn)@.seen.contains(h) <==> {
                ||| old(txn)@.seen.contains(h)
                ||| exists|i: int| 0 <= i < hashes@.len() && (#[trigger] hashes@[i])@ == h
            },
        final(txn)@ == (TransactionView { seen: final(txn)@.seen, ..old(txn)@ }),
{
    let n: int = hashes@.len() as int;
    let views = hash_bytes(hashes@);
    lemma_hashes_are_seen(old(txn)@.seen, views, n);
    assert forall|h: Seq<u8>| #[trigger] final(txn)@.seen.contains(h) <==> {
        ||| old(txn)@.seen.contains(h)
        ||| exists|i: int| 0 <= i < hashes@.len() && (#[trigger] hashes@[i])@ == h
    } by {
        if exists|i: int| 0 <= i < n && #[trigger] views[i] == h {
            let i: int = choose|i: int| 0 <= i < n && #[trigger] views[i] == h;
            assert(hashes@[i]@ == h);
        }
        if exists|i: int| 0 <= i < n && (#[trigger] hashes@[i])@ == h {
            let i: int = choose|i: int| 0 <= i < n && (#[trigger] hashes@[i])@ == h;
            assert(views[i] == h);
        }
    }
}

/// After some writes a page has the hash of its last write, and a page that was not written has
/// what it had. The transaction has seen what it has written, and has forgotten nothing. What is
/// left to store are, in order, the writes whose contents it had not seen, each against its own
/// page. Nothing else about the transaction changes.
pub proof fn writes_take_effect_and_unseen_ones_are_stored<'a>(
    txn: &mut Transaction,
    raw_pages: &[(u32, &'a [u8])],
    r: Vec<WriteRequest<'a>>,
)
    requires
        call_ensures(Transaction::write_many, (txn, raw_pages), r),
    ensures
        ({
            let (before, after) = (old(txn)@, final(txn)@);
            let hash = |i: int| crate::outside::blake3_hash(raw_pages@[i].1@);
            &&& forall|i: int|
                0 <= i < raw_pages@.len() && (forall|j: int|
                    i < j < raw_pages@.len() ==> (#[trigger] raw_pages@[j]).0 != raw_pages@[i].0)
                    ==> {
                    &&& after.pages.contains_key((#[trigger] raw_pages@[i]).0)
                    &&& after.pages[raw_pages@[i].0] == hash(i)
                }
            &&& forall|page: u32|
                (forall|j: int| 0 <= j < raw_pages@.len() ==> (#[trigger] raw_pages@[j]).0 != page)
                    ==> {
                    &&& #[trigger] after.pages.contains_key(page) <==> before.pages.contains_key(
                        page,
                    )
                    &&& before.pages.contains_key(page) ==> after.pages[page] == before.pages[page]
                }
            &&& forall|h: Seq<u8>| #[trigger]
                after.seen.contains(h) <==> {
                    ||| before.seen.contains(h)
                    ||| exists|i: int| 0 <= i < raw_pages@.len() && #[trigger] hash(i) == h
                }
            &&& r@ == Seq::new(raw_pages@.len(), |i: int| i).filter_map(
                |i: int|
                    if before.seen.contains(hash(i)) {
                        None
                    } else {
                        Some(
                            WriteRequest {
                                data: raw_pages@[i].1,
                                delta_base: Some(raw_pages@[i].0),
                            },
                        )
                    },
            )
            &&& after == (TransactionView { pages: after.pages, seen: after.seen, ..before })
        }),
{
    let n: int = raw_pages@.len() as int;
    let (before, after) = (old(txn)@, final(txn)@);
    let hash = |i: int| crate::outside::blake3_hash(raw_pages@[i].1@);
    let hashes = write_hashes(raw_pages@);
    assert(hashes.len() == n);
    assert forall|i: int| 0 <= i < n implies #[trigger] hash(i) == hashes[i] by {}
    lemma_hashes_are_seen(before.seen, hashes, n);
    assert forall|h: Seq<u8>| #[trigger] after.seen.contains(h) <==> {
        ||| before.seen.contains(h)
        ||| exists|i: int| 0 <= i < n && #[trigger] hash(i) == h
    } by {
        if exists|i: int| 0 <= i < n && #[trigger] hashes[i] == h {
            let i: int = choose|i: int| 0 <= i < n && #[trigger] hashes[i] == h;
            assert(hash(i) == h);
        }
        if exists|i: int| 0 <= i < n && #[trigger] hash(i) == h {
            let i: int = choose|i: int| 0 <= i < n && #[trigger] hash(i) == h;
            assert(hashes[i] == h);
        }
    }
    transaction_reads_its_own_writes(before, raw_pages@, hashes, n);
    let written = TransactionView {
        pages: with_writes(before.pages, raw_pages@, hashes, n),
        ..before
    };
    assert forall|i: int|
        0 <= i < n && (forall|j: int|
            i < j < n ==> (#[trigger] raw_pages@[j]).0 != raw_pages@[i].0) implies {
        &&& after.pages.contains_key((#[trigger] raw_pages@[i]).0)
        &&& after.pages[raw_pages@[i].0] == hash(i)
    } by {
        assert(own_hash(written, raw_pages@[i].0) == Some(hashes[i]));
    }
    assert forall|page: u32|
        (forall|j: int| 0 <= j < n ==> (#[trigger] raw_pages@[j]).0 != page) implies {
        &&& #[trigger] after.pages.contains_key(page) <==> before.pages.contains_key(page)
        &&& before.pages.contains_key(page) ==> after.pages[page] == before.pages[page]
    } by {
        assert(own_hash(written, page) == own_hash(before, page));
    }
    lemma_unseen_in_order(before.seen, raw_pages@, hashes, n);
    let f = |i: int|
        if before.seen.contains(hash(i)) {
            None
        } else {
            Some(WriteRequest { data: raw_pages@[i].1, delta_base: Some(raw_pages@[i].0) })
        };
    let g = |i: int|
        if before.seen.contains(hashes[i]) {
            None
        } else {
            Some(WriteRequest { data: raw_pages@[i].1, delta_base: Some(raw_pages@[i].0) })
        };
    lemma_same_filter_map(Seq::new(raw_pages@.len(), |i: int| i), f, g);
}

proof fn lemma_same_filter_map<B>(
    s: Seq<int>,
    f: spec_fn(int) -> Option<B>,
    g: spec_fn(int) -> Option<B>,
)
    requires
        forall|k: int| 0 <= k < s.len() ==> f(#[trigger] s[k]) == g(s[k]),
    ensures
        s.filter_map(f) == s.filter_map(g),
    decreases s.len(),
{
    if s.len() > 0 {
        assert forall|k: int| 0 <= k < s.drop_last().len() implies f(
            #[trigger] s.drop_last()[k],
        ) == g(s.drop_last()[k]) by {
            assert(s.drop_last()[k] == s[k]);
        }
        lemma_same_filter_map(s.drop_last(), f, g);
        assert(f(s[s.len() - 1]) == g(s[s.len() - 1]));
    }
}

proof fn lemma_unseen_in_order<'a>(
    seen: Set<Seq<u8>>,
    raw_pages: Seq<(u32, &'a [u8])>,
    hashes: Seq<Seq<u8>>,
    n: int,
)
    requires
        0 <= n <= raw_pages.len(),
        hashes.len() == raw_pages.len(),
    ensures
        unseen_writes(seen, raw_pages, hashes, n) == Seq::new(n as nat, |i: int| i).filter_map(
            |i: int|
                if seen.contains(hashes[i]) {
                    None
                } else {
                    Some(WriteRequest { data: raw_pages[i].1, delta_base: Some(raw_pages[i].0) })
                },
        ),
    decreases n,
{
    let f = |i: int|
        if seen.contains(hashes[i]) {
            None
        } else {
            Some(WriteRequest { data: raw_pages[i].1, delta_base: Some(raw_pages[i].0) })
        };
    let places = Seq::new(n as nat, |i: int| i);
    if n > 0 {
        lemma_unseen_in_order(seen, raw_pages, hashes, n - 1);
        assert(places.drop_last() =~= Seq::new((n - 1) as nat, |i: int| i));
        assert(places.last() == n - 1);
        assert(unseen_writes(seen, raw_pages, hashes, n) =~= places.filter_map(f));
    } else {
        assert(unseen_writes(seen, raw_pages, hashes, n) =~= places.filter_map(f));
    }
}

/// Writes whose hashes are given count as those that are hashed anew, if the hashes are right.
pub proof fn hashes_may_be_given<'a>(
    given: &mut Transaction,
    anew: &mut Transaction,
    raw_pages: &[(u32, &'a [u8])],
    hashes: &Vec<[u8; 32]>,
    r: (Vec<WriteRequest<'a>>, Vec<WriteRequest<'a>>),
)
    requires
        old(given)@ == old(anew)@,
        hashes@.len() == raw_pages@.len(),
        forall|i: int|
            0 <= i < hashes@.len() ==> (#[trigger] hashes@[i])@ == crate::outside::blake3_hash(
                raw_pages@[i].1@,
            ),
        call_ensures(Transaction::write_hashed, (given, raw_pages, hashes), r.0),
        call_ensures(Transaction::write_many, (anew, raw_pages), r.1),
    ensures
        r.0@ == r.1@,
        final(given)@ == final(anew)@,
{
    assert(hash_bytes(hashes@) =~= write_hashes(raw_pages@));
}

/// What a transaction wants to commit: nothing, exactly if it has written no page and neither
/// metadata nor contents come along. Otherwise it is committed for its own namespace, at its own
/// version, and by a read set exactly if it keeps one, with the pages noted. Each page that it
/// has written, or whose content comes along, has exactly one request and no other page has any:
/// one whose content comes along carries that content under its hash, and any other the hash
/// that the transaction has for it.
pub proof fn commit_holds_all_that_was_written(
    txn: &Transaction,
    metadata: Option<String>,
    fast_writes: &HashMap<u32, Bytes>,
    r: Option<NamespaceCommitIntent>,
)
    requires
        call_ensures(Transaction::commit_intent, (txn, metadata, fast_writes), r),
    ensures
        r is None <==> {
            &&& metadata is None
            &&& forall|page: u32| !#[trigger] txn@.pages.contains_key(page)
            &&& forall|page: u32| !#[trigger] fast_writes@.contains_key(page)
        },
        r matches Some(intent) ==> {
            &&& intent.ns_id@ == txn@.ns_id
            &&& intent.init.ns_key@ == txn@.ns_key
            &&& intent.init.version@ == txn@.version
            &&& match (intent.init.ns_key_hashproof, txn@.ns_key_hashproof) {
                (Some(a), Some(b)) => a@ == b,
                (None, None) => true,
                _ => false,
            }
            &&& match (intent.init.metadata, metadata) {
                (Some(a), Some(b)) => a@ == b@,
                (None, None) => true,
                _ => false,
            }
            &&& match (intent.init.read_set, txn@.read_set) {
                (Some(a), Some(b)) => a@ == b,
                (None, None) => true,
                _ => false,
            }
            &&& intent.init.num_pages as int == (txn@.pages.len() + fast_writes@.len())
                % 0x1_0000_0000
            &&& forall|i: int, j: int|
                0 <= i < j < intent.requests@.len() ==> (
                #[trigger] intent.requests@[i]).page_index != (
                #[trigger] intent.requests@[j]).page_index
            &&& forall|page: u32| #[trigger]
                txn@.pages.contains_key(page) ==> exists|i: int|
                    0 <= i < intent.requests@.len() && (
                    #[trigger] intent.requests@[i]).page_index == page
            &&& forall|page: u32| #[trigger]
                fast_writes@.contains_key(page) ==> exists|i: int|
                    0 <= i < intent.requests@.len() && (
                    #[trigger] intent.requests@[i]).page_index == page
            &&& forall|i: int|
                0 <= i < intent.requests@.len() ==> {
                    let req = #[trigger] intent.requests@[i];
                    &&& req.data is Some <==> fast_writes@.contains_key(req.page_index)
                    &&& req.data is Some <==> i < fast_writes@.len()
                    &&& req.hash@.len() == 32
                    &&& req.data matches Some(data) ==> {
                        let content = crate::outside::buffer_bytes(data);
                        &&& content == crate::outside::buffer_bytes(fast_writes@[req.page_index])
                        &&& req.hash@ == crate::outside::blake3_hash(content)
                    }
                    &&& req.data is None ==> {
                        &&& txn@.pages.contains_key(req.page_index)
                        &&& req.hash@ == txn@.pages[req.page_index]
                    }
                }
        },
{
    if r is None || nothing_to_commit(txn@, crate::client::opt_text(metadata), fast_writes@) {
        assert forall|page: u32| !#[trigger] txn@.pages.contains_key(page) by {
            assert(!txn@.pages.dom().contains(page));
        }
        assert forall|page: u32| !#[trigger] fast_writes@.contains_key(page) by {
            assert(!fast_writes@.dom().contains(page));
        }
    }
    if forall|page: u32| !#[trigger] txn@.pages.contains_key(page) {
        assert(txn@.pages.dom() =~= Set::<u32>::empty());
    }
    if forall|page: u32| !#[trigger] fast_writes@.contains_key(page) {
        assert(fast_writes@.dom() =~= Set::<u32>::empty());
    }
    if r is Some {
        lemma_committed_pages(r->0, txn@, crate::client::opt_text(metadata), fast_writes@);
    }
}

proof fn lemma_committed_pages(
    intent: NamespaceCommitIntent,
    txn: TransactionView,
    metadata: Option<Seq<char>>,
    fast_writes: Map<u32, Bytes>,
)
    requires
        intent_commits(intent, txn, metadata, fast_writes),
    ensures
        forall|i: int, j: int|
            0 <= i < j < intent.requests@.len() ==> (#[trigger] intent.requests@[i]).page_index != (
            #[trigger] intent.requests@[j]).page_index,
        forall|page: u32| #[trigger]
            txn.pages.contains_key(page) ==> exists|i: int|
                0 <= i < intent.requests@.len() && (#[trigger] intent.requests@[i]).page_index
                    == page,
        forall|page: u32| #[trigger]
            fast_writes.contains_key(page) ==> exists|i: int|
                0 <= i < intent.requests@.len() && (#[trigger] intent.requests@[i]).page_index
                    == page,
        forall|i: int|
            0 <= i < intent.requests@.len() ==> {
                let req = #[trigger] intent.requests@[i];
                &&& req.data is Some <==> fast_writes.contains_key(req.page_index)
                &&& req.data is Some <==> i < fast_writes.len()
                &&& req.hash@.len() == 32
                &&& req.data matches Some(data) ==> {
                    let content = crate::outside::buffer_bytes(data);
                    &&& content == crate::outside::buffer_bytes(fast_writes[req.page_index])
                    &&& req.hash@ == crate::outside::blake3_hash(content)
                }
                &&& req.data is None ==> {
                    &&& txn.pages.contains_key(req.page_index)
                    &&& req.hash@ == txn.pages[req.page_index]
                }
            },
{
    let requests = intent.requests@;
    let pages = request_pages(requests);
    assert forall|i: int, j: int| 0 <= i < j < requests.len() implies (
    #[trigger] requests[i]).page_index != (#[trigger] requests[j]).page_index by {
        assert(pages[i] != pages[j]);
    }
    assert forall|page: u32| #[trigger] txn.pages.contains_key(page) implies exists|i: int|
        0 <= i < requests.len() && (#[trigger] requests[i]).page_index == page by {
        assert(pages.to_set().contains(page));
        let i: int = choose|i: int| 0 <= i < pages.len() && pages[i] == page;
        assert(requests[i].page_index == page);
    }
    assert forall|page: u32| #[trigger] fast_writes.contains_key(page) implies exists|i: int|
        0 <= i < requests.len() && (#[trigger] requests[i]).page_index == page by {
        assert(pages.to_set().contains(page));
        let i: int = choose|i: int| 0 <= i < pages.len() && pages[i] == page;
        assert(requests[i].page_index == page);
    }
    assert forall|i: int| 0 <= i < requests.len() implies {
        let req = #[trigger] requests[i];
        &&& req.data is Some <==> fast_writes.contains_key(req.page_index)
        &&& req.data is Some <==> i < fast_writes.len()
        &&& req.hash@.len() == 32
        &&& req.data matches Some(data) ==> {
            let content = crate::outside::buffer_bytes(data);
            &&& content == crate::outside::buffer_bytes(fast_writes[req.page_index])
            &&& req.hash@ == crate::outside::blake3_hash(content)
        }
        &&& req.data is None ==> {
            &&& txn.pages.contains_key(req.page_index)
            &&& req.hash@ == txn.pages[req.page_index]
        }
    } by {
        if i < fast_writes.len() {
            assert(commits_content(requests[i], fast_writes));
        } else {
            assert(commits_stored(requests[i], txn.pages));
        }
    }
}

/// A transaction that ends commits what it wanted to commit: nothing at the end exactly if
/// nothing before, and otherwise the same namespace, version, read set and metadata, and for
/// each page the same hash and content.
pub proof fn transaction_ends_with_what_it_wanted_to_commit(
    txn: Transaction,
    metadata: Option<&str>,
    wanted_metadata: Option<String>,
    fast_writes: &HashMap<u32, Bytes>,
    wanted: Option<NamespaceCommitIntent>,
    r: CommitStart,
)
    requires
        call_ensures(Transaction::commit_intent, (&txn, wanted_metadata, fast_writes), wanted),
        call_ensures(Transaction::commit, (txn, metadata, fast_writes), r),
        match (metadata, wanted_metadata) {
            (Some(a), Some(b)) => a@ == b@,
            (None, None) => true,
            _ => false,
        },
    ensures
        r is Empty <==> wanted is None,
        r matches CommitStart::Apply(a) ==> {
            let b = wanted->0;
            &&& a.ns_id@ == b.ns_id@
            &&& a.init.ns_key@ == b.init.ns_key@
            &&& a.init.version@ == b.init.version@
            &&& a.init.num_pages == b.init.num_pages
            &&& match (a.init.ns_key_hashproof, b.init.ns_key_hashproof) {
                (Some(x), Some(y)) => x@ == y@,
                (None, None) => true,
                _ => false,
            }
            &&& match (a.init.metadata, b.init.metadata) {
                (Some(x), Some(y)) => x@ == y@,
                (None, None) => true,
                _ => false,
            }
            &&& match (a.init.read_set, b.init.read_set) {
                (Some(x), Some(y)) => x@ == y@,
                (None, None) => true,
                _ => false,
            }
            &&& forall|i: int, j: int|
                0 <= i < j < a.requests@.len() ==> (#[trigger] a.requests@[i]).page_index != (
                #[trigger] a.requests@[j]).page_index
            &&& forall|i: int|
                0 <= i < a.requests@.len() ==> exists|j: int|
                    {
                        let (x, y) = (#[trigger] a.requests@[i], #[trigger] b.requests@[j]);
                        &&& 0 <= j < b.requests@.len()
                        &&& x.page_index == y.page_index
                        &&& x.hash@ == y.hash@
                        &&& match (x.data, y.data) {
                            (Some(c), Some(d)) => crate::outside::buffer_bytes(c)
                                == crate::outside::buffer_bytes(d),
                            (None, None) => true,
                            _ => false,
                        }
                    }
            &&& forall|j: int|
                0 <= j < b.requests@.len() ==> exists|i: int|
                    0 <= i < a.requests@.len() && (#[trigger] a.requests@[i]).page_index == (
                    #[trigger] b.requests@[j]).page_index
        },
{
    let m = crate::client::opt_str(metadata);
    assert(m == crate::client::opt_text(wanted_metadata));
    if r is Apply && wanted is Some {
        let (a, b) = (r->Apply_0, wanted->0);
        lemma_committed_pages(a, txn@, m, fast_writes@);
        lemma_committed_pages(b, txn@, m, fast_writes@);
        assert forall|i: int| 0 <= i < a.requests@.len() implies exists|j: int|
            {
                let (x, y) = (#[trigger] a.requests@[i], #[trigger] b.requests@[j]);
                &&& 0 <= j < b.requests@.len()
                &&& x.page_index == y.page_index
                &&& x.hash@ == y.hash@
                &&& match (x.data, y.data) {
                    (Some(c), Some(d)) => crate::outside::buffer_bytes(c)
                        == crate::outside::buffer_bytes(d),
                    (None, None) => true,
                    _ => false,
                }
            } by {
            let page = a.requests@[i].page_index;
            assert(txn@.pages.contains_key(page) || fast_writes@.contains_key(page));
            let j: int = choose|j: int|
                0 <= j < b.requests@.len() && (#[trigger] b.requests@[j]).page_index == page;
            assert(b.requests@[j].page_index == page);
        }
        assert forall|j: int| 0 <= j < b.requests@.len() implies exists|i: int|
            0 <= i < a.requests@.len() && (#[trigger] a.requests@[i]).page_index == (
            #[trigger] b.requests@[j]).page_index by {
            let page = b.requests@[j].page_index;
            assert(txn@.pages.contains_key(page) || fast_writes@.contains_key(page));
        }
    }
}

/// Requests for contents that come along stay as they are and come first, and the intent is that
/// of the transaction.
pub proof fn given_requests_come_first(
    txn: &Transaction,
    metadata: Option<String>,
    fast_writes: &HashMap<u32, Bytes>,
    carried: Vec<CommitRequest>,
    r: NamespaceCommitIntent,
)
    requires
        call_ensures(Transaction::intent_from, (txn, metadata, fast_writes, carried), r),
    ensures
        r.ns_id@ == txn@.ns_id,
        r.init.ns_key@ == txn@.ns_key,
        r.init.version@ == txn@.version,
        r.init.read_set is Some <==> txn@.read_set is Some,
        txn@.read_set matches Some(noted) ==> r.init.read_set->0@ == noted,
        carried@.len() <= r.requests@.len(),
        forall|i: int| 0 <= i < carried@.len() ==> #[trigger] r.requests@[i] == carried@[i],
        forall|i: int|
            carried@.len() <= i < r.requests@.len() ==> {
                let req = #[trigger] r.requests@[i];
                &&& req.data is None
                &&& !fast_writes@.contains_key(req.page_index)
                &&& txn@.pages.contains_key(req.page_index)
                &&& req.hash@ == txn@.pages[req.page_index]
            },
{
}

/// From the transaction to the store: the store checks a transaction by a read set exactly if
/// the transaction keeps one, and then by the pages noted, and it checks it against the version
/// at which the transaction was opened, in the namespace of the transaction. One that keeps no
/// read set is never committed by one.
pub proof fn store_checks_a_transaction_by_what_it_has_noted<'a>(
    txn: &Transaction,
    metadata: Option<String>,
    fast_writes: &HashMap<u32, Bytes>,
    wanted: Option<NamespaceCommitIntent>,
    intents: &'a [NamespaceCommitIntent],
    i: int,
    idempotency_key: [u8; 16],
    r: Result<crate::commit::CommitPlan<'a>, crate::commit::IntentError>,
)
    requires
        call_ensures(Transaction::commit_intent, (txn, metadata, fast_writes), wanted),
        0 <= i < intents@.len(),
        wanted == Some(intents@[i]),
        call_ensures(crate::commit::plan_commit, (intents, idempotency_key), r),
    ensures
        r matches Ok(plan) ==> {
            let ctx = plan.namespaces@[i];
            &&& ctx.use_read_set <==> txn@.read_set is Some
            &&& txn@.read_set matches Some(noted) ==> ctx.read_set@ == noted
            &&& txn@.read_set is None ==> forall|page: u32| !#[trigger] ctx.read_set@.contains(page)
            &&& ctx.ns_id@ == txn@.ns_id
            &&& ctx.ns_key@ == txn@.ns_key
            &&& txn@.version.len() == 20
            &&& forall|k: int|
                0 <= k < 10 ==> #[trigger] ctx.client_assumed_version@[k] as int == 16
                    * crate::outside::hex_digit_value(txn@.version[2 * k])
                    + crate::outside::hex_digit_value(txn@.version[2 * k + 1])
            &&& forall|page: u32| #[trigger]
                txn@.pages.contains_key(page) && !fast_writes@.contains_key(page) ==> exists|k: int|
                    {
                        &&& 0 <= k < ctx.index_writes@.len()
                        &&& (#[trigger] ctx.index_writes@[k]).0 == page
                        &&& ctx.index_writes@[k].1@ == txn@.pages[page]
                    }
            &&& forall|page: u32| #[trigger]
                fast_writes@.contains_key(page) ==> exists|k: int|
                    {
                        &&& 0 <= k < ctx.index_writes@.len()
                        &&& (#[trigger] ctx.index_writes@[k]).0 == page
                        &&& ctx.index_writes@[k].1@ == crate::outside::blake3_hash(
                            crate::outside::buffer_bytes(fast_writes@[page]),
                        )
                    }
        },
{
    let intent = intents@[i];
    let m = crate::client::opt_text(metadata);
    crate::commit::store_goes_by_a_read_set_only_if_the_intent_has_one(
        intents,
        idempotency_key,
        r,
    );
    crate::commit::plan_keeps_each_namespace_apart(intents, idempotency_key, r);
    crate::commit::plan_hands_on_pages_in_order(intents, idempotency_key, r);
    lemma_committed_pages(intent, txn@, m, fast_writes@);
    if r is Ok {
        let ctx = r->Ok_0.namespaces@[i];
        assert(ctx.use_read_set <==> intent.init.read_set is Some);
        if txn@.read_set is Some {
            assert(ctx.read_set@ =~= txn@.read_set->0);
        }
        assert forall|page: u32| #[trigger]
            txn@.pages.contains_key(page) && !fast_writes@.contains_key(page) implies exists|k: int|
            {
                &&& 0 <= k < ctx.index_writes@.len()
                &&& (#[trigger] ctx.index_writes@[k]).0 == page
                &&& ctx.index_writes@[k].1@ == txn@.pages[page]
            } by {
            let k: int = choose|k: int|
                0 <= k < intent.requests@.len() && (#[trigger] intent.requests@[k]).page_index
                    == page;
            assert(ctx.index_writes@[k].0 == page);
        }
        assert forall|page: u32| #[trigger]
            fast_writes@.contains_key(page) implies exists|k: int|
            {
                &&& 0 <= k < ctx.index_writes@.len()
                &&& (#[trigger] ctx.index_writes@[k]).0 == page
                &&& ctx.index_writes@[k].1@ == crate::outside::blake3_hash(
                    crate::outside::buffer_bytes(fast_writes@[page]),
                )
            } by {
            let k: int = choose|k: int|
                0 <= k < intent.requests@.len() && (#[trigger] intent.requests@[k]).page_index
                    == page;
            assert(ctx.index_writes@[k].0 == page);
        }
    }
}

/// A commit that was applied is reported with its result, and one that was not as a conflict.
pub proof fn applied_commit_is_reported(applied: Option<CommitResult>, r: CommitOutput)
    requires
        call_ensures(commit_output, (applied,), r),
    ensures
        r is Conflict <==> applied is None,
        r matches CommitOutput::Committed(result) ==> applied == Some(result),
        !(r is Empty),
{
}

/// Writes whose hashes are given go by these: after them a page has the hash of its last write,
/// and what is left to store are, in order, those whose hashes the transaction had not seen.
pub proof fn writes_go_by_the_hashes_given<'a>(
    txn: &mut Transaction,
    raw_pages: &[(u32, &'a [u8])],
    hashes: &Vec<[u8; 32]>,
    r: Vec<WriteRequest<'a>>,
)
    requires
        hashes@.len() == raw_pages@.len(),
        call_ensures(Transaction::write_hashed, (txn, raw_pages, hashes), r),
    ensures
        ({
            let (before, after) = (old(txn)@, final(txn)@);
            &&& forall|i: int|
                0 <= i < raw_pages@.len() && (forall|j: int|
                    i < j < raw_pages@.len() ==> (#[trigger] raw_pages@[j]).0 != raw_pages@[i].0)
                    ==> {
                    &&& after.pages.contains_key((#[trigger] raw_pages@[i]).0)
                    &&& after.pages[raw_pages@[i].0] == hashes@[i]@
                }
            &&& forall|page: u32|
                (forall|j: int| 0 <= j < raw_pages@.len() ==> (#[trigger] raw_pages@[j]).0 != page)
                    ==> {
                    &&& #[trigger] after.pages.contains_key(page) <==> before.pages.contains_key(
                        page,
                    )
                    &&& before.pages.contains_key(page) ==> after.pages[page] == before.pages[page]
                }
            &&& forall|h: Seq<u8>| #[trigger]
                after.seen.contains(h) <==> {
                    ||| before.seen.contains(h)
                    ||| exists|i: int| 0 <= i < hashes@.len() && (#[trigger] hashes@[i])@ == h
                }
            &&& r@ == Seq::new(raw_pages@.len(), |i: int| i).filter_map(
                |i: int|
                    if before.seen.contains(hashes@[i]@) {
                        None
                    } else {
                        Some(
                            WriteRequest {
                                data: raw_pages@[i].1,
                                delta_base: Some(raw_pages@[i].0),
                            },
                        )
                    },
            )
            &&& after == (TransactionView { pages: after.pages, seen: after.seen, ..before })
        }),
{
    let n: int = raw_pages@.len() as int;
    let (before, after) = (old(txn)@, final(txn)@);
    let views = hash_bytes(hashes@);
    assert(views.len() == n);
    lemma_hashes_are_seen(before.seen, views, n);
    assert forall|h: Seq<u8>| #[trigger] after.seen.contains(h) <==> {
        ||| before.seen.contains(h)
        ||| exists|i: int| 0 <= i < n && (#[trigger] hashes@[i])@ == h
    } by {
        if exists|i: int| 0 <= i < n && #[trigger] views[i] == h {
            let i: int = choose|i: int| 0 <= i < n && #[trigger] views[i] == h;
            assert(hashes@[i]@ == h);
        }
        if exists|i: int| 0 <= i < n && (#[trigger] hashes@[i])@ == h {
            let i: int = choose|i: int| 0 <= i < n && (#[trigger] hashes@[i])@ == h;
            assert(views[i] == h);
        }
    }
    transaction_reads_its_own_writes(before, raw_pages@, views, n);
    let written = TransactionView {
        pages: with_writes(before.pages, raw_pages@, views, n),
        ..before
    };
    assert forall|i: int|
        0 <= i < n && (forall|j: int|
            i < j < n ==> (#[trigger] raw_pages@[j]).0 != raw_pages@[i].0) implies {
        &&& after.pages.contains_key((#[trigger] raw_pages@[i]).0)
        &&& after.pages[raw_pages@[i].0] == hashes@[i]@
    } by {
        assert(own_hash(written, raw_pages@[i].0) == Some(views[i]));
    }
    assert forall|page: u32|
        (forall|j: int| 0 <= j < n ==> (#[trigger] raw_pages@[j]).0 != page) implies {
        &&& #[trigger] after.pages.contains_key(page) <==> before.pages.contains_key(page)
        &&& before.pages.contains_key(page) ==> after.pages[page] == before.pages[page]
    } by {
        assert(own_hash(written, page) == own_hash(before, page));
    }
    lemma_unseen_in_order(before.seen, raw_pages@, views, n);
    let f = |i: int|
        if before.seen.contains(hashes@[i]@) {
            None
        } else {
            Some(WriteRequest { data: raw_pages@[i].1, delta_base: Some(raw_pages@[i].0) })
        };
    let g = |i: int|
        if before.seen.contains(views[i]) {
            None
        } else {
            Some(WriteRequest { data: raw_pages@[i].1, delta_base: Some(raw_pages@[i].0) })
        };
    lemma_same_filter_map(Seq::new(raw_pages@.len(), |i: int| i), f, g);
}

} // verus!
