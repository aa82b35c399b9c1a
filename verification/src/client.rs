//! The client of a namespace: its configuration, how it retries, and how it opens
//! transactions.

use std::collections::{HashMap, HashSet};
use std::time::Duration;

use bytes::Bytes;
use vstd::prelude::*;

use crate::transaction::Transaction;

verus! {

/// Why a commit was refused.
#[derive(Debug)]
pub enum CommitError {
    Failed(String),
    /// A page in the read set, or in a chain of encodings, was removed before the commit
    /// could be checked against it.
    BadPageReference,
    NamespaceNotDistinct,
}

impl CommitError {
    /// The text of the error.
    pub fn message(&self) -> (r: String)
        ensures
            r@ == match *self {
                CommitError::Failed(reason) => "commit error: "@ + reason@,
                CommitError::BadPageReference => "bad page reference"@,
                CommitError::NamespaceNotDistinct => "namespace not distinct"@,
            },
    {
        match self {
            CommitError::Failed(reason) => {
                let mut text = "commit error: ".to_owned();
                text.append(reason.as_str());
                text
            },
            CommitError::BadPageReference => "bad page reference".to_owned(),
            CommitError::NamespaceNotDistinct => "namespace not distinct".to_owned(),
        }
    }
}

#[derive(Clone, Debug)]
pub struct MultiVersionClientConfig {
    /// Namespace key.
    pub ns_key: String,
    pub ns_key_hashproof: Option<String>,
    pub lock_owner: Option<String>,
}

/// The state of a namespace at some version.
pub struct StatResponse {
    pub version: String,
    pub metadata: String,
    pub read_only: bool,
    pub interval: Option<Vec<u32>>,
}

pub struct WriteRequest<'a> {
    pub data: &'a [u8],
    pub delta_base: Option<u32>,
}

pub struct WriteResponse {
    pub hash: Vec<u8>,
}

pub struct CommitNamespaceInit {
    pub ns_key: String,
    pub ns_key_hashproof: Option<String>,
    pub version: String,
    pub metadata: Option<String>,
    pub num_pages: u32,
    pub read_set: Option<HashSet<u32>>,
}

/// One page of a commit. The content comes along only if it is not stored yet.
pub struct CommitRequest {
    pub page_index: u32,
    pub hash: Vec<u8>,
    pub data: Option<Bytes>,
}

pub struct CommitResult {
    pub version: String,
    pub duration: Duration,
    pub num_pages: u64,
    pub changelog: HashMap<String, Vec<u32>>,
}

pub enum CommitOutput {
    Committed(CommitResult),
    Conflict,
    Empty,
}

/// What one namespace wants to commit. The namespace id is resolved when the transaction is
/// created and carried along, so that committing does not resolve the key again.
pub struct NamespaceCommitIntent {
    pub ns_id: [u8; 10],
    pub init: CommitNamespaceInit,
    pub requests: Vec<CommitRequest>,
}

pub struct TimeToVersionResponse {
    pub after: Option<TimeToVersionPoint>,
    pub not_after: Option<TimeToVersionPoint>,
}

pub struct TimeToVersionPoint {
    pub version: String,
    pub time: u64,
}

pub struct TransactionInfo {
    pub metadata: String,
    pub interval: Option<Vec<u32>>,
}

/// One link in the chain of causes of an error.
#[derive(Debug, Clone, Copy, PartialEq, Eq, Structural)]
pub enum ErrorCause {
    /// An error of the database, which knows whether trying again may help.
    Fdb { retryable: bool },
    /// Any other error.
    Other,
}

/// The first database error in `causes`, if there is one, may go away.
pub open spec fn may_go_away(causes: Seq<ErrorCause>) -> bool {
    exists|i: int|
        {
            &&& 0 <= i < causes.len()
            &&& #[trigger] causes[i] == ErrorCause::Fdb { retryable: true }
            &&& forall|j: int| 0 <= j < i ==> #[trigger] causes[j] == ErrorCause::Other
        }
}

/// True if trying again the operation that failed might succeed, given the causes of the
/// failure from the outermost inwards. Context that was added around a database error does
/// not hide it.
pub fn is_retryable(causes: &[ErrorCause]) -> (r: bool)
    ensures
        r == may_go_away(causes@),
{
    let mut i: usize = 0;
    while i < causes.len()
        invariant
            i <= causes.len(),
            forall|j: int| 0 <= j < i ==> #[trigger] causes@[j] == ErrorCause::Other,
        decreases causes.len() - i,
    {
        match causes[i] {
            ErrorCause::Fdb { retryable } => {
                proof {
                    if may_go_away(causes@) {
                        let k: int = choose|k: int|
                            {
                                &&& 0 <= k < causes@.len()
                                &&& #[trigger] causes@[k] == ErrorCause::Fdb { retryable: true }
                                &&& forall|j: int|
                                    0 <= j < k ==> #[trigger] causes@[j] == ErrorCause::Other
                            };
                        assert(k == i) by {
                            if k < i {
                                assert(causes@[k] == ErrorCause::Other);
                            }
                            if i < k {
                                assert(causes@[i as int] == ErrorCause::Other);
                            }
                        }
                    }
                    if retryable {
                        assert(causes@[i as int] == ErrorCause::Fdb { retryable: true });
                    }
                }
                return retryable;
            },
            ErrorCause::Other => {},
        }
        i = i + 1;
    }
    false
}

/// What to do after one attempt at a database operation.
pub enum RetryStep<T, E> {
    /// The operation is done.
    Done(T),
    /// Wait a little, and try again.
    Retry,
    /// Give up.
    Fail(E),
}

/// The retry policy of every database operation: an attempt that fails is repeated as long
/// as its error may go away. There is no limit on the number of attempts.
pub fn with_fdb_retry<T, E>(attempt: Result<T, E>, causes: &[ErrorCause]) -> (r: RetryStep<T, E>)
    ensures
        r == match attempt {
            Ok(x) => RetryStep::Done(x),
            Err(e) => if may_go_away(causes@) {
                RetryStep::Retry
            } else {
                RetryStep::Fail(e)
            },
        },
{
    match attempt {
        Ok(x) => RetryStep::Done(x),
        Err(e) => if is_retryable(causes) {
            RetryStep::Retry
        } else {
            RetryStep::Fail(e)
        },
    }
}

/// An error that is not of the database at all is never retried, and wrapping an error in
/// context does not change whether it is.
pub proof fn context_does_not_change_retry(causes: Seq<ErrorCause>)
    ensures
        (forall|i: int| 0 <= i < causes.len() ==> #[trigger] causes[i] == ErrorCause::Other)
            ==> !may_go_away(causes),
        may_go_away(seq![ErrorCause::Other] + causes) == may_go_away(causes),
{
    let wrapped = seq![ErrorCause::Other] + causes;
    if may_go_away(causes) {
        let i: int = choose|i: int|
            {
                &&& 0 <= i < causes.len()
                &&& #[trigger] causes[i] == ErrorCause::Fdb { retryable: true }
                &&& forall|j: int| 0 <= j < i ==> #[trigger] causes[j] == ErrorCause::Other
            };
        assert(wrapped[i + 1] == ErrorCause::Fdb { retryable: true });
        assert forall|j: int| 0 <= j < i + 1 implies #[trigger] wrapped[j] == ErrorCause::Other by {
            if j > 0 {
                assert(wrapped[j] == causes[j - 1]);
            }
        }
    }
    if may_go_away(wrapped) {
        let i: int = choose|i: int|
            {
                &&& 0 <= i < wrapped.len()
                &&& #[trigger] wrapped[i] == ErrorCause::Fdb { retryable: true }
                &&& forall|j: int| 0 <= j < i ==> #[trigger] wrapped[j] == ErrorCause::Other
            };
        assert(causes[i - 1] == ErrorCause::Fdb { retryable: true });
        assert forall|j: int| 0 <= j < i - 1 implies #[trigger] causes[j] == ErrorCause::Other by {
            assert(wrapped[j + 1] == causes[j]);
        }
    }
}

/// The text of an optional string.
pub open spec fn opt_text(s: Option<String>) -> Option<Seq<char>> {
    match s {
        Some(s) => Some(s@),
        None => None,
    }
}

/// The text of an optional string slice.
pub open spec fn opt_str(s: Option<&str>) -> Option<Seq<char>> {
    match s {
        Some(s) => Some(s@),
        None => None,
    }
}

/// The text of a string slice, or no text at all.
pub open spec fn text_or_empty(s: Option<Seq<char>>) -> Seq<char> {
    match s {
        Some(s) => s,
        None => Seq::empty(),
    }
}

pub(crate) fn borrow_text(s: &Option<String>) -> (r: Option<&str>)
    ensures
        opt_str(r) == opt_text(*s),
{
    match s {
        Some(s) => Some(s.as_str()),
        None => None,
    }
}

fn str_or_empty<'a>(s: Option<&'a str>) -> (r: &'a str)
    ensures
        r@ == text_or_empty(opt_str(s)),
{
    match s {
        Some(s) => s,
        None => {
            proof {
                reveal_strlit("");
                assert(""@ =~= Seq::<char>::empty());
            }
            ""
        },
    }
}

/// The answer to a lookup of a namespace together with its state.
pub enum NamespaceLookup {
    Found { ns_id: [u8; 10], stat: StatResponse },
    NotFound,
}

/// A key that no namespace has.
#[derive(Debug, Clone, Copy, PartialEq, Eq, Structural)]
pub struct NamespaceNotFound;

impl NamespaceNotFound {
    /// The text of the error.
    pub fn message(&self) -> (r: String)
        ensures
            r@ == "namespace not found"@,
    {
        "namespace not found".to_owned()
    }
}

/// What is asked about a namespace when a transaction is opened.
pub struct StatRequest<'a> {
    pub ns_key: &'a str,
    pub hashproof: Option<&'a str>,
    /// The version up to which the caller has the namespace already; empty if none.
    pub from_version: &'a str,
    /// Empty if the caller holds no lock.
    pub lock_owner: &'a str,
}

/// The client of one namespace.
pub struct MultiVersionClient {
    config: MultiVersionClientConfig,
}

impl View for MultiVersionClient {
    type V = MultiVersionClientConfig;

    closed spec fn view(&self) -> MultiVersionClientConfig {
        self.config
    }
}

impl MultiVersionClient {
    pub fn new(config: MultiVersionClientConfig) -> (r: Self)
        ensures
            r@ == config,
    {
        MultiVersionClient { config }
    }

    pub fn config(&self) -> (r: &MultiVersionClientConfig)
        ensures
            *r == self@,
    {
        &self.config
    }

    /// What to ask about the namespace in order to open a transaction.
    pub fn stat_request<'a>(&'a self, from_version: Option<&'a str>) -> (r: StatRequest<'a>)
        ensures
            r.ns_key@ == self@.ns_key@,
            opt_str(r.hashproof) == opt_text(self@.ns_key_hashproof),
            r.from_version@ == text_or_empty(opt_str(from_version)),
            r.lock_owner@ == text_or_empty(opt_text(self@.lock_owner)),
    {
        StatRequest {
            ns_key: self.config.ns_key.as_str(),
            hashproof: borrow_text(&self.config.ns_key_hashproof),
            from_version: str_or_empty(from_version),
            lock_owner: str_or_empty(borrow_text(&self.config.lock_owner)),
        }
    }

    /// Opens a transaction at the version that a lookup has found.
    pub fn create_transaction(&self, lookup: NamespaceLookup) -> (r: Result<
        Transaction,
        NamespaceNotFound,
    >)
        ensures
            match lookup {
                NamespaceLookup::NotFound => r is Err,
                NamespaceLookup::Found { ns_id, stat } => r matches Ok(txn) && txn@
                    == crate::transaction::fresh_transaction(
                    self@,
                    ns_id@,
                    stat.version@,
                    stat.read_only,
                ),
            },
    {
        match self.create_transaction_with_info(lookup) {
            Ok((txn, _)) => Ok(txn),
            Err(e) => Err(e),
        }
    }

    /// Opens a transaction at the version that a lookup has found, and hands on what the
    /// lookup says of the namespace.
    pub fn create_transaction_with_info(&self, lookup: NamespaceLookup) -> (r: Result<
        (Transaction, TransactionInfo),
        NamespaceNotFound,
    >)
        ensures
            match lookup {
                NamespaceLookup::NotFound => r is Err,
                NamespaceLookup::Found { ns_id, stat } => {
                    &&& r matches Ok((txn, info))
                    &&& txn@ == crate::transaction::fresh_transaction(
                        self@,
                        ns_id@,
                        stat.version@,
                        stat.read_only,
                    )
                    &&& info == (TransactionInfo {
                        metadata: stat.metadata,
                        interval: stat.interval,
                    })
                },
            },
    {
        match lookup {
            NamespaceLookup::NotFound => Err(NamespaceNotFound),
            NamespaceLookup::Found { ns_id, stat } => {
                let txn = self.create_transaction_with_ns_id(
                    ns_id,
                    stat.version.as_str(),
                    stat.read_only,
                );
                Ok((txn, TransactionInfo { metadata: stat.metadata, interval: stat.interval }))
            },
        }
    }

    /// Opens a transaction on a namespace whose id is known.
    pub fn create_transaction_with_ns_id(
        &self,
        ns_id: [u8; 10],
        version: &str,
        read_only: bool,
    ) -> (r: Transaction)
        ensures
            r@ == crate::transaction::fresh_transaction(self@, ns_id@, version@, read_only),
    {
        Transaction::open(&self.config, ns_id, version, read_only)
    }

    /// Opens a transaction at a version that the caller knows already. The namespace id is
    /// what a lookup of the key has found.
    pub fn create_transaction_at_version(
        &self,
        ns_id: Option<[u8; 10]>,
        version: &str,
        read_only: bool,
    ) -> (r: Result<Transaction, NamespaceNotFound>)
        ensures
            match ns_id {
                None => r is Err,
                Some(ns_id) => r matches Ok(txn) && txn@ == crate::transaction::fresh_transaction(
                    self@,
                    ns_id@,
                    version@,
                    read_only,
                ),
            },
    {
        match ns_id {
            None => Err(NamespaceNotFound),
            Some(ns_id) => Ok(self.create_transaction_with_ns_id(ns_id, version, read_only)),
        }
    }

    /// The versions around a moment, from the points that the store has found.
    pub fn time2version(
        &self,
        after: Option<(String, u64)>,
        not_after: Option<(String, u64)>,
    ) -> (r: TimeToVersionResponse)
        ensures
            r.after == time_point(after),
            r.not_after == time_point(not_after),
    {
        TimeToVersionResponse {
            after: match after {
                Some((version, time)) => Some(TimeToVersionPoint { version, time }),
                None => None,
            },
            not_after: match not_after {
                Some((version, time)) => Some(TimeToVersionPoint { version, time }),
                None => None,
            },
        }
    }
}

/// The point of a version and the time at which it was committed.
pub open spec fn time_point(point: Option<(String, u64)>) -> Option<TimeToVersionPoint> {
    match point {
        Some((version, time)) => Some(TimeToVersionPoint { version, time }),
        None => None,
    }
}

/// A transaction that is opened at a version is at that version, on that namespace, and can be
/// written exactly if it was not opened for reading alone. It has written nothing, has seen
/// nothing, and keeps no read set.
pub proof fn opened_transaction_is_at_its_version(
    client: &MultiVersionClient,
    ns_id: [u8; 10],
    version: &str,
    read_only: bool,
    txn: Transaction,
)
    requires
        call_ensures(
            MultiVersionClient::create_transaction_with_ns_id,
            (client, ns_id, version, read_only),
            txn,
        ),
    ensures
        txn@.version == version@,
        txn@.ns_id == ns_id@,
        txn@.read_only == read_only,
        txn@.ns_key == client@.ns_key@,
        match (txn@.ns_key_hashproof, client@.ns_key_hashproof) {
            (Some(a), Some(b)) => a == b@,
            (None, None) => true,
            _ => false,
        },
        forall|page: u32| !#[trigger] txn@.pages.contains_key(page),
        forall|hash: Seq<u8>| !#[trigger] txn@.seen.contains(hash),
        txn@.read_set is None,
{
}

/// Whichever way a transaction is opened, it is the transaction that is opened on the same
/// namespace at the same version, and it cannot be opened exactly if the namespace was not
/// found. A lookup decides on the version and on whether it can only be read, and what it says of
/// the namespace is handed on as it is.
pub proof fn all_ways_to_open_a_transaction_agree(
    client: &MultiVersionClient,
    ns_id: Option<[u8; 10]>,
    version: &str,
    read_only: bool,
    at_version: Result<Transaction, NamespaceNotFound>,
    lookup: NamespaceLookup,
    looked_up: Result<Transaction, NamespaceNotFound>,
    with_info: Result<(Transaction, TransactionInfo), NamespaceNotFound>,
)
    requires
        call_ensures(
            MultiVersionClient::create_transaction_at_version,
            (client, ns_id, version, read_only),
            at_version,
        ),
        call_ensures(MultiVersionClient::create_transaction, (client, lookup), looked_up),
        call_ensures(
            MultiVersionClient::create_transaction_with_info,
            (client, lookup),
            with_info,
        ),
    ensures
        at_version is Ok <==> ns_id is Some,
        at_version matches Ok(txn) ==> {
            &&& txn@.version == version@
            &&& txn@.ns_id == ns_id->0@
            &&& txn@.read_only == read_only
            &&& txn@.ns_key == client@.ns_key@
            &&& match (txn@.ns_key_hashproof, client@.ns_key_hashproof) {
                (Some(a), Some(b)) => a == b@,
                (None, None) => true,
                _ => false,
            }
            &&& forall|page: u32| !#[trigger] txn@.pages.contains_key(page)
            &&& forall|hash: Seq<u8>| !#[trigger] txn@.seen.contains(hash)
            &&& txn@.read_set is None
        },
        looked_up is Ok <==> lookup is Found,
        with_info is Ok <==> lookup is Found,
        lookup matches NamespaceLookup::Found { ns_id: found, stat } ==> {
            let txn = looked_up->Ok_0;
            let info = with_info->Ok_0.1;
            &&& txn@.version == stat.version@
            &&& txn@.ns_id == found@
            &&& txn@.read_only == stat.read_only
            &&& txn@.ns_key == client@.ns_key@
            &&& match (txn@.ns_key_hashproof, client@.ns_key_hashproof) {
                (Some(a), Some(b)) => a == b@,
                (None, None) => true,
                _ => false,
            }
            &&& forall|page: u32| !#[trigger] txn@.pages.contains_key(page)
            &&& forall|hash: Seq<u8>| !#[trigger] txn@.seen.contains(hash)
            &&& txn@.read_set is None
            &&& with_info->Ok_0.0@ == txn@
            &&& info.metadata@ == stat.metadata@
            &&& info.interval == stat.interval
        },
{
}

/// What a transaction that was opened at a version is asked for it tells: the version handed in,
/// the namespace, and whether it can only be read; no page is written, and no read set kept. What
/// it asks the store for, it asks at that version, and nothing by hash.
pub proof fn opened_transaction_reads_at_its_version(
    client: &MultiVersionClient,
    ns_id: [u8; 10],
    version: &str,
    read_only: bool,
    opened: Result<Transaction, NamespaceNotFound>,
    told_version: &str,
    told_ns_id: [u8; 10],
    told_read_only: bool,
    written: Vec<u32>,
    tracks: bool,
    pages: &[u32],
    requests: Vec<crate::read::ReadPageRequest>,
)
    requires
        call_ensures(
            MultiVersionClient::create_transaction_at_version,
            (client, Some(ns_id), version, read_only),
            opened,
        ),
        opened is Ok,
        call_ensures(Transaction::version, (&opened->Ok_0,), told_version),
        call_ensures(Transaction::ns_id, (&opened->Ok_0,), told_ns_id),
        call_ensures(Transaction::is_read_only, (&opened->Ok_0,), told_read_only),
        call_ensures(Transaction::written_pages, (&opened->Ok_0,), written),
        call_ensures(Transaction::is_read_set_enabled, (&opened->Ok_0,), tracks),
        call_ensures(Transaction::read_requests, (&opened->Ok_0, pages), requests),
    ensures
        told_version@ == version@,
        told_ns_id@ == ns_id@,
        told_read_only == read_only,
        written@.len() == 0,
        !tracks,
        requests@.len() == pages@.len(),
        forall|i: int|
            0 <= i < requests@.len() ==> {
                &&& (#[trigger] requests@[i]).page_index == pages@[i]
                &&& requests@[i].version@ == version@
                &&& requests@[i].hash is None
            },
{
    if written@.len() > 0 {
        assert(written@.to_set().contains(written@[0]));
    }
}

/// A client has the configuration that it was made with, and asks about its own namespace, with
/// its own proof, from the version that the caller has and for the owner of its lock. Neither the
/// one nor the other is named where there is none.
pub proof fn client_asks_about_its_own_namespace(
    config: MultiVersionClientConfig,
    client: MultiVersionClient,
    told: &MultiVersionClientConfig,
    from_version: Option<&str>,
    r: StatRequest,
)
    requires
        call_ensures(MultiVersionClient::new, (config,), client),
        call_ensures(MultiVersionClient::config, (&client,), told),
        call_ensures(MultiVersionClient::stat_request, (&client, from_version), r),
    ensures
        *told == config,
        client@ == config,
        r.ns_key@ == config.ns_key@,
        match (r.hashproof, config.ns_key_hashproof) {
            (Some(a), Some(b)) => a@ == b@,
            (None, None) => true,
            _ => false,
        },
        match from_version {
            Some(version) => r.from_version@ == version@,
            None => r.from_version@.len() == 0,
        },
        match config.lock_owner {
            Some(owner) => r.lock_owner@ == owner@,
            None => r.lock_owner@.len() == 0,
        },
{
}

/// The first error of the database decides: an operation is tried again exactly if there is one
/// and it may go away, whatever surrounds it and whatever lies below it. The result of an
/// operation that succeeded, and the error of one that is given up, are handed on.
pub proof fn first_database_error_decides<T, E>(
    attempt: Result<T, E>,
    causes: &[ErrorCause],
    retryable: bool,
    r: RetryStep<T, E>,
    i: int,
)
    requires
        call_ensures(is_retryable, (causes,), retryable),
        call_ensures(with_fdb_retry::<T, E>, (attempt, causes), r),
    ensures
        (forall|j: int| 0 <= j < causes@.len() ==> #[trigger] causes@[j] == ErrorCause::Other)
            ==> !retryable,
        0 <= i < causes@.len() && (forall|j: int|
            0 <= j < i ==> #[trigger] causes@[j] == ErrorCause::Other) ==> {
            &&& causes@[i] == (ErrorCause::Fdb { retryable: true }) ==> retryable
            &&& causes@[i] == (ErrorCause::Fdb { retryable: false }) ==> !retryable
        },
        match attempt {
            Ok(x) => r == RetryStep::<T, E>::Done(x),
            Err(e) => {
                &&& retryable ==> r is Retry
                &&& !retryable ==> r == RetryStep::<T, E>::Fail(e)
            },
        },
{
    if 0 <= i < causes@.len() && (forall|j: int|
        0 <= j < i ==> #[trigger] causes@[j] == ErrorCause::Other) && causes@[i] is Fdb
        && may_go_away(causes@) {
        let k: int = choose|k: int|
            {
                &&& 0 <= k < causes@.len()
                &&& #[trigger] causes@[k] == ErrorCause::Fdb { retryable: true }
                &&& forall|j: int| 0 <= j < k ==> #[trigger] causes@[j] == ErrorCause::Other
            };
        if k < i {
            assert(causes@[k] == ErrorCause::Other);
        }
        if i < k {
            assert(causes@[i] == ErrorCause::Other);
        }
    }
}

/// The versions around a moment are those that the store has found, with their times, and there
/// is none exactly where the store has found none.
pub proof fn versions_around_a_moment_are_handed_on(
    client: &MultiVersionClient,
    after: Option<(String, u64)>,
    not_after: Option<(String, u64)>,
    r: TimeToVersionResponse,
)
    requires
        call_ensures(MultiVersionClient::time2version, (client, after, not_after), r),
    ensures
        match (after, r.after) {
            (Some((version, time)), Some(point)) => point.version@ == version@ && point.time
                == time,
            (None, None) => true,
            _ => false,
        },
        match (not_after, r.not_after) {
            (Some((version, time)), Some(point)) => point.version@ == version@ && point.time
                == time,
            (None, None) => true,
            _ => false,
        },
{
}

/// The text of a commit that failed ends in the reason, as it was given.
pub proof fn failure_names_its_reason(e: &CommitError, reason: String, r: String)
    requires
        call_ensures(CommitError::message, (e,), r),
        *e == CommitError::Failed(reason),
    ensures
        r@ == "commit error: "@ + reason@,
{
}

} // verus!
