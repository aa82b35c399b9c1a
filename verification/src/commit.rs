//! Committing: what is handed to the store for a set of intents, when an attempt may skip
//! the check for an earlier one, and what the outcome of an attempt means.

use std::collections::{HashMap, HashSet};
use std::time::Duration;

use vstd::prelude::*;

use crate::client::{
    borrow_text, with_fdb_retry, CommitError, CommitRequest, CommitResult, ErrorCause,
    MultiVersionClient, NamespaceCommitIntent, RetryStep,
};
use crate::outside::{buffer_slice, fill_random};
use crate::transaction::{copy_read_set, copy_text};
use crate::version::{decode_version, encode_version, Version};
use crate::write::WriteRequest;

verus! {

broadcast use vstd::std_specs::hash::group_hash_axioms;

/// What the store is told of one namespace of a commit.
pub struct CommitNamespaceContext<'a> {
    pub ns_key: String,
    pub ns_id: [u8; 10],
    /// The version that the transaction has read at.
    pub client_assumed_version: Version,
    pub use_read_set: bool,
    pub read_set: HashSet<u32>,
    /// The contents that come along with the commit.
    pub page_writes: Vec<WriteRequest<'a>>,
    /// Every page of the commit, and the hash of its content.
    pub index_writes: Vec<(u32, [u8; 32])>,
    pub metadata: Option<String>,
}

/// What the store is told of one attempt at a commit.
pub struct CommitContext<'a, 'b> {
    pub idempotency_key: [u8; 16],
    pub allow_skip_idempotency_check: bool,
    pub namespaces: &'b Vec<CommitNamespaceContext<'a>>,
    pub lock_owner: Option<&'b str>,
}

/// What the store answers to an attempt at a commit.
pub enum CoreCommitResult {
    Committed { versionstamp: [u8; 10], changelog: HashMap<String, Vec<u32>> },
    Conflict,
    BadPageReference,
    NamespaceNotDistinct,
}

/// Intents that cannot be handed to the store.
#[derive(Debug, Clone, Copy, PartialEq, Eq, Structural)]
pub enum IntentError {
    NoIntents,
    InvalidHashLength,
    InvalidVersion,
}

impl IntentError {
    /// The text of the error.
    pub fn message(&self) -> (r: String)
        ensures
            r@ == match *self {
                IntentError::NoIntents => "no commit intents"@,
                IntentError::InvalidHashLength => "invalid hash length"@,
                IntentError::InvalidVersion => "invalid version"@,
            },
    {
        match self {
            IntentError::NoIntents => "no commit intents".to_owned(),
            IntentError::InvalidHashLength => "invalid hash length".to_owned(),
            IntentError::InvalidVersion => "invalid version".to_owned(),
        }
    }
}

/// A commit that is ready to be attempted, any number of times.
pub struct CommitPlan<'a> {
    pub idempotency_key: [u8; 16],
    pub namespaces: Vec<CommitNamespaceContext<'a>>,
    pub num_pages: u64,
}

/// Whether a commit has been attempted already.
pub struct CommitAttempts {
    pub is_retry: bool,
}

/// Why a commit came to nothing.
pub enum CommitFailure<E> {
    Refused(CommitError),
    Store(E),
}

/// The hash of each request has the length of a content hash.
pub open spec fn hashes_are_whole(requests: Seq<CommitRequest>) -> bool {
    forall|i: int| 0 <= i < requests.len() ==> (#[trigger] requests[i]).hash@.len() == 32
}

/// What is wrong with an intent.
pub open spec fn intent_error(intent: NamespaceCommitIntent) -> Option<IntentError> {
    if !hashes_are_whole(intent.requests@) {
        Some(IntentError::InvalidHashLength)
    } else if !crate::version::is_version_text(intent.init.version@) {
        Some(IntentError::InvalidVersion)
    } else {
        None
    }
}

/// What is wrong with the first of the intents from `i` on with which anything is.
pub open spec fn first_intent_error(intents: Seq<NamespaceCommitIntent>, i: int) -> Option<
    IntentError,
>
    decreases intents.len() - i,
{
    if i >= intents.len() {
        None
    } else if intent_error(intents[i]) is Some {
        intent_error(intents[i])
    } else {
        first_intent_error(intents, i + 1)
    }
}

/// What is wrong with some intents.
pub open spec fn plan_error(intents: Seq<NamespaceCommitIntent>) -> Option<IntentError> {
    if intents.len() == 0 {
        Some(IntentError::NoIntents)
    } else {
        first_intent_error(intents, 0)
    }
}

/// The contents that come along with the first `n` requests, each with its page.
pub open spec fn carried_contents(requests: Seq<CommitRequest>, n: int) -> Seq<
    (Seq<u8>, Option<u32>),
>
    decreases n,
{
    if n <= 0 {
        Seq::empty()
    } else {
        let before = carried_contents(requests, n - 1);
        match requests[n - 1].data {
            Some(data) => before.push(
                (crate::outside::buffer_bytes(data), Some(requests[n - 1].page_index)),
            ),
            None => before,
        }
    }
}

/// Some page writes as byte strings.
pub open spec fn write_contents(writes: Seq<WriteRequest>) -> Seq<(Seq<u8>, Option<u32>)> {
    writes.map_values(|w: WriteRequest| (w.data@, w.delta_base))
}

/// `writes` lists the page and the hash of each request.
pub open spec fn indexes_requests(
    writes: Seq<(u32, [u8; 32])>,
    requests: Seq<CommitRequest>,
) -> bool {
    &&& writes.len() == requests.len()
    &&& forall|i: int|
        0 <= i < requests.len() ==> {
            &&& (#[trigger] writes[i]).0 == requests[i].page_index
            &&& writes[i].1@ == requests[i].hash@
        }
}

/// `ctx` hands on all that `intent` says.
pub open spec fn context_of(ctx: CommitNamespaceContext, intent: NamespaceCommitIntent) -> bool {
    &&& ctx.ns_key@ == intent.init.ns_key@
    &&& ctx.ns_id == intent.ns_id
    &&& ctx.client_assumed_version@ == crate::outside::hex_value(intent.init.version@)
    &&& ctx.use_read_set == (intent.init.read_set is Some)
    &&& ctx.read_set@ == match intent.init.read_set {
        Some(read_set) => read_set@,
        None => Set::empty(),
    }
    &&& write_contents(ctx.page_writes@) == carried_contents(
        intent.requests@,
        intent.requests@.len() as int,
    )
    &&& indexes_requests(ctx.index_writes@, intent.requests@)
    &&& ctx.metadata == intent.init.metadata
}

/// How many pages the first `n` intents commit.
pub open spec fn page_total(intents: Seq<NamespaceCommitIntent>, n: int) -> nat
    decreases n,
{
    if n <= 0 {
        0
    } else {
        page_total(intents, n - 1) + intents[n - 1].requests@.len()
    }
}

/// `plan` hands on all that `intents` say.
pub open spec fn plan_of(plan: CommitPlan, intents: Seq<NamespaceCommitIntent>) -> bool {
    &&& plan.namespaces@.len() == intents.len()
    &&& forall|i: int|
        0 <= i < intents.len() ==> context_of(#[trigger] plan.namespaces@[i], intents[i])
    &&& plan.num_pages as int == page_total(intents, intents.len() as int)
        % 0x1_0000_0000_0000_0000
}

fn whole_hash(hash: &Vec<u8>) -> (r: Option<[u8; 32]>)
    ensures
        r is Some <==> hash@.len() == 32,
        r matches Some(h) ==> h@ == hash@,
{
    if hash.len() != 32 {
        return None;
    }
    let mut out: [u8; 32] = [0u8;32];
    let mut i: usize = 0;
    while i < 32
        invariant
            i <= 32,
            hash@.len() == 32,
            forall|j: int| 0 <= j < i ==> out@[j] == hash@[j],
        decreases 32 - i,
    {
        out[i] = hash[i];
        i = i + 1;
    }
    assert(out@ =~= hash@);
    Some(out)
}

fn plan_namespace<'a>(intent: &'a NamespaceCommitIntent) -> (r: Result<
    CommitNamespaceContext<'a>,
    IntentError,
>)
    ensures
        match r {
            Ok(ctx) => intent_error(*intent) is None && context_of(ctx, *intent),
            Err(e) => intent_error(*intent) == Some(e),
        },
{
    let mut page_writes: Vec<WriteRequest<'a>> = Vec::new();
    let mut index_writes: Vec<(u32, [u8; 32])> = Vec::new();
    let mut i: usize = 0;
    assert(write_contents(page_writes@) =~= carried_contents(intent.requests@, 0));
    while i < intent.requests.len()
        invariant
            i <= intent.requests@.len(),
            forall|j: int| 0 <= j < i ==> (#[trigger] intent.requests@[j]).hash@.len() == 32,
            index_writes@.len() == i,
            forall|j: int|
                0 <= j < i ==> {
                    &&& (#[trigger] index_writes@[j]).0 == intent.requests@[j].page_index
                    &&& index_writes@[j].1@ == intent.requests@[j].hash@
                },
            write_contents(page_writes@) == carried_contents(intent.requests@, i as int),
        decreases intent.requests@.len() - i,
    {
        let req = &intent.requests[i];
        let hash = match whole_hash(&req.hash) {
            Some(hash) => hash,
            None => {
                assert(intent.requests@[i as int].hash@.len() != 32);
                return Err(IntentError::InvalidHashLength);
            },
        };
        let ghost before = page_writes@;
        match &req.data {
            Some(data) => {
                page_writes.push(
                    WriteRequest { data: buffer_slice(data), delta_base: Some(req.page_index) },
                );
                assert(write_contents(page_writes@) =~= write_contents(before).push(
                    (crate::outside::buffer_bytes(*data), Some(req.page_index)),
                ));
            },
            None => {},
        }
        index_writes.push((req.page_index, hash));
        i = i + 1;
    }
    let client_assumed_version = match decode_version(intent.init.version.as_str()) {
        Ok(version) => version,
        Err(_) => return Err(IntentError::InvalidVersion),
    };
    let read_set = match &intent.init.read_set {
        Some(read_set) => copy_read_set(read_set),
        None => HashSet::new(),
    };
    Ok(
        CommitNamespaceContext {
            ns_key: intent.init.ns_key.clone(),
            ns_id: intent.ns_id,
            client_assumed_version,
            use_read_set: intent.init.read_set.is_some(),
            read_set,
            page_writes,
            index_writes,
            metadata: copy_text(&intent.init.metadata),
        },
    )
}

/// Makes a commit of some intents, under a key by which the store can tell one commit from
/// another. Fails on the first intent with which anything is wrong.
pub fn plan_commit<'a>(intents: &'a [NamespaceCommitIntent], idempotency_key: [u8; 16]) -> (r:
    Result<CommitPlan<'a>, IntentError>)
    ensures
        match r {
            Ok(plan) => {
                &&& plan_error(intents@) is None
                &&& plan_of(plan, intents@)
                &&& plan.idempotency_key == idempotency_key
            },
            Err(e) => plan_error(intents@) == Some(e),
        },
{
    if intents.len() == 0 {
        return Err(IntentError::NoIntents);
    }
    let mut namespaces: Vec<CommitNamespaceContext<'a>> = Vec::new();
    let mut num_pages: u64 = 0;
    let mut i: usize = 0;
    while i < intents.len()
        invariant
            i <= intents@.len(),
            intents@.len() > 0,
            namespaces@.len() == i,
            forall|j: int| 0 <= j < i ==> context_of(#[trigger] namespaces@[j], intents@[j]),
            plan_error(intents@) == first_intent_error(intents@, i as int),
            num_pages as int == page_total(intents@, i as int) % 0x1_0000_0000_0000_0000,
        decreases intents@.len() - i,
    {
        let ctx = match plan_namespace(&intents[i]) {
            Ok(ctx) => ctx,
            Err(e) => return Err(e),
        };
        namespaces.push(ctx);
        num_pages = num_pages.wrapping_add(intents[i].requests.len() as u64);
        i = i + 1;
    }
    Ok(CommitPlan { idempotency_key, namespaces, num_pages })
}

/// The key that sixteen bytes make.
pub fn key_from_bytes(bytes: &Vec<u8>) -> (r: [u8; 16])
    requires
        bytes@.len() == 16,
    ensures
        r@ == bytes@,
{
    let mut key: [u8; 16] = [0u8;16];
    let mut i: usize = 0;
    while i < 16
        invariant
            i <= 16,
            bytes@.len() == 16,
            forall|j: int| 0 <= j < i ==> key@[j] == bytes@[j],
        decreases 16 - i,
    {
        key[i] = bytes[i];
        i = i + 1;
    }
    assert(key@ =~= bytes@);
    key
}

impl MultiVersionClient {
    /// Makes a commit of some intents under a key drawn at random. Fails on the first intent
    /// with which anything is wrong.
    pub fn apply_commit_intents<'a>(&self, intents: &'a [NamespaceCommitIntent]) -> (r: Result<
        CommitPlan<'a>,
        IntentError,
    >)
        ensures
            match r {
                Ok(plan) => plan_error(intents@) is None && plan_of(plan, intents@),
                Err(e) => plan_error(intents@) == Some(e),
            },
    {
        let mut bytes: Vec<u8> = Vec::new();
        bytes.resize(16, 0);
        fill_random(&mut bytes);
        plan_commit(intents, key_from_bytes(&bytes))
    }
}

impl CommitAttempts {
    /// A commit that was not attempted yet.
    pub fn new() -> (r: Self)
        ensures
            !r.is_retry,
    {
        CommitAttempts { is_retry: false }
    }
}

impl<'a> CommitPlan<'a> {
    /// What to hand to the store for the next attempt. The first attempt may skip the check
    /// for an earlier one, since nothing was written under the key yet. A later one may not:
    /// an attempt that failed may have gone through all the same, and only the check finds
    /// that out.
    pub fn next_context<'b>(
        &'b self,
        attempts: &mut CommitAttempts,
        client: &'b MultiVersionClient,
    ) -> (r: CommitContext<'a, 'b>)
        ensures
            r.idempotency_key == self.idempotency_key,
            r.allow_skip_idempotency_check == !old(attempts).is_retry,
            *r.namespaces == self.namespaces,
            crate::client::opt_str(r.lock_owner) == crate::client::opt_text(client@.lock_owner),
            final(attempts).is_retry,
    {
        let allow_skip_idempotency_check = !attempts.is_retry;
        attempts.is_retry = true;
        CommitContext {
            idempotency_key: self.idempotency_key,
            allow_skip_idempotency_check,
            namespaces: &self.namespaces,
            lock_owner: borrow_text(&client.config().lock_owner),
        }
    }

    /// What an attempt at the commit comes to, `duration` after the commit was begun: the
    /// result, no result where the commit lost to another one, another attempt, or failure.
    pub fn settle_attempt<E>(
        &self,
        attempt: Result<CoreCommitResult, E>,
        causes: &[ErrorCause],
        duration: Duration,
    ) -> (r: RetryStep<Option<CommitResult>, CommitFailure<E>>)
        ensures
            match attempt {
                Ok(CoreCommitResult::Committed { versionstamp, changelog }) => {
                    &&& r matches RetryStep::Done(Some(result))
                    &&& result.version@ == crate::outside::hex_text(versionstamp@)
                    &&& result.duration == duration
                    &&& result.num_pages == self.num_pages
                    &&& result.changelog == changelog
                },
                Ok(CoreCommitResult::Conflict) => r == RetryStep::<
                    Option<CommitResult>,
                    CommitFailure<E>,
                >::Done(None),
                Ok(CoreCommitResult::BadPageReference) => r == RetryStep::<
                    Option<CommitResult>,
                    CommitFailure<E>,
                >::Fail(CommitFailure::Refused(CommitError::BadPageReference)),
                Ok(CoreCommitResult::NamespaceNotDistinct) => r == RetryStep::<
                    Option<CommitResult>,
                    CommitFailure<E>,
                >::Fail(CommitFailure::Refused(CommitError::NamespaceNotDistinct)),
                Err(e) => r == if crate::client::may_go_away(causes@) {
                    RetryStep::<Option<CommitResult>, CommitFailure<E>>::Retry
                } else {
                    RetryStep::<Option<CommitResult>, CommitFailure<E>>::Fail(
                        CommitFailure::Store(e),
                    )
                },
            },
    {
        let result = match attempt {
            Err(e) => return with_fdb_retry(Err(CommitFailure::Store(e)), causes),
            Ok(result) => result,
        };
        match result {
            CoreCommitResult::Committed { versionstamp, changelog } => RetryStep::Done(
                Some(
                    CommitResult {
                        version: encode_version(&versionstamp),
                        duration,
                        num_pages: self.num_pages,
                        changelog,
                    },
                ),
            ),
            CoreCommitResult::Conflict => RetryStep::Done(None),
            CoreCommitResult::BadPageReference => RetryStep::Fail(
                CommitFailure::Refused(CommitError::BadPageReference),
            ),
            CoreCommitResult::NamespaceNotDistinct => RetryStep::Fail(
                CommitFailure::Refused(CommitError::NamespaceNotDistinct),
            ),
        }
    }
}

/// Of all attempts at one commit only the first may skip the check for an earlier one.
/// `retrying[k]` is whether the commit had been attempted before attempt `k`, and `skips[k]`
/// whether attempt `k` may skip the check.
pub proof fn only_the_first_attempt_may_skip_the_check(retrying: Seq<bool>, skips: Seq<bool>)
    requires
        retrying.len() == skips.len() + 1,
        !retrying[0],
        forall|k: int| 0 <= k < skips.len() ==> #[trigger] skips[k] == !retrying[k],
        forall|k: int| 0 < k < retrying.len() ==> #[trigger] retrying[k],
    ensures
        forall|k: int| 0 <= k < skips.len() ==> (#[trigger] skips[k] <==> k == 0),
{
}

/// A commit hands on every page of an intent, in order: its hash in any case, and its
/// content exactly if the content comes along.
pub proof fn every_page_reaches_the_store(
    ctx: CommitNamespaceContext,
    intent: NamespaceCommitIntent,
)
    requires
        context_of(ctx, intent),
    ensures
        forall|i: int|
            0 <= i < intent.requests@.len() ==> {
                let req = #[trigger] intent.requests@[i];
                &&& ctx.index_writes@[i].0 == req.page_index
                &&& ctx.index_writes@[i].1@ == req.hash@
                &&& req.data matches Some(data) ==> write_contents(ctx.page_writes@).contains(
                    (crate::outside::buffer_bytes(data), Some(req.page_index)),
                )
            },
        ctx.page_writes@.len() <= ctx.index_writes@.len(),
{
    let requests = intent.requests@;
    lemma_carried_contents(requests, requests.len() as int);
    assert forall|i: int| 0 <= i < requests.len() implies {
        let req = #[trigger] requests[i];
        &&& ctx.index_writes@[i].0 == req.page_index
        &&& ctx.index_writes@[i].1@ == req.hash@
        &&& req.data matches Some(data) ==> write_contents(ctx.page_writes@).contains(
            (crate::outside::buffer_bytes(data), Some(req.page_index)),
        )
    } by {
        assert(ctx.index_writes@[i].0 == requests[i].page_index);
    }
}

proof fn lemma_carried_contents(requests: Seq<CommitRequest>, n: int)
    requires
        0 <= n <= requests.len(),
    ensures
        carried_contents(requests, n).len() <= n,
        forall|i: int|
            0 <= i < n ==> ((#[trigger] requests[i]).data matches Some(data) ==> carried_contents(
                requests,
                n,
            ).contains((crate::outside::buffer_bytes(data), Some(requests[i].page_index)))),
    decreases n,
{
    if n > 0 {
        lemma_carried_contents(requests, n - 1);
        let before = carried_contents(requests, n - 1);
        let after = carried_contents(requests, n);
        assert forall|i: int| 0 <= i < n implies ((#[trigger] requests[i]).data matches Some(data)
            ==> after.contains(
            (crate::outside::buffer_bytes(data), Some(requests[i].page_index)),
        )) by {
            if requests[i].data is Some {
                let content = (
                    crate::outside::buffer_bytes(requests[i].data->0),
                    Some(requests[i].page_index),
                );
                if i < n - 1 {
                    assert(before.contains(content));
                    let k: int = choose|k: int| 0 <= k < before.len() && before[k] == content;
                    assert(after[k] == content);
                } else {
                    assert(after[before.len() as int] == content);
                }
            }
        }
    }
}

/// Every request that carries a content names the hash of that content.
pub open spec fn hashes_fit_contents(requests: Seq<CommitRequest>) -> bool {
    forall|i: int|
        0 <= i < requests.len() ==> ((#[trigger] requests[i]).data matches Some(data)
            ==> requests[i].hash@ == crate::outside::blake3_hash(
            crate::outside::buffer_bytes(data),
        ))
}

/// `writes` lists the page with the hash of `content`.
pub open spec fn is_indexed(
    writes: Seq<(u32, [u8; 32])>,
    page_index: Option<u32>,
    content: Seq<u8>,
) -> bool {
    exists|i: int|
        {
            &&& 0 <= i < writes.len()
            &&& Some((#[trigger] writes[i]).0) == page_index
            &&& writes[i].1@ == crate::outside::blake3_hash(content)
        }
}

/// Each content that comes along with a commit is indexed in the same commit, for its page,
/// under its own hash.
pub proof fn carried_contents_are_indexed(
    ctx: CommitNamespaceContext,
    intent: NamespaceCommitIntent,
)
    requires
        context_of(ctx, intent),
        hashes_fit_contents(intent.requests@),
    ensures
        forall|k: int|
            0 <= k < ctx.page_writes@.len() ==> is_indexed(
                ctx.index_writes@,
                (#[trigger] ctx.page_writes@[k]).delta_base,
                ctx.page_writes@[k].data@,
            ),
{
    let requests = intent.requests@;
    let n: int = requests.len() as int;
    let contents = write_contents(ctx.page_writes@);
    lemma_carried_contents_are_requested(requests, n);
    assert forall|k: int| 0 <= k < ctx.page_writes@.len() implies is_indexed(
        ctx.index_writes@,
        (#[trigger] ctx.page_writes@[k]).delta_base,
        ctx.page_writes@[k].data@,
    ) by {
        assert(contents[k] == (ctx.page_writes@[k].data@, ctx.page_writes@[k].delta_base));
        assert(carries(requests, n, carried_contents(requests, n)[k]));
        let i: int = choose|i: int|
            {
                &&& 0 <= i < n
                &&& (#[trigger] requests[i]).data is Some
                &&& contents[k] == (
                    crate::outside::buffer_bytes(requests[i].data->0),
                    Some(requests[i].page_index),
                )
            };
        assert(ctx.index_writes@[i].0 == requests[i].page_index);
    }
}

/// One of the first `n` requests carries `content`.
spec fn carries(requests: Seq<CommitRequest>, n: int, content: (Seq<u8>, Option<u32>)) -> bool {
    exists|i: int|
        {
            &&& 0 <= i < n
            &&& (#[trigger] requests[i]).data is Some
            &&& content == (
                crate::outside::buffer_bytes(requests[i].data->0),
                Some(requests[i].page_index),
            )
        }
}

proof fn lemma_carried_contents_are_requested(requests: Seq<CommitRequest>, n: int)
    requires
        0 <= n <= requests.len(),
    ensures
        forall|k: int|
            0 <= k < carried_contents(requests, n).len() ==> carries(
                requests,
                n,
                #[trigger] carried_contents(requests, n)[k],
            ),
    decreases n,
{
    if n > 0 {
        lemma_carried_contents_are_requested(requests, n - 1);
        let before = carried_contents(requests, n - 1);
        let after = carried_contents(requests, n);
        assert forall|k: int| 0 <= k < after.len() implies carries(
            requests,
            n,
            #[trigger] after[k],
        ) by {
            if k < before.len() {
                assert(after[k] == before[k]);
                assert(carries(requests, n - 1, before[k]));
            } else {
                assert(requests[n - 1].data is Some);
            }
        }
    }
}

/// The store is told to go by a read set exactly if the intent carries one, whatever else the
/// intent says, and the set that it is told holds the pages of that one. Without a read set it
/// is told of no page.
pub proof fn store_goes_by_a_read_set_only_if_the_intent_has_one(
    intents: &[NamespaceCommitIntent],
    idempotency_key: [u8; 16],
    r: Result<CommitPlan, IntentError>,
)
    requires
        call_ensures(plan_commit, (intents, idempotency_key), r),
    ensures
        r matches Ok(plan) ==> {
            &&& plan.namespaces@.len() == intents@.len()
            &&& forall|i: int|
                0 <= i < intents@.len() ==> {
                    let ctx = #[trigger] plan.namespaces@[i];
                    &&& ctx.use_read_set <==> intents@[i].init.read_set is Some
                    &&& forall|page: u32| #[trigger]
                        ctx.read_set@.contains(page) <==> intents@[i].init.read_set is Some
                            && intents@[i].init.read_set->0@.contains(page)
                }
        },
{
    if r is Ok {
        let plan = r->Ok_0;
        assert forall|i: int| 0 <= i < intents@.len() implies {
            let ctx = #[trigger] plan.namespaces@[i];
            &&& ctx.use_read_set <==> intents@[i].init.read_set is Some
            &&& forall|page: u32| #[trigger]
                ctx.read_set@.contains(page) <==> intents@[i].init.read_set is Some
                    && intents@[i].init.read_set->0@.contains(page)
        } by {
            assert(context_of(plan.namespaces@[i], intents@[i]));
        }
    }
}

/// Each namespace is committed under its own key and id, with its own metadata, and against the
/// version that its intent names: two digits of the text make one byte, and the version whose
/// text it is comes out.
pub proof fn plan_keeps_each_namespace_apart(
    intents: &[NamespaceCommitIntent],
    idempotency_key: [u8; 16],
    r: Result<CommitPlan, IntentError>,
)
    requires
        call_ensures(plan_commit, (intents, idempotency_key), r),
    ensures
        r matches Ok(plan) ==> {
            &&& plan.idempotency_key@ == idempotency_key@
            &&& forall|i: int|
                0 <= i < intents@.len() ==> {
                    let ctx = #[trigger] plan.namespaces@[i];
                    let init = intents@[i].init;
                    &&& ctx.ns_key@ == init.ns_key@
                    &&& ctx.ns_id@ == intents@[i].ns_id@
                    &&& match (ctx.metadata, init.metadata) {
                        (Some(a), Some(b)) => a@ == b@,
                        (None, None) => true,
                        _ => false,
                    }
                    &&& init.version@.len() == 20
                    &&& forall|k: int|
                        0 <= k < 10 ==> #[trigger] ctx.client_assumed_version@[k] as int == 16
                            * crate::outside::hex_digit_value(init.version@[2 * k])
                            + crate::outside::hex_digit_value(init.version@[2 * k + 1])
                    &&& forall|version: &Version, text: String|
                        #[trigger] call_ensures(encode_version, (version,), text) && text@
                            == init.version@ ==> ctx.client_assumed_version@ == version@
                }
        },
{
    if r is Ok {
        let plan = r->Ok_0;
        assert(first_intent_error(intents@, 0) is None);
        lemma_no_intent_error(intents@, 0);
        assert forall|i: int| 0 <= i < intents@.len() implies {
            let ctx = #[trigger] plan.namespaces@[i];
            let init = intents@[i].init;
            &&& ctx.ns_key@ == init.ns_key@
            &&& ctx.ns_id@ == intents@[i].ns_id@
            &&& match (ctx.metadata, init.metadata) {
                (Some(a), Some(b)) => a@ == b@,
                (None, None) => true,
                _ => false,
            }
            &&& init.version@.len() == 20
            &&& forall|k: int|
                0 <= k < 10 ==> #[trigger] ctx.client_assumed_version@[k] as int == 16
                    * crate::outside::hex_digit_value(init.version@[2 * k])
                    + crate::outside::hex_digit_value(init.version@[2 * k + 1])
            &&& forall|version: &Version, text: String|
                #[trigger] call_ensures(encode_version, (version,), text) && text@ == init.version@
                    ==> ctx.client_assumed_version@ == version@
        } by {
            let ctx = plan.namespaces@[i];
            let text = intents@[i].init.version@;
            assert(context_of(ctx, intents@[i]));
            assert(intent_error(intents@[i]) is None);
            assert forall|k: int| 0 <= k < 10 implies #[trigger] ctx.client_assumed_version@[k]
                as int == 16 * crate::outside::hex_digit_value(text[2 * k])
                + crate::outside::hex_digit_value(text[2 * k + 1]) by {
                assert(crate::outside::is_hex_digit(text[2 * k]));
                assert(crate::outside::is_hex_digit(text[2 * k + 1]));
            }
            assert forall|version: &Version, t: String|
                #[trigger] call_ensures(encode_version, (version,), t) && t@ == text implies
                ctx.client_assumed_version@ == version@ by {
                crate::outside::hex_round_trip(version@);
            }
        }
    }
}

proof fn lemma_no_intent_error(intents: Seq<NamespaceCommitIntent>, i: int)
    requires
        0 <= i <= intents.len(),
        first_intent_error(intents, i) is None,
    ensures
        forall|j: int| i <= j < intents.len() ==> intent_error(#[trigger] intents[j]) is None,
    decreases intents.len() - i,
{
    if i < intents.len() {
        lemma_no_intent_error(intents, i + 1);
    }
}

proof fn lemma_first_intent_error(intents: Seq<NamespaceCommitIntent>, i: int)
    requires
        0 <= i <= intents.len(),
        first_intent_error(intents, i) is Some,
    ensures
        exists|k: int|
            {
                &&& i <= k < intents.len()
                &&& intent_error(#[trigger] intents[k]) == first_intent_error(intents, i)
                &&& forall|j: int| i <= j < k ==> intent_error(#[trigger] intents[j]) is None
            },
    decreases intents.len() - i,
{
    if i < intents.len() && intent_error(intents[i]) is None {
        lemma_first_intent_error(intents, i + 1);
        let k: int = choose|k: int|
            {
                &&& i + 1 <= k < intents.len()
                &&& intent_error(#[trigger] intents[k]) == first_intent_error(intents, i + 1)
                &&& forall|j: int| i + 1 <= j < k ==> intent_error(#[trigger] intents[j]) is None
            };
        assert(intent_error(intents[k]) == first_intent_error(intents, i));
    } else {
        assert(intent_error(intents[i]) == first_intent_error(intents, i));
    }
}

/// Intents can be committed exactly if there is one, every hash has 32 bytes, and every version
/// is twenty hexadecimal digits. Otherwise the first intent with which anything is wrong
/// decides, and its hashes before its version.
pub proof fn only_malformed_intents_are_refused(
    intents: &[NamespaceCommitIntent],
    idempotency_key: [u8; 16],
    r: Result<CommitPlan, IntentError>,
)
    requires
        call_ensures(plan_commit, (intents, idempotency_key), r),
    ensures
        ({
            let whole_hashes = |i: int|
                forall|j: int|
                    0 <= j < intents@[i].requests@.len() ==> (
                    #[trigger] intents@[i].requests@[j]).hash@.len() == 32;
            let whole_version = |i: int|
                intents@[i].init.version@.len() == 20 && forall|j: int|
                    0 <= j < 20 ==> crate::outside::is_hex_digit(
                        #[trigger] intents@[i].init.version@[j],
                    );
            match r {
                Ok(_) => intents@.len() > 0 && forall|i: int|
                    0 <= i < intents@.len() ==> #[trigger] whole_hashes(i) && whole_version(i),
                Err(IntentError::NoIntents) => intents@.len() == 0,
                Err(IntentError::InvalidHashLength) => exists|k: int|
                    {
                        &&& 0 <= k < intents@.len()
                        &&& !#[trigger] whole_hashes(k)
                        &&& forall|i: int|
                            0 <= i < k ==> #[trigger] whole_hashes(i) && whole_version(i)
                    },
                Err(IntentError::InvalidVersion) => exists|k: int|
                    {
                        &&& 0 <= k < intents@.len()
                        &&& #[trigger] whole_hashes(k)
                        &&& !whole_version(k)
                        &&& forall|i: int|
                            0 <= i < k ==> #[trigger] whole_hashes(i) && whole_version(i)
                    },
            }
        }),
{
    let whole_hashes = |i: int|
        forall|j: int|
            0 <= j < intents@[i].requests@.len() ==> (
            #[trigger] intents@[i].requests@[j]).hash@.len() == 32;
    let whole_version = |i: int|
        intents@[i].init.version@.len() == 20 && forall|j: int|
            0 <= j < 20 ==> crate::outside::is_hex_digit(#[trigger] intents@[i].init.version@[j]);
    assert forall|i: int| 0 <= i < intents@.len() implies intent_error(#[trigger] intents@[i])
        == if !whole_hashes(i) {
        Some(IntentError::InvalidHashLength)
    } else if !whole_version(i) {
        Some(IntentError::InvalidVersion)
    } else {
        None
    } by {}
    if intents@.len() > 0 {
        if first_intent_error(intents@, 0) is None {
            lemma_no_intent_error(intents@, 0);
        } else {
            lemma_first_intent_error(intents@, 0);
            let k: int = choose|k: int|
                {
                    &&& 0 <= k < intents@.len()
                    &&& intent_error(#[trigger] intents@[k]) == first_intent_error(intents@, 0)
                    &&& forall|j: int| 0 <= j < k ==> intent_error(#[trigger] intents@[j]) is None
                };
            assert forall|i: int| 0 <= i < k implies #[trigger] whole_hashes(i) && whole_version(
                i,
            ) by {
                assert(intent_error(intents@[i]) is None);
            }
            assert(whole_hashes(k) || !whole_hashes(k));
        }
        assert forall|i: int|
            0 <= i < intents@.len() && first_intent_error(
                intents@,
                0,
            ) is None implies #[trigger] whole_hashes(i) && whole_version(i) by {
            assert(intent_error(intents@[i]) is None);
        }
    }
}

/// A commit hands the store every page of an intent under its hash, and, in the same order, the
/// contents of those pages that carry one, each marked with its page. It counts the pages of all
/// intents, in 64 bits.
pub proof fn plan_hands_on_pages_in_order(
    intents: &[NamespaceCommitIntent],
    idempotency_key: [u8; 16],
    r: Result<CommitPlan, IntentError>,
)
    requires
        call_ensures(plan_commit, (intents, idempotency_key), r),
    ensures
        r matches Ok(plan) ==> {
            &&& forall|i: int|
                0 <= i < intents@.len() ==> {
                    let ctx = #[trigger] plan.namespaces@[i];
                    let requests = intents@[i].requests@;
                    &&& ctx.index_writes@.len() == requests.len()
                    &&& forall|k: int|
                        0 <= k < requests.len() ==> {
                            &&& (#[trigger] ctx.index_writes@[k]).0 == requests[k].page_index
                            &&& ctx.index_writes@[k].1@ == requests[k].hash@
                        }
                    &&& ctx.page_writes@.map_values(
                        |w: WriteRequest| (w.data@, w.delta_base),
                    ) == requests.filter_map(
                        |req: CommitRequest|
                            match req.data {
                                Some(data) => Some(
                                    (crate::outside::buffer_bytes(data), Some(req.page_index)),
                                ),
                                None => None,
                            },
                    )
                }
            &&& plan.num_pages as int == intents@.fold_left(
                0,
                |total: int, intent: NamespaceCommitIntent| total + intent.requests@.len(),
            ) % 0x1_0000_0000_0000_0000
        },
{
    if r is Ok {
        let plan = r->Ok_0;
        assert forall|i: int| 0 <= i < intents@.len() implies {
            let ctx = #[trigger] plan.namespaces@[i];
            let requests = intents@[i].requests@;
            &&& ctx.index_writes@.len() == requests.len()
            &&& forall|k: int|
                0 <= k < requests.len() ==> {
                    &&& (#[trigger] ctx.index_writes@[k]).0 == requests[k].page_index
                    &&& ctx.index_writes@[k].1@ == requests[k].hash@
                }
            &&& ctx.page_writes@.map_values(|w: WriteRequest| (w.data@, w.delta_base))
                == requests.filter_map(
                |req: CommitRequest|
                    match req.data {
                        Some(data) => Some(
                            (crate::outside::buffer_bytes(data), Some(req.page_index)),
                        ),
                        None => None,
                    },
            )
        } by {
            let ctx = plan.namespaces@[i];
            let requests = intents@[i].requests@;
            assert(context_of(ctx, intents@[i]));
            lemma_carried_contents_in_order(requests, requests.len() as int);
            assert(requests.take(requests.len() as int) =~= requests);
            assert(write_contents(ctx.page_writes@) =~= ctx.page_writes@.map_values(
                |w: WriteRequest| (w.data@, w.delta_base),
            ));
        }
        lemma_page_total(intents@, intents@.len() as int);
        assert(intents@.take(intents@.len() as int) =~= intents@);
    }
}

proof fn lemma_carried_contents_in_order(requests: Seq<CommitRequest>, n: int)
    requires
        0 <= n <= requests.len(),
    ensures
        carried_contents(requests, n) == requests.take(n).filter_map(
            |req: CommitRequest|
                match req.data {
                    Some(data) => Some((crate::outside::buffer_bytes(data), Some(req.page_index))),
                    None => None,
                },
        ),
    decreases n,
{
    if n > 0 {
        lemma_carried_contents_in_order(requests, n - 1);
        assert(requests.take(n).drop_last() =~= requests.take(n - 1));
        let f = |req: CommitRequest|
            match req.data {
                Some(data) => Some((crate::outside::buffer_bytes(data), Some(req.page_index))),
                None => None,
            };
        assert(carried_contents(requests, n) =~= requests.take(n).filter_map(f));
    }
}

proof fn lemma_page_total(intents: Seq<NamespaceCommitIntent>, n: int)
    requires
        0 <= n <= intents.len(),
    ensures
        page_total(intents, n) as int == intents.take(n).fold_left(
            0,
            |total: int, intent: NamespaceCommitIntent| total + intent.requests@.len(),
        ),
    decreases n,
{
    reveal_with_fuel(Seq::fold_left, 2);
    if n > 0 {
        lemma_page_total(intents, n - 1);
        assert(intents.take(n).drop_last() =~= intents.take(n - 1));
    }
}

/// A commit under a key drawn at random is the commit of the same intents under any other key,
/// but for the key.
pub proof fn drawn_key_changes_nothing_else(
    client: &MultiVersionClient,
    intents: &[NamespaceCommitIntent],
    idempotency_key: [u8; 16],
    drawn: Result<CommitPlan, IntentError>,
    given: Result<CommitPlan, IntentError>,
)
    requires
        call_ensures(MultiVersionClient::apply_commit_intents, (client, intents), drawn),
        call_ensures(plan_commit, (intents, idempotency_key), given),
    ensures
        match (drawn, given) {
            (Ok(a), Ok(b)) => {
                &&& a.num_pages == b.num_pages
                &&& a.namespaces@.len() == b.namespaces@.len()
                &&& forall|i: int|
                    0 <= i < a.namespaces@.len() ==> {
                        let (x, y) = (#[trigger] a.namespaces@[i], b.namespaces@[i]);
                        &&& x.ns_key@ == y.ns_key@
                        &&& x.ns_id == y.ns_id
                        &&& x.client_assumed_version@ == y.client_assumed_version@
                        &&& x.use_read_set == y.use_read_set
                        &&& x.read_set@ == y.read_set@
                        &&& x.page_writes@.len() == y.page_writes@.len()
                        &&& forall|k: int|
                            0 <= k < x.page_writes@.len() ==> {
                                &&& (#[trigger] x.page_writes@[k]).data@ == y.page_writes@[k].data@
                                &&& x.page_writes@[k].delta_base == y.page_writes@[k].delta_base
                            }
                        &&& x.index_writes@.len() == y.index_writes@.len()
                        &&& forall|k: int|
                            0 <= k < x.index_writes@.len() ==> {
                                &&& (#[trigger] x.index_writes@[k]).0 == y.index_writes@[k].0
                                &&& x.index_writes@[k].1@ == y.index_writes@[k].1@
                            }
                        &&& match (x.metadata, y.metadata) {
                            (Some(s), Some(t)) => s@ == t@,
                            (None, None) => true,
                            _ => false,
                        }
                    }
            },
            (Err(a), Err(b)) => a == b,
            _ => false,
        },
{
    if drawn is Ok && given is Ok {
        let (a, b) = (drawn->Ok_0, given->Ok_0);
        assert forall|i: int| 0 <= i < a.namespaces@.len() implies {
            let (x, y) = (#[trigger] a.namespaces@[i], b.namespaces@[i]);
            &&& x.ns_key@ == y.ns_key@
            &&& x.ns_id == y.ns_id
            &&& x.client_assumed_version@ == y.client_assumed_version@
            &&& x.use_read_set == y.use_read_set
            &&& x.read_set@ == y.read_set@
            &&& x.page_writes@.len() == y.page_writes@.len()
            &&& forall|k: int|
                0 <= k < x.page_writes@.len() ==> {
                    &&& (#[trigger] x.page_writes@[k]).data@ == y.page_writes@[k].data@
                    &&& x.page_writes@[k].delta_base == y.page_writes@[k].delta_base
                }
            &&& x.index_writes@.len() == y.index_writes@.len()
            &&& forall|k: int|
                0 <= k < x.index_writes@.len() ==> {
                    &&& (#[trigger] x.index_writes@[k]).0 == y.index_writes@[k].0
                    &&& x.index_writes@[k].1@ == y.index_writes@[k].1@
                }
            &&& match (x.metadata, y.metadata) {
                (Some(s), Some(t)) => s@ == t@,
                (None, None) => true,
                _ => false,
            }
        } by {
            let (x, y) = (a.namespaces@[i], b.namespaces@[i]);
            assert(context_of(x, intents@[i]));
            assert(context_of(y, intents@[i]));
            let (s, t) = (write_contents(x.page_writes@), write_contents(y.page_writes@));
            assert(s == t);
            assert(s.len() == x.page_writes@.len() && t.len() == y.page_writes@.len());
            assert forall|k: int| 0 <= k < x.page_writes@.len() implies {
                &&& (#[trigger] x.page_writes@[k]).data@ == y.page_writes@[k].data@
                &&& x.page_writes@[k].delta_base == y.page_writes@[k].delta_base
            } by {
                assert(s[k] == t[k]);
            }
            assert forall|k: int| 0 <= k < x.index_writes@.len() implies {
                &&& (#[trigger] x.index_writes@[k]).0 == y.index_writes@[k].0
                &&& x.index_writes@[k].1@ == y.index_writes@[k].1@
            } by {
                assert(y.index_writes@[k].0 == intents@[i].requests@[k].page_index);
            }
        }
    }
}

/// Of all attempts at one commit, which is begun once, only the first may skip the check for an
/// earlier one. All of them hand the store the same namespaces under the same key, for the
/// owner of the lock that the client has.
pub proof fn later_attempts_never_skip_the_check<'a, 'b>(
    plan: &'b CommitPlan<'a>,
    client: &'b MultiVersionClient,
    begun: CommitAttempts,
    attempts: Seq<&mut CommitAttempts>,
    contexts: Seq<CommitContext<'a, 'b>>,
)
    requires
        call_ensures(CommitAttempts::new, (), begun),
        contexts.len() == attempts.len(),
        attempts.len() > 0,
        *attempts[0] == begun,
        forall|k: int|
            0 < k < attempts.len() ==> *#[trigger] attempts[k] == *final(attempts[k - 1]),
        forall|k: int|
            0 <= k < attempts.len() ==> call_ensures(
                CommitPlan::next_context,
                (plan, #[trigger] attempts[k], client),
                contexts[k],
            ),
    ensures
        forall|k: int|
            0 <= k < contexts.len() ==> {
                let ctx = #[trigger] contexts[k];
                &&& ctx.allow_skip_idempotency_check <==> k == 0
                &&& ctx.idempotency_key@ == plan.idempotency_key@
                &&& ctx.namespaces@ == plan.namespaces@
                &&& match (ctx.lock_owner, client@.lock_owner) {
                    (Some(a), Some(b)) => a@ == b@,
                    (None, None) => true,
                    _ => false,
                }
            },
{
    assert forall|k: int| 0 <= k < contexts.len() implies {
        let ctx = #[trigger] contexts[k];
        &&& ctx.allow_skip_idempotency_check <==> k == 0
        &&& ctx.idempotency_key@ == plan.idempotency_key@
        &&& ctx.namespaces@ == plan.namespaces@
        &&& match (ctx.lock_owner, client@.lock_owner) {
            (Some(a), Some(b)) => a@ == b@,
            (None, None) => true,
            _ => false,
        }
    } by {
        assert(call_ensures(CommitPlan::next_context, (plan, attempts[k], client), contexts[k]));
        if k > 0 {
            assert(call_ensures(
                CommitPlan::next_context,
                (plan, attempts[k - 1], client),
                contexts[k - 1],
            ));
            assert(*attempts[k] == *final(attempts[k - 1]));
        }
    }
}

/// An attempt that went through is reported as a commit of all pages at the version that the
/// store has given it; one that lost to another commit is reported as no commit; one that the
/// store refuses is never repeated; and one that failed is repeated exactly if the failure may
/// go away.
pub proof fn attempts_are_reported_for_what_they_are<'a, E>(
    plan: &CommitPlan<'a>,
    attempt: Result<CoreCommitResult, E>,
    causes: &[ErrorCause],
    duration: Duration,
    retryable: bool,
    r: RetryStep<Option<CommitResult>, CommitFailure<E>>,
)
    requires
        call_ensures(
            CommitPlan::<'a>::settle_attempt::<E>,
            (plan, attempt, causes, duration),
            r,
        ),
        call_ensures(crate::client::is_retryable, (causes,), retryable),
    ensures
        r is Retry <==> attempt is Err && retryable,
        r matches RetryStep::Done(Some(result)) ==> {
            &&& attempt matches Ok(CoreCommitResult::Committed { versionstamp, changelog })
            &&& result.changelog == changelog
            &&& result.num_pages == plan.num_pages
            &&& result.duration == duration
            &&& forall|text: &str, version: Result<Version, crate::version::InvalidVersion>|
                #[trigger] call_ensures(decode_version, (text,), version) && text@
                    == result.version@ ==> (version matches Ok(v) && v@ == versionstamp@)
        },
        r matches RetryStep::Done(committed) ==> (committed is None <==> attempt == Ok::<
            CoreCommitResult,
            E,
        >(CoreCommitResult::Conflict)),
        r matches RetryStep::Fail(CommitFailure::Refused(e)) ==> {
            ||| e is BadPageReference && attempt == Ok::<CoreCommitResult, E>(
                CoreCommitResult::BadPageReference,
            )
            ||| e is NamespaceNotDistinct && attempt == Ok::<CoreCommitResult, E>(
                CoreCommitResult::NamespaceNotDistinct,
            )
        },
        r matches RetryStep::Fail(CommitFailure::Store(e)) ==> attempt == Err::<
            CoreCommitResult,
            E,
        >(e),
        r is Done <==> (attempt matches Ok(result) && (result is Committed || result is Conflict)),
{
    match attempt {
        Ok(CoreCommitResult::Committed { versionstamp, .. }) => {
            crate::outside::hex_round_trip(versionstamp@);
        },
        _ => {},
    }
}

/// The key of a commit is made of the bytes that it is given, in order.
pub proof fn key_holds_its_bytes(bytes: &Vec<u8>, key: [u8; 16])
    requires
        bytes@.len() == 16,
        call_ensures(key_from_bytes, (bytes,), key),
    ensures
        forall|i: int| 0 <= i < 16 ==> #[trigger] key@[i] == bytes@[i],
{
}

} // verus!
