//! Namespaces: creating them, finding them by key, and opening them for reading at a version.

use vstd::prelude::*;

use crate::outside::{
    content_hash, decode_hex, decode_hex_array, same_bytes_in_constant_time,
};
use crate::store::Core;
use crate::version::{decode_version, read_version_of, InvalidVersion, Version};

verus! {

#[derive(Debug, Clone, Copy, PartialEq, Eq, Structural)]
pub enum CreateNamespaceError {
    AlreadyExist,
}

impl CreateNamespaceError {
    /// The text of the error.
    pub fn message(&self) -> (r: String)
        ensures
            r@ == "AlreadyExist"@,
    {
        "AlreadyExist".to_owned()
    }
}

/// Another namespace, at some version, whose pages show through wherever a namespace has none
/// of its own.
pub struct NamespaceOverlayBase {
    /// The id of the other namespace, as hexadecimal text.
    pub ns_id: String,
    pub snapshot_version: String,
}

/// What is written down about a namespace.
pub struct NamespaceMetadata {
    /// The lock on the namespace, if there is one.
    pub lock: Option<String>,
    pub overlay_base: Option<NamespaceOverlayBase>,
}

impl NamespaceMetadata {
    /// What is written down about a namespace when it is created over a base: it is not
    /// locked.
    pub fn of_new_namespace(overlay_base: Option<NamespaceOverlayBase>) -> (r: Self)
        ensures
            r.lock is None,
            r.overlay_base == overlay_base,
    {
        NamespaceMetadata { lock: None, overlay_base }
    }
}

/// What is wrong with an overlay base.
#[derive(Debug, Clone, Copy, PartialEq, Eq, Structural)]
pub enum OverlayBaseError {
    InvalidNsId,
    InvalidSnapshotVersion,
}

impl OverlayBaseError {
    /// The text of the error.
    pub fn message(&self) -> (r: String)
        ensures
            r@ == match *self {
                OverlayBaseError::InvalidNsId => "overlay_base: invalid ns_id"@,
                OverlayBaseError::InvalidSnapshotVersion
                    => "overlay_base: invalid snapshot_version"@,
            },
    {
        match self {
            OverlayBaseError::InvalidNsId => "overlay_base: invalid ns_id".to_owned(),
            OverlayBaseError::InvalidSnapshotVersion
                => "overlay_base: invalid snapshot_version".to_owned(),
        }
    }
}

/// What is wrong with an overlay base, if anything is.
pub open spec fn overlay_base_error(base: Option<NamespaceOverlayBase>) -> Option<
    OverlayBaseError,
> {
    match base {
        None => None,
        Some(base) => if !crate::version::is_version_text(base.ns_id@) {
            Some(OverlayBaseError::InvalidNsId)
        } else if !crate::version::is_version_text(base.snapshot_version@) {
            Some(OverlayBaseError::InvalidSnapshotVersion)
        } else {
            None
        },
    }
}

/// What has just happened while a namespace is created.
pub enum CreateNamespaceEvent<'a> {
    /// The namespace was asked for, over this base.
    Requested(&'a Option<NamespaceOverlayBase>),
    /// The key of the namespace was read within the transaction.
    KeyRead { present: bool },
    /// The transaction was committed.
    Committed,
    /// The transaction could not be committed.
    CommitFailed,
    /// The database has made the transaction ready for another attempt.
    Recovered,
    /// The database has given up.
    StoreFailed,
}

/// What to do next while a namespace is created.
#[derive(Debug, Clone, Copy, PartialEq, Eq)]
pub enum CreateNamespaceStep {
    /// Read the key of the namespace, so that the commit conflicts with any other creation.
    ReadKey,
    /// Write the metadata under a key that ends in the commit version, write the commit
    /// version as the value of the namespace's key, and commit.
    WriteAndCommit { nsmd_placeholder: [u8; 10], nskey_placeholder: [u8; 14] },
    /// Ask the database whether to try again.
    Recover,
    /// The namespace exists now.
    Done,
    /// The overlay base is malformed.
    Malformed(OverlayBaseError),
    /// The namespace exists already.
    Refuse(CreateNamespaceError),
    /// Report the error of the database.
    Fail,
}

/// `placeholder` is all zeros: the database fills the version in, from the first byte on.
pub open spec fn is_blank(placeholder: Seq<u8>) -> bool {
    forall|i: int| 0 <= i < placeholder.len() ==> #[trigger] placeholder[i] == 0
}

/// `step` follows `event`.
pub open spec fn create_step(event: CreateNamespaceEvent, step: CreateNamespaceStep) -> bool {
    match event {
        CreateNamespaceEvent::Requested(base) => match overlay_base_error(*base) {
            Some(e) => step == CreateNamespaceStep::Malformed(e),
            None => step == CreateNamespaceStep::ReadKey,
        },
        CreateNamespaceEvent::KeyRead { present: true } => step == CreateNamespaceStep::Refuse(
            CreateNamespaceError::AlreadyExist,
        ),
        CreateNamespaceEvent::KeyRead { present: false } => {
            &&& step matches CreateNamespaceStep::WriteAndCommit {
                nsmd_placeholder,
                nskey_placeholder,
            }
            &&& is_blank(nsmd_placeholder@)
            &&& is_blank(nskey_placeholder@)
        },
        CreateNamespaceEvent::Committed => step == CreateNamespaceStep::Done,
        CreateNamespaceEvent::CommitFailed => step == CreateNamespaceStep::Recover,
        CreateNamespaceEvent::Recovered => step == CreateNamespaceStep::ReadKey,
        CreateNamespaceEvent::StoreFailed => step == CreateNamespaceStep::Fail,
    }
}

/// `event` can be what comes of `step`.
pub open spec fn create_answers(step: CreateNamespaceStep, event: CreateNamespaceEvent) -> bool {
    match step {
        CreateNamespaceStep::ReadKey => event is KeyRead || event is StoreFailed,
        CreateNamespaceStep::WriteAndCommit { .. } => event is Committed || event is CommitFailed,
        CreateNamespaceStep::Recover => event is Recovered || event is StoreFailed,
        _ => false,
    }
}

/// The steps follow the events, and each event answers the step before it.
pub open spec fn creates(
    events: Seq<CreateNamespaceEvent>,
    steps: Seq<CreateNamespaceStep>,
) -> bool {
    &&& events.len() == steps.len()
    &&& events.len() > 0
    &&& events[0] is Requested
    &&& forall|k: int| 0 <= k < events.len() ==> create_step(#[trigger] events[k], steps[k])
    &&& forall|k: int|
        0 < k < events.len() ==> create_answers(steps[k - 1], #[trigger] events[k])
}

impl Core {
    /// Goes on creating a namespace, after `event`.
    pub fn create_namespace(&self, event: CreateNamespaceEvent) -> (r: CreateNamespaceStep)
        ensures
            create_step(event, r),
    {
        match event {
            CreateNamespaceEvent::Requested(base) => match base {
                None => CreateNamespaceStep::ReadKey,
                Some(base) => {
                    if decode_version(base.ns_id.as_str()).is_err() {
                        CreateNamespaceStep::Malformed(OverlayBaseError::InvalidNsId)
                    } else if decode_version(base.snapshot_version.as_str()).is_err() {
                        CreateNamespaceStep::Malformed(OverlayBaseError::InvalidSnapshotVersion)
                    } else {
                        CreateNamespaceStep::ReadKey
                    }
                },
            },
            CreateNamespaceEvent::KeyRead { present } => if present {
                CreateNamespaceStep::Refuse(CreateNamespaceError::AlreadyExist)
            } else {
                CreateNamespaceStep::WriteAndCommit {
                    nsmd_placeholder: [0u8;10],
                    nskey_placeholder: [0u8;14],
                }
            },
            CreateNamespaceEvent::Committed => CreateNamespaceStep::Done,
            CreateNamespaceEvent::CommitFailed => CreateNamespaceStep::Recover,
            CreateNamespaceEvent::Recovered => CreateNamespaceStep::ReadKey,
            CreateNamespaceEvent::StoreFailed => CreateNamespaceStep::Fail,
        }
    }
}

/// A namespace is written only in a transaction that has found its key absent, and it is
/// reported as created only when such a transaction has committed.
pub proof fn namespace_is_created_only_if_absent(
    events: Seq<CreateNamespaceEvent>,
    steps: Seq<CreateNamespaceStep>,
    k: int,
)
    requires
        creates(events, steps),
        0 <= k < steps.len(),
    ensures
        steps[k] is WriteAndCommit ==> k > 0 && steps[k - 1] is ReadKey && events[k] == (
        CreateNamespaceEvent::KeyRead { present: false }),
        steps[k] is Done ==> k > 1 && steps[k - 1] is WriteAndCommit && events[k - 1] == (
        CreateNamespaceEvent::KeyRead { present: false }),
{
    assert(create_step(events[k], steps[k]));
    if k > 0 {
        assert(create_answers(steps[k - 1], events[k]));
        assert(create_step(events[k - 1], steps[k - 1]));
    }
    if k > 1 {
        assert(create_answers(steps[k - 2], events[k - 1]));
    }
}

/// A namespace whose key is found present is never written again in that run.
pub proof fn existing_namespace_is_left_alone(
    events: Seq<CreateNamespaceEvent>,
    steps: Seq<CreateNamespaceStep>,
    k: int,
)
    requires
        creates(events, steps),
        0 <= k < steps.len(),
        events[k] == (CreateNamespaceEvent::KeyRead { present: true }),
    ensures
        k == steps.len() - 1,
        steps[k] == CreateNamespaceStep::Refuse(CreateNamespaceError::AlreadyExist),
{
    assert(create_step(events[k], steps[k]));
    if k + 1 < events.len() {
        assert(create_answers(steps[k + 1 - 1], events[k + 1]));
    }
}

/// The first place from `i` on where `s` has a colon; the length of `s` if there is none.
pub open spec fn colon_from(s: Seq<char>, i: int) -> int
    decreases s.len() - i,
{
    if i >= s.len() || s[i] == ':' {
        i
    } else {
        colon_from(s, i + 1)
    }
}

/// The second of the parts into which colons divide a namespace key, if there is one: the
/// hash whose preimage a caller has to show.
pub open spec fn hashproof_segment(nskey: Seq<char>) -> Option<Seq<char>> {
    let first = colon_from(nskey, 0);
    if first < nskey.len() {
        Some(nskey.subrange(first + 1, colon_from(nskey, first + 1)))
    } else {
        None
    }
}

/// Why a caller may not use a namespace key.
#[derive(Debug, Clone, Copy, PartialEq, Eq, Structural)]
pub enum HashproofError {
    /// The key holds a hash that is not 64 hexadecimal digits.
    BadHash,
    /// The proof is not hexadecimal.
    BadProof,
    /// The hash of the proof is not the one that the key holds.
    Mismatch,
}

impl HashproofError {
    /// The text of the error.
    pub fn message(&self) -> (r: String)
        ensures
            r@ == match *self {
                HashproofError::BadHash => "hashproof_hash hex decode failed"@,
                HashproofError::BadProof => "hashproof hex decode failed"@,
                HashproofError::Mismatch => "hashproof mismatch"@,
            },
    {
        match self {
            HashproofError::BadHash => "hashproof_hash hex decode failed".to_owned(),
            HashproofError::BadProof => "hashproof hex decode failed".to_owned(),
            HashproofError::Mismatch => "hashproof mismatch".to_owned(),
        }
    }
}

/// What the key asks for: nothing, or the preimage of a hash.
pub open spec fn hash_asked_for(nskey: Seq<char>) -> Result<Option<Seq<u8>>, HashproofError> {
    match hashproof_segment(nskey) {
        None => Ok(None),
        Some(segment) => if crate::outside::is_hex(segment) && segment.len() == 64 {
            Ok(Some(crate::outside::hex_value(segment)))
        } else {
            Err(HashproofError::BadHash)
        },
    }
}

/// Why a caller who shows `hashproof` may not use the key, if that is so.
pub open spec fn hashproof_error(nskey: Seq<char>, hashproof: Seq<char>) -> Option<
    HashproofError,
> {
    match hash_asked_for(nskey) {
        Err(e) => Some(e),
        Ok(None) => None,
        Ok(Some(hash)) => if !crate::outside::is_hex(hashproof) {
            Some(HashproofError::BadProof)
        } else if crate::outside::blake3_hash(crate::outside::hex_value(hashproof)) != hash {
            Some(HashproofError::Mismatch)
        } else {
            None
        },
    }
}

fn find_colon(s: &str, from: usize) -> (r: usize)
    requires
        from <= s@.len(),
    ensures
        r == colon_from(s@, from as int),
        from <= r <= s@.len(),
{
    let n: usize = s.unicode_len();
    let mut i: usize = from;
    while i < n && s.get_char(i) != ':'
        invariant
            from <= i <= n,
            n == s@.len(),
            colon_from(s@, from as int) == colon_from(s@, i as int),
        decreases n - i,
    {
        i = i + 1;
    }
    i
}

/// What a namespace key asks its users for: nothing, or the preimage of a hash.
pub fn asked_hash(nskey: &str) -> (r: Result<Option<[u8; 32]>, HashproofError>)
    ensures
        match (r, hash_asked_for(nskey@)) {
            (Ok(Some(hash)), Ok(Some(asked))) => hash@ == asked,
            (Ok(None), Ok(None)) => true,
            (Err(e), Err(f)) => e == f,
            _ => false,
        },
{
    let n: usize = nskey.unicode_len();
    let first: usize = find_colon(nskey, 0);
    if first >= n {
        return Ok(None);
    }
    let second: usize = find_colon(nskey, first + 1);
    let segment = nskey.substring_char(first + 1, second);
    match decode_hex_array::<32>(segment) {
        Ok(hash) => Ok(Some(hash)),
        Err(_) => Err(HashproofError::BadHash),
    }
}

/// Whether a proof with this hash is the one asked for. The comparison takes the same time
/// wherever the two differ.
pub fn settle_hashproof(asked: &[u8; 32], hashed_proof: &[u8; 32]) -> (r: Result<
    (),
    HashproofError,
>)
    ensures
        r == if hashed_proof@ == asked@ {
            Ok::<(), HashproofError>(())
        } else {
            Err(HashproofError::Mismatch)
        },
{
    if same_bytes_in_constant_time(hashed_proof, asked) {
        Ok(())
    } else {
        Err(HashproofError::Mismatch)
    }
}

/// Why a lookup of a namespace key failed.
#[derive(Debug, Clone, Copy, PartialEq, Eq, Structural)]
pub enum LookupError {
    InvalidNamespaceId,
    TransactionFailed,
    TransactionCreationFailed,
}

impl LookupError {
    /// The text of the error.
    pub fn message(&self) -> (r: String)
        ensures
            r@ == "nskey lookup failed: "@ + match *self {
                LookupError::InvalidNamespaceId => "invalid namespace id"@,
                LookupError::TransactionFailed => "transaction failed"@,
                LookupError::TransactionCreationFailed => "transaction creation failed"@,
            },
    {
        let mut text = "nskey lookup failed: ".to_owned();
        text.append(
            match self {
                LookupError::InvalidNamespaceId => "invalid namespace id",
                LookupError::TransactionFailed => "transaction failed",
                LookupError::TransactionCreationFailed => "transaction creation failed",
            },
        );
        text
    }
}

impl Core {
    /// Whether a caller who shows `hashproof` may look the namespace key up. A caller who may
    /// not is told that there is no such namespace.
    pub fn lookup_nskey(&self, nskey: &str, hashproof: Option<&str>) -> (r: Result<
        (),
        HashproofError,
    >)
        ensures
            match hashproof_error(
                nskey@,
                crate::client::text_or_empty(crate::client::opt_str(hashproof)),
            ) {
                None => r is Ok,
                Some(e) => r == Err::<(), HashproofError>(e),
            },
    {
        let asked = match asked_hash(nskey) {
            Err(e) => return Err(e),
            Ok(None) => return Ok(()),
            Ok(Some(asked)) => asked,
        };
        let hashproof = match hashproof {
            Some(hashproof) => hashproof,
            None => {
                proof {
                    reveal_strlit("");
                    assert(""@ =~= Seq::<char>::empty());
                }
                ""
            },
        };
        let proof_bytes = match decode_hex(hashproof) {
            Ok(bytes) => bytes,
            Err(_) => return Err(HashproofError::BadProof),
        };
        settle_hashproof(&asked, &content_hash(proof_bytes.as_slice()))
    }

    /// The namespace that a lookup has found: nothing if the key is not there, and otherwise
    /// the id that is stored under it.
    pub fn found_namespace(&self, reply: Option<&[u8]>) -> (r: Result<
        Option<[u8; 10]>,
        LookupError,
    >)
        ensures
            match reply {
                None => r == Ok::<Option<[u8; 10]>, LookupError>(None),
                Some(value) => if value@.len() == 10 {
                    r matches Ok(Some(ns_id)) && ns_id@ == value@
                } else {
                    r == Err::<Option<[u8; 10]>, LookupError>(LookupError::InvalidNamespaceId)
                },
            },
    {
        let value = match reply {
            None => return Ok(None),
            Some(value) => value,
        };
        if value.len() != 10 {
            return Err(LookupError::InvalidNamespaceId);
        }
        let mut ns_id: [u8; 10] = [0u8;10];
        let mut i: usize = 0;
        while i < 10
            invariant
                i <= 10,
                value@.len() == 10,
                forall|j: int| 0 <= j < i ==> ns_id@[j] == value@[j],
            decreases 10 - i,
        {
            ns_id[i] = value[i];
            i = i + 1;
        }
        assert(ns_id@ =~= value@);
        Ok(Some(ns_id))
    }
}

/// What a caller is told of a namespace key, given whether the caller may look it up, and what
/// is stored under it. One who may not is told what everyone is told of a key that is not
/// there.
pub open spec fn lookup_answer(
    gate: Result<(), HashproofError>,
    reply: Option<Seq<u8>>,
) -> Result<Option<Seq<u8>>, LookupError> {
    match (gate, reply) {
        (Err(_), _) => Ok(None),
        (Ok(_), None) => Ok(None),
        (Ok(_), Some(value)) => if value.len() == 10 {
            Ok(Some(value))
        } else {
            Err(LookupError::InvalidNamespaceId)
        },
    }
}

/// The bytes of an optional value.
pub open spec fn opt_bytes(value: Option<&[u8]>) -> Option<Seq<u8>> {
    match value {
        Some(value) => Some(value@),
        None => None,
    }
}

/// An answer, with the namespace id as bytes.
pub open spec fn answer_bytes(answer: Result<Option<[u8; 10]>, LookupError>) -> Result<
    Option<Seq<u8>>,
    LookupError,
> {
    match answer {
        Ok(Some(ns_id)) => Ok(Some(ns_id@)),
        Ok(None) => Ok(None),
        Err(e) => Err(e),
    }
}

impl Core {
    /// The answer to the lookup of a namespace key.
    pub fn answer_lookup(&self, gate: Result<(), HashproofError>, reply: Option<&[u8]>) -> (r:
        Result<Option<[u8; 10]>, LookupError>)
        ensures
            answer_bytes(r) == lookup_answer(gate, opt_bytes(reply)),
    {
        match gate {
            Err(_) => Ok(None),
            Ok(_) => self.found_namespace(reply),
        }
    }
}

/// A caller who may not use a key cannot tell whether the namespace exists.
pub proof fn refused_caller_learns_nothing(
    nskey: Seq<char>,
    hashproof: Seq<char>,
    gate: Result<(), HashproofError>,
    reply: Option<Seq<u8>>,
)
    requires
        gate is Err <==> hashproof_error(nskey, hashproof) is Some,
        hashproof_error(nskey, hashproof) is Some,
    ensures
        lookup_answer(gate, reply) == lookup_answer(Ok(()), None),
{
}

/// A key without a colon asks for no proof.
pub proof fn plain_key_needs_no_proof(nskey: Seq<char>, hashproof: Seq<char>)
    requires
        !nskey.contains(':'),
    ensures
        hashproof_error(nskey, hashproof) is None,
{
    lemma_colon_from(nskey, 0);
    let i = colon_from(nskey, 0);
    if i < nskey.len() {
        assert(nskey[i] == ':');
    }
}

/// A key that holds the hash of a preimage can be used by whoever shows that preimage, and
/// by nobody who shows bytes with another hash.
pub proof fn only_the_preimage_opens_a_key(
    name: Seq<char>,
    hash: Seq<u8>,
    preimage: Seq<u8>,
)
    requires
        !name.contains(':'),
        hash.len() == 32,
    ensures
        hashproof_error(
            name.push(':') + crate::outside::hex_text(hash),
            crate::outside::hex_text(preimage),
        ) == if crate::outside::blake3_hash(preimage) == hash {
            None
        } else {
            Some(HashproofError::Mismatch)
        },
{
    let text = crate::outside::hex_text(hash);
    let nskey = name.push(':') + text;
    crate::outside::hex_round_trip(hash);
    crate::outside::hex_round_trip(preimage);
    lemma_colon_from(nskey, 0);
    let first = colon_from(nskey, 0);
    assert(first == name.len()) by {
        assert(nskey[name.len() as int] == ':');
        if first < name.len() {
            assert(nskey[first] == name[first]);
            assert(name.contains(':'));
        }
    }
    lemma_colon_from(nskey, first + 1);
    let second = colon_from(nskey, first + 1);
    assert(second == nskey.len()) by {
        if second < nskey.len() {
            assert(nskey[second] == text[second - first - 1]);
            assert(crate::outside::is_hex_digit(text[second - first - 1]));
        }
    }
    assert(nskey.subrange(first + 1, second) =~= text);
}

proof fn lemma_colon_from(s: Seq<char>, i: int)
    requires
        0 <= i <= s.len(),
    ensures
        i <= colon_from(s, i) <= s.len(),
        colon_from(s, i) < s.len() ==> s[colon_from(s, i)] == ':',
        forall|j: int| i <= j < colon_from(s, i) ==> s[j] != ':',
    decreases s.len() - i,
{
    if i < s.len() && s[i] != ':' {
        lemma_colon_from(s, i + 1);
    }
}

/// A transaction that is opened for reading at a version.
pub struct VersionedRead {
    pub version: Version,
    /// Whether the database may be read although it is locked, as a replica is.
    pub read_lock_aware: bool,
    /// Whether the database may hand out a read version without asking all its logs. That is
    /// safe: the version is checked against the one that was asked for.
    pub causal_read_risky: bool,
    /// Whether the database was asked for a read version in this transaction.
    pub grv_called: bool,
}

/// The database handed out a read version that is older than the version asked for.
#[derive(Debug, Clone, Copy, PartialEq, Eq, Structural)]
pub struct CausalReadFault;

impl CausalReadFault {
    /// The text of the error.
    pub fn message(&self) -> (r: String)
        ensures
            r@ == "fdb read version older than requested version - causal read fault?"@,
    {
        "fdb read version older than requested version - causal read fault?".to_owned()
    }
}

/// The database can read `version` at the read version `fdb_rv`. A replica is not held to
/// it.
pub open spec fn serves_version(read_only: bool, version: Seq<u8>, fdb_rv: i64) -> bool {
    read_only || crate::version::version_read_version(version) <= fdb_rv
}

impl Core {
    /// Opens a transaction for reading at `version`.
    pub fn create_versioned_read_txn(&self, version: &str) -> (r: Result<
        VersionedRead,
        InvalidVersion,
    >)
        ensures
            r is Ok <==> crate::version::is_version_text(version@),
            r matches Ok(read) ==> {
                &&& read.version@ == crate::outside::hex_value(version@)
                &&& read.read_lock_aware == (self.replica_tag is Some)
                &&& read.causal_read_risky
                &&& !read.grv_called
            },
    {
        match decode_version(version) {
            Err(e) => Err(e),
            Ok(version) => Ok(
                VersionedRead {
                    version,
                    read_lock_aware: self.is_read_only(),
                    causal_read_risky: true,
                    grv_called: false,
                },
            ),
        }
    }

    /// Takes in the read version that the database has handed out within the transaction. It
    /// can be used, and kept for other transactions at the same version, only if it serves
    /// the version.
    pub fn admit_read_version(&self, read: &mut VersionedRead, fdb_rv: i64) -> (r: Result<
        i64,
        CausalReadFault,
    >)
        ensures
            r == if serves_version(self.replica_tag is Some, old(read).version@, fdb_rv) {
                Ok::<i64, CausalReadFault>(fdb_rv)
            } else {
                Err(CausalReadFault)
            },
            *final(read) == (VersionedRead { grv_called: true, ..*old(read) }),
    {
        read.grv_called = true;
        if !self.is_read_only() && fdb_rv < read_version_of(&read.version) {
            Err(CausalReadFault)
        } else {
            Ok(fdb_rv)
        }
    }
}

impl VersionedRead {
    /// The read version to set on the transaction, given the one that was settled on: none,
    /// if the database has handed it out to this very transaction.
    pub fn read_version_to_set(&self, fdb_rv: i64) -> (r: Option<i64>)
        ensures
            r == if self.grv_called {
                None::<i64>
            } else {
                Some(fdb_rv)
            },
    {
        if self.grv_called {
            None
        } else {
            Some(fdb_rv)
        }
    }
}

/// Every read version that is kept serves the version under which it is kept.
pub open spec fn kept_versions_serve(read_only: bool, kept: Map<Seq<u8>, i64>) -> bool {
    forall|version: Seq<u8>| #[trigger]
        kept.contains_key(version) ==> serves_version(read_only, version, kept[version])
}

/// As long as only admitted read versions are kept, no transaction on a primary database ever
/// reads before the version that it was opened at: neither when it takes a read version that
/// was kept, nor when it takes its own.
pub proof fn reads_are_never_stale(
    kept: Map<Seq<u8>, i64>,
    version: Seq<u8>,
    admitted: i64,
)
    requires
        kept_versions_serve(false, kept),
        serves_version(false, version, admitted),
    ensures
        kept_versions_serve(false, kept.insert(version, admitted)),
        forall|v: Seq<u8>| #[trigger]
            kept.insert(version, admitted).contains_key(v)
                ==> crate::version::version_read_version(v) <= kept.insert(version, admitted)[v],
{
}

/// A caller who is not refused is told the id that is stored under the key, whatever its bytes
/// are, and that there is no namespace only if nothing is stored there. What is stored there is
/// an id exactly if it has ten bytes; anything else is an error, which no refused caller sees.
pub proof fn permitted_caller_gets_the_stored_id(
    core: &Core,
    gate: Result<(), HashproofError>,
    reply: Option<&[u8]>,
    r: Result<Option<[u8; 10]>, LookupError>,
)
    requires
        call_ensures(Core::answer_lookup, (core, gate, reply), r),
    ensures
        gate is Ok && reply is Some && reply->0@.len() == 10 ==> (r matches Ok(Some(ns_id))
            && ns_id@ == reply->0@),
        (r matches Ok(found) && found is None) <==> gate is Err || reply is None,
        r matches Ok(Some(ns_id)) ==> gate is Ok && reply is Some && ns_id@ == reply->0@,
        r matches Err(e) ==> {
            &&& e == LookupError::InvalidNamespaceId
            &&& gate is Ok
            &&& reply is Some
            &&& reply->0@.len() != 10
        },
{
}

/// A lookup finds the id that is stored, if it has ten bytes, and nothing where nothing is.
pub proof fn lookup_finds_the_stored_id(
    core: &Core,
    reply: Option<&[u8]>,
    r: Result<Option<[u8; 10]>, LookupError>,
)
    requires
        call_ensures(Core::found_namespace, (core, reply), r),
    ensures
        (r matches Ok(found) && found is None) <==> reply is None,
        r matches Ok(Some(ns_id)) ==> reply is Some && ns_id@ == reply->0@,
        r matches Err(e) ==> {
            &&& e == LookupError::InvalidNamespaceId
            &&& reply is Some
            &&& reply->0@.len() != 10
        },
{
}

/// Two callers who may use a key are told the same of it, and what a refused caller is told
/// does not depend on what is stored.
pub proof fn answers_do_not_depend_on_why_a_caller_is_refused(
    core: &Core,
    gates: (HashproofError, HashproofError),
    replies: (Option<&[u8]>, Option<&[u8]>),
    r: (Result<Option<[u8; 10]>, LookupError>, Result<Option<[u8; 10]>, LookupError>),
    absent: Result<Option<[u8; 10]>, LookupError>,
)
    requires
        call_ensures(Core::answer_lookup, (core, Err(gates.0), replies.0), r.0),
        call_ensures(Core::answer_lookup, (core, Err(gates.1), replies.1), r.1),
        call_ensures(Core::answer_lookup, (core, Ok(()), None), absent),
    ensures
        r.0 == r.1,
        r.0 == absent,
{
}

/// The preimage that a key asks for is the one whose hash stands in it.
pub proof fn key_asks_for_the_hash_that_it_holds(
    nskey: &str,
    r: Result<Option<[u8; 32]>, HashproofError>,
    name: Seq<char>,
    hash: Seq<u8>,
)
    requires
        call_ensures(asked_hash, (nskey,), r),
        forall|i: int| 0 <= i < name.len() ==> #[trigger] name[i] != ':',
        hash.len() == 32,
    ensures
        nskey@ == name ==> (r matches Ok(asked) && asked is None),
        nskey@ == name.push(':') + crate::outside::hex_text(hash) ==> (r matches Ok(Some(asked))
            && asked@ == hash),
{
    let text = crate::outside::hex_text(hash);
    crate::outside::hex_round_trip(hash);
    if nskey@ =~= name {
        lemma_colon_from(nskey@, 0);
    } else if nskey@ =~= name.push(':') + text {
        let key = nskey@;
        let n: int = name.len() as int;
        lemma_colon_from(key, 0);
        assert(key[n] == ':');
        assert(colon_from(key, 0) == n) by {
            let first = colon_from(key, 0);
            if first < n {
                assert(key[first] == name[first]);
            }
        }
        lemma_colon_from(key, n + 1);
        let second = colon_from(key, n + 1);
        assert(second == key.len()) by {
            if second < key.len() {
                assert(key[second] == text[second - n - 1]);
                assert(crate::outside::is_hex_digit(text[second - n - 1]));
            }
        }
        assert(key.subrange(n + 1, second) =~= text);
    }
}

/// A proof is accepted exactly if its hash is the one asked for.
pub proof fn only_the_hash_asked_for_is_accepted(
    asked: &[u8; 32],
    hashed_proof: &[u8; 32],
    r: Result<(), HashproofError>,
)
    requires
        call_ensures(settle_hashproof, (asked, hashed_proof), r),
    ensures
        r is Ok <==> forall|i: int| 0 <= i < 32 ==> #[trigger] asked@[i] == hashed_proof@[i],
        r matches Err(e) ==> e == HashproofError::Mismatch,
{
    if forall|i: int| 0 <= i < 32 ==> #[trigger] asked@[i] == hashed_proof@[i] {
        assert(asked@ =~= hashed_proof@);
    }
}

/// Creating a namespace, call by call. It is asked for over no base, or over one whose id and
/// version can be read; the id is looked at first. It is written exactly if its key was read and
/// found absent, under placeholders that are all zeros, and refused if it was found present. A
/// commit that failed is taken to the database, and only the database decides whether the key is
/// read anew.
pub proof fn namespace_is_created_step_by_step(
    core: &Core,
    event: CreateNamespaceEvent,
    r: CreateNamespaceStep,
    ns_id: Result<Version, InvalidVersion>,
    snapshot: Result<Version, InvalidVersion>,
    texts: (&str, &str),
)
    requires
        call_ensures(Core::create_namespace, (core, event), r),
        call_ensures(decode_version, (texts.0,), ns_id),
        call_ensures(decode_version, (texts.1,), snapshot),
    ensures
        match event {
            CreateNamespaceEvent::Requested(base) => match *base {
                None => r == CreateNamespaceStep::ReadKey,
                Some(base) => texts.0@ == base.ns_id@ && texts.1@ == base.snapshot_version@ ==> {
                    &&& r == CreateNamespaceStep::Malformed(OverlayBaseError::InvalidNsId)
                        <==> ns_id is Err
                    &&& r == CreateNamespaceStep::Malformed(
                        OverlayBaseError::InvalidSnapshotVersion,
                    ) <==> ns_id is Ok && snapshot is Err
                    &&& r == CreateNamespaceStep::ReadKey <==> ns_id is Ok && snapshot is Ok
                },
            },
            CreateNamespaceEvent::KeyRead { present } => {
                &&& present ==> r == CreateNamespaceStep::Refuse(CreateNamespaceError::AlreadyExist)
                &&& !present ==> {
                    &&& r matches CreateNamespaceStep::WriteAndCommit {
                        nsmd_placeholder,
                        nskey_placeholder,
                    }
                    &&& forall|i: int| 0 <= i < 10 ==> #[trigger] nsmd_placeholder@[i] == 0
                    &&& forall|i: int| 0 <= i < 14 ==> #[trigger] nskey_placeholder@[i] == 0
                }
            },
            CreateNamespaceEvent::Committed => r == CreateNamespaceStep::Done,
            CreateNamespaceEvent::CommitFailed => r == CreateNamespaceStep::Recover,
            CreateNamespaceEvent::Recovered => r == CreateNamespaceStep::ReadKey,
            CreateNamespaceEvent::StoreFailed => r == CreateNamespaceStep::Fail,
        },
{
}

/// A new namespace is not locked, and lies over the base that it was asked for.
pub proof fn new_namespace_is_not_locked(
    overlay_base: Option<NamespaceOverlayBase>,
    r: NamespaceMetadata,
)
    requires
        call_ensures(NamespaceMetadata::of_new_namespace, (overlay_base,), r),
    ensures
        r.lock is None,
        r.overlay_base is Some <==> overlay_base is Some,
        overlay_base matches Some(base) ==> r.overlay_base->0.ns_id@ == base.ns_id@
            && r.overlay_base->0.snapshot_version@ == base.snapshot_version@,
{
}

/// A transaction is opened for reading exactly at a version that can be read, and at that one.
/// On a primary database it takes a read version exactly if that is not older than the version;
/// a replica takes any. The version taken is the one handed out, and it is set on later
/// transactions only: the database has set it on this one.
pub proof fn read_version_is_never_older_than_the_version(
    core: &Core,
    text: &str,
    opened: Result<VersionedRead, InvalidVersion>,
    decoded: Result<Version, InvalidVersion>,
    read: &mut VersionedRead,
    fdb_rv: i64,
    admitted: Result<i64, CausalReadFault>,
    oldest: i64,
    kept: i64,
    set: (Option<i64>, Option<i64>),
)
    requires
        call_ensures(Core::create_versioned_read_txn, (core, text), opened),
        call_ensures(decode_version, (text,), decoded),
        opened matches Ok(open) ==> *old(read) == open,
        call_ensures(Core::admit_read_version, (core, read, fdb_rv), admitted),
        call_ensures(read_version_of, (&old(read).version,), oldest),
        call_ensures(VersionedRead::read_version_to_set, (&*old(read), kept), set.0),
        call_ensures(VersionedRead::read_version_to_set, (&*final(read), kept), set.1),
    ensures
        opened is Ok <==> decoded is Ok,
        opened matches Ok(open) ==> {
            &&& open.version@ == decoded->Ok_0@
            &&& open.read_lock_aware <==> core.replica_tag is Some
            &&& open.causal_read_risky
            &&& !open.grv_called
            &&& set.0 == Some(kept)
        },
        core.replica_tag is None ==> (admitted is Ok <==> oldest <= fdb_rv),
        core.replica_tag is Some ==> admitted is Ok,
        admitted matches Ok(rv) ==> rv == fdb_rv,
        set.1 is None,
        final(read).version@ == old(read).version@,
        final(read).read_lock_aware == old(read).read_lock_aware,
        final(read).causal_read_risky == old(read).causal_read_risky,
{
}

/// A key without a colon is open to everybody.
pub proof fn plain_key_is_open_to_everybody(
    core: &Core,
    nskey: &str,
    hashproof: Option<&str>,
    r: Result<(), HashproofError>,
)
    requires
        call_ensures(Core::lookup_nskey, (core, nskey, hashproof), r),
        forall|i: int| 0 <= i < nskey@.len() ==> #[trigger] nskey@[i] != ':',
    ensures
        r is Ok,
{
    lemma_colon_from(nskey@, 0);
}

/// Who may use a key with a colon: the part behind the first colon, up to the next one or the
/// end, has to be the 64 digits of a hash, and the caller has to show, in hexadecimal digits,
/// bytes with that hash; no proof is as good as an empty one. Of several reasons to refuse a
/// caller the first in this order is given.
pub proof fn key_is_open_to_whoever_shows_the_preimage(
    core: &Core,
    nskey: &str,
    hashproof: Option<&str>,
    shown: Seq<char>,
    r: Result<(), HashproofError>,
    name: Seq<char>,
    hash: Seq<char>,
    rest: Seq<char>,
)
    requires
        call_ensures(Core::lookup_nskey, (core, nskey, hashproof), r),
        nskey@ == name.push(':') + hash + rest,
        forall|i: int| 0 <= i < name.len() ==> #[trigger] name[i] != ':',
        forall|i: int| 0 <= i < hash.len() ==> #[trigger] hash[i] != ':',
        rest.len() == 0 || rest[0] == ':',
        match hashproof {
            Some(text) => shown == text@,
            None => shown.len() == 0,
        },
    ensures
        ({
            let good_hash = hash.len() == 64 && forall|i: int|
                0 <= i < hash.len() ==> crate::outside::is_hex_digit(#[trigger] hash[i]);
            let good_proof = shown.len() % 2 == 0 && forall|i: int|
                0 <= i < shown.len() ==> crate::outside::is_hex_digit(#[trigger] shown[i]);
            let asked = crate::outside::hex_value(hash);
            let proven = crate::outside::blake3_hash(crate::outside::hex_value(shown));
            &&& r is Ok <==> good_hash && good_proof && proven == asked
            &&& r matches Err(e) ==> match e {
                HashproofError::BadHash => !good_hash,
                HashproofError::BadProof => good_hash && !good_proof,
                HashproofError::Mismatch => good_hash && good_proof,
            }
        }),
{
    let key = nskey@;
    let n: int = name.len() as int;
    lemma_colon_from(key, 0);
    assert(key[n] == ':');
    assert(colon_from(key, 0) == n) by {
        let first = colon_from(key, 0);
        if first < n {
            assert(key[first] == name[first]);
        }
    }
    lemma_colon_from(key, n + 1);
    let second = colon_from(key, n + 1);
    assert(second == n + 1 + hash.len()) by {
        if second < n + 1 + hash.len() {
            assert(key[second] == hash[second - n - 1]);
        }
        if second > n + 1 + hash.len() {
            assert(key[n + 1 + hash.len()] == rest[0]);
        }
    }
    assert(key.subrange(n + 1, second) =~= hash);
    assert(crate::client::text_or_empty(crate::client::opt_str(hashproof)) =~= shown);
    assert(hashproof_segment(key) == Some(hash));
}

} // verus!
