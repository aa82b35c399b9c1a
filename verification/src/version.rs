//! Versions: ten bytes that order the commits of a database, and the decisions that
//! compare them.

use vstd::prelude::*;

use crate::order::{be_u64, bytes_lt};
use crate::outside::{decode_hex_array, encode_hex};

verus! {

/// A commit version: eight bytes of database version, then two of batch order.
pub type Version = [u8; 10];

/// The number that the first eight bytes of a version write.
pub open spec fn version_hi(v: Seq<u8>) -> nat {
    crate::order::be_value(v.subrange(0, 8))
}

/// The number that the last two bytes of a version write.
pub open spec fn version_lo(v: Seq<u8>) -> nat {
    crate::order::be_value(v.subrange(8, 10))
}

/// The version whose high part is `hi` and whose low part is `lo`.
pub fn version_from_parts(hi: u64, lo: u16) -> (r: Version)
    ensures
        version_hi(r@) == hi,
        version_lo(r@) == lo,
{
    let h6: u64 = hi / 0x100;
    let h5: u64 = h6 / 0x100;
    let h4: u64 = h5 / 0x100;
    let h3: u64 = h4 / 0x100;
    let h2: u64 = h3 / 0x100;
    let h1: u64 = h2 / 0x100;
    let h0: u64 = h1 / 0x100;
    let r: Version = [
        h0 as u8,
        (h1 % 0x100) as u8,
        (h2 % 0x100) as u8,
        (h3 % 0x100) as u8,
        (h4 % 0x100) as u8,
        (h5 % 0x100) as u8,
        (h6 % 0x100) as u8,
        (hi % 0x100) as u8,
        (lo / 0x100) as u8,
        (lo % 0x100) as u8,
    ];
    proof {
        lemma_be_value_8(r@.subrange(0, 8));
        lemma_be_value_2(r@.subrange(8, 10));
    }
    r
}

proof fn lemma_be_value_2(s: Seq<u8>)
    requires
        s.len() == 2,
    ensures
        crate::order::be_value(s) == s[0] * 0x100 + s[1],
{
    let e = Seq::<u8>::empty();
    crate::order::be_value_push(e, s[0]);
    crate::order::be_value_push(e.push(s[0]), s[1]);
    assert(s =~= e.push(s[0]).push(s[1]));
}

proof fn lemma_be_value_8(s: Seq<u8>)
    requires
        s.len() == 8,
    ensures
        crate::order::be_value(s) == s[0] * 0x100_0000_0000_0000 + s[1] * 0x1_0000_0000_0000 + s[2]
            * 0x100_0000_0000 + s[3] * 0x1_0000_0000 + s[4] * 0x100_0000 + s[5] * 0x1_0000 + s[6]
            * 0x100 + s[7],
{
    let e = Seq::<u8>::empty();
    let s1 = e.push(s[0]);
    let s2 = s1.push(s[1]);
    let s3 = s2.push(s[2]);
    let s4 = s3.push(s[3]);
    let s5 = s4.push(s[4]);
    let s6 = s5.push(s[5]);
    let s7 = s6.push(s[6]);
    crate::order::be_value_push(e, s[0]);
    crate::order::be_value_push(s1, s[1]);
    crate::order::be_value_push(s2, s[2]);
    crate::order::be_value_push(s3, s[3]);
    crate::order::be_value_push(s4, s[4]);
    crate::order::be_value_push(s5, s[5]);
    crate::order::be_value_push(s6, s[6]);
    crate::order::be_value_push(s7, s[7]);
    assert(s =~= s7.push(s[7]));
}

/// Whether a resource whose version is now `current` changed after a transaction saw it
/// at `observed`.
pub fn version_conflicts(current: Version, observed: Version) -> (r: bool)
    ensures
        r == crate::order::lex_lt(observed@, current@),
{
    bytes_lt(observed.as_slice(), current.as_slice())
}

/// The comparison of versions for callers that pass each version as two numbers: 1 if
/// `current` conflicts with a transaction that saw `observed`, 0 if not.
pub fn mv_version_conflicts(
    current_hi: u64,
    current_lo: u16,
    observed_hi: u64,
    observed_lo: u16,
) -> (r: u8)
    ensures
        r == 0 || r == 1,
        r == 1 <==> observed_hi < current_hi || (observed_hi == current_hi && observed_lo
            < current_lo),
{
    let current = version_from_parts(current_hi, current_lo);
    let observed = version_from_parts(observed_hi, observed_lo);
    proof {
        version_order_is_numeric(observed@, current@);
    }
    if version_conflicts(current, observed) {
        1
    } else {
        0
    }
}

/// Versions are ordered by their high parts, and by their low parts where these agree.
pub proof fn version_order_is_numeric(a: Seq<u8>, b: Seq<u8>)
    requires
        a.len() == 10,
        b.len() == 10,
    ensures
        crate::order::lex_lt(a, b) <==> version_hi(a) < version_hi(b) || (version_hi(a)
            == version_hi(b) && version_lo(a) < version_lo(b)),
        a == b <==> version_hi(a) == version_hi(b) && version_lo(a) == version_lo(b),
{
    crate::order::lex_lt_is_numeric(a, b);
    lemma_version_value(a);
    lemma_version_value(b);
}

proof fn lemma_version_value(v: Seq<u8>)
    requires
        v.len() == 10,
    ensures
        crate::order::be_value(v) == version_hi(v) * 0x1_0000 + version_lo(v),
        version_lo(v) < 0x1_0000,
{
    let hi = v.subrange(0, 8);
    crate::order::be_value_push(hi, v[8]);
    crate::order::be_value_push(hi.push(v[8]), v[9]);
    assert(v =~= hi.push(v[8]).push(v[9]));
    lemma_be_value_2(v.subrange(8, 10));
}

/// The first eight bytes of a version, read as the database reads a signed number.
pub open spec fn version_read_version(v: Seq<u8>) -> int {
    if version_hi(v) < 0x8000_0000_0000_0000 {
        version_hi(v) as int
    } else {
        version_hi(v) - 0x1_0000_0000_0000_0000
    }
}

/// The database read version that a commit version names.
pub fn read_version_of(v: &Version) -> (r: i64)
    ensures
        r == version_read_version(v@),
{
    let hi: u64 = be_u64(v.as_slice());
    assert(hi as i64 == if hi < 0x8000_0000_0000_0000 {
        hi as int
    } else {
        hi - 0x1_0000_0000_0000_0000
    }) by (bit_vector);
    hi as i64
}

/// A version that is not twenty hexadecimal digits.
#[derive(Debug, Clone, Copy, PartialEq, Eq, Structural)]
pub struct InvalidVersion;

impl InvalidVersion {
    /// The text of the error.
    pub fn message(&self) -> (r: String)
        ensures
            r@ == "invalid version"@,
    {
        "invalid version".to_owned()
    }
}

/// `text` writes a version.
pub open spec fn is_version_text(text: Seq<char>) -> bool {
    crate::outside::is_hex(text) && text.len() == 20
}

/// Reads a version from its hexadecimal text.
pub fn decode_version(text: &str) -> (r: Result<Version, InvalidVersion>)
    ensures
        r is Ok <==> is_version_text(text@),
        r matches Ok(v) ==> v@ == crate::outside::hex_value(text@),
{
    match decode_hex_array::<10>(text) {
        Ok(v) => Ok(v),
        Err(_) => Err(InvalidVersion),
    }
}

/// Writes a version as hexadecimal text.
pub fn encode_version(v: &Version) -> (r: String)
    ensures
        r@ == crate::outside::hex_text(v@),
{
    encode_hex(v.as_slice())
}

/// The text of a version is read back as that version.
pub proof fn version_text_round_trip(v: Version)
    ensures
        is_version_text(crate::outside::hex_text(v@)),
        crate::outside::hex_value(crate::outside::hex_text(v@)) == v@,
{
    crate::outside::hex_round_trip(v@);
}

/// The texts of versions, compared as strings, are in the order of the versions.
pub proof fn version_texts_are_ordered_as_versions(a: Version, b: Version)
    ensures
        crate::order::text_lt(crate::outside::hex_text(a@), crate::outside::hex_text(b@))
            <==> crate::order::lex_lt(a@, b@),
{
    let (s, t) = (crate::outside::hex_text(a@), crate::outside::hex_text(b@));
    crate::order::lex_lt_is_strict_total_order(a@, b@, a@);
    crate::order::text_lt_is_strict_total_order(s, t, s);
    if crate::order::lex_lt(a@, b@) {
        lemma_hex_text_keeps_order(a@, b@);
    } else if a@ != b@ {
        lemma_hex_text_keeps_order(b@, a@);
    }
}

proof fn lemma_hex_text_bytes(a: Seq<u8>)
    ensures
        vstd::utf8::encode_utf8(crate::outside::hex_text(a)).len() == 2 * a.len(),
        forall|i: int|
            0 <= i < 2 * a.len() ==> #[trigger] vstd::utf8::encode_utf8(
                crate::outside::hex_text(a),
            )[i] == crate::outside::hex_text(a)[i] as u8,
{
    let s = crate::outside::hex_text(a);
    crate::outside::hex_round_trip(a);
    assert forall|i: int| 0 <= i < s.len() implies '\0' <= #[trigger] s[i] <= '\u{7f}' by {
        assert(crate::outside::is_hex_digit(s[i]));
    }
    assert(vstd::utf8::is_ascii_chars(s));
    vstd::utf8::is_ascii_chars_encode_utf8(s);
}

proof fn lemma_hex_text_keeps_order(a: Seq<u8>, b: Seq<u8>)
    requires
        crate::order::lex_lt(a, b),
    ensures
        crate::order::text_lt(crate::outside::hex_text(a), crate::outside::hex_text(b)),
{
    let (s, t) = (crate::outside::hex_text(a), crate::outside::hex_text(b));
    let (x, y) = (vstd::utf8::encode_utf8(s), vstd::utf8::encode_utf8(t));
    lemma_hex_text_bytes(a);
    lemma_hex_text_bytes(b);
    let k: int = choose|k: int| crate::order::differs_at(a, b, k);
    assert forall|i: int| 0 <= i < 2 * k implies #[trigger] x[i] == y[i] by {
        assert(a[i / 2] == b[i / 2]);
        assert(s[i] == t[i]);
    }
    if k == a.len() {
        assert(crate::order::differs_at(x, y, 2 * k));
    } else {
        assert((2 * k) / 2 == k && (2 * k) % 2 == 0);
        assert((2 * k + 1) / 2 == k && (2 * k + 1) % 2 == 1);
        assert(x[2 * k] == s[2 * k] as u8 && y[2 * k] == t[2 * k] as u8);
        assert(x[2 * k + 1] == s[2 * k + 1] as u8 && y[2 * k + 1] == t[2 * k + 1] as u8);
        if a[k] as int / 16 < b[k] as int / 16 {
            assert(crate::order::differs_at(x, y, 2 * k));
        } else {
            assert forall|i: int| 0 <= i < 2 * k + 1 implies #[trigger] x[i] == y[i] by {
                if i == 2 * k {
                    assert(a[k] as int / 16 == b[k] as int / 16);
                }
            }
            assert(crate::order::differs_at(x, y, 2 * k + 1));
        }
    }
}

/// What a commit does about an earlier attempt of the same commit.
#[derive(Debug, Clone, Copy)]
pub enum IdempotencyDecision {
    /// Nothing stands in the way.
    Proceed,
    /// The namespace changed after the transaction read it.
    Conflict,
    /// The earlier attempt went through, at this version.
    AlreadyCommitted(Version),
}

/// `v` is the version with these parts where `present` is not zero, and absent where it is.
pub open spec fn optional_version(v: Option<Version>, present: u8, hi: u64, lo: u16) -> bool {
    match v {
        Some(v) => present != 0 && version_hi(v@) == hi && version_lo(v@) == lo,
        None => present == 0,
    }
}

fn version_if(present: u8, hi: u64, lo: u16) -> (r: Option<Version>)
    ensures
        optional_version(r, present, hi, lo),
{
    if present != 0 {
        Some(version_from_parts(hi, lo))
    } else {
        None
    }
}

/// `conflicts` answers every question, and the same question always in the same way.
pub open spec fn is_decision<F: Fn(bool, bool, Option<Version>, Version) -> bool>(
    conflicts: F,
) -> bool {
    &&& forall|a: bool, b: bool, c: Option<Version>, d: Version|
        call_requires(conflicts, (a, b, c, d))
    &&& forall|a: bool, b: bool, c: Option<Version>, d: Version, x: bool, y: bool|
        #![trigger call_ensures(conflicts, (a, b, c, d), x), call_ensures(
            conflicts,
            (a, b, c, d),
            y,
        )]
        call_ensures(conflicts, (a, b, c, d), x) && call_ensures(conflicts, (a, b, c, d), y) ==> x
            == y
}

/// What a commit does about an earlier attempt. A record of the attempt alone means that it
/// went through, at the version of the record, whatever else has happened since. Without a
/// record the commit goes on unless `conflicts` finds that the namespace has changed.
pub fn decide_idempotency_check<F: Fn(bool, bool, Option<Version>, Version) -> bool>(
    conflicts: F,
    maybe_committed: bool,
    plcc_enable_ns: bool,
    existing_idempotency_record: Option<Version>,
    existing_last_write_version: Option<Version>,
    client_assumed_version: Version,
) -> (r: IdempotencyDecision)
    requires
        is_decision(conflicts),
    ensures
        match existing_idempotency_record {
            Some(version) => r == IdempotencyDecision::AlreadyCommitted(version),
            None => {
                ||| {
                    &&& r == IdempotencyDecision::Conflict
                    &&& call_ensures(
                        conflicts,
                        (
                            maybe_committed,
                            plcc_enable_ns,
                            existing_last_write_version,
                            client_assumed_version,
                        ),
                        true,
                    )
                }
                ||| {
                    &&& r == IdempotencyDecision::Proceed
                    &&& call_ensures(
                        conflicts,
                        (
                            maybe_committed,
                            plcc_enable_ns,
                            existing_last_write_version,
                            client_assumed_version,
                        ),
                        false,
                    )
                }
            },
        },
{
    match existing_idempotency_record {
        Some(version) => IdempotencyDecision::AlreadyCommitted(version),
        None => if conflicts(
            maybe_committed,
            plcc_enable_ns,
            existing_last_write_version,
            client_assumed_version,
        ) {
            IdempotencyDecision::Conflict
        } else {
            IdempotencyDecision::Proceed
        },
    }
}

/// `r` is the number that reports what a commit does about an earlier attempt, for callers that
/// pass flags and versions as plain numbers.
pub open spec fn reports_decision<F: Fn(bool, bool, Option<Version>, Version) -> bool>(
    conflicts: F,
    maybe_committed: u8,
    plcc_enable_ns: u8,
    has_record: u8,
    has_lwv: u8,
    lwv_hi: u64,
    lwv_lo: u16,
    assumed_hi: u64,
    assumed_lo: u16,
    r: u8,
) -> bool {
    if has_record != 0 {
        r == 2
    } else {
        exists|maybe: bool, plcc: bool, lwv: Option<Version>, assumed: Version, conflict: bool|
            {
                &&& maybe == (maybe_committed != 0)
                &&& plcc == (plcc_enable_ns != 0)
                &&& optional_version(lwv, has_lwv, lwv_hi, lwv_lo)
                &&& version_hi(assumed@) == assumed_hi
                &&& version_lo(assumed@) == assumed_lo
                &&& #[trigger] call_ensures(conflicts, (maybe, plcc, lwv, assumed), conflict)
                &&& r == if conflict {
                    1u8
                } else {
                    0u8
                }
            }
    }
}

/// Decides about an earlier attempt and reports the decision as a number, for callers that pass
/// flags and versions as plain numbers: 0 to proceed, 1 for a conflict, 2 where the attempt is
/// already committed.
pub fn mv_decide_idempotency_check<F: Fn(bool, bool, Option<Version>, Version) -> bool>(
    conflicts: F,
    maybe_committed: u8,
    plcc_enable_ns: u8,
    has_existing_idempotency_record: u8,
    existing_idempotency_record_version_hi: u64,
    existing_idempotency_record_version_lo: u16,
    has_existing_lwv: u8,
    existing_lwv_hi: u64,
    existing_lwv_lo: u16,
    client_assumed_version_hi: u64,
    client_assumed_version_lo: u16,
) -> (r: u8)
    requires
        is_decision(conflicts),
    ensures
        r == 2 <==> has_existing_idempotency_record != 0,
        reports_decision(
            conflicts,
            maybe_committed,
            plcc_enable_ns,
            has_existing_idempotency_record,
            has_existing_lwv,
            existing_lwv_hi,
            existing_lwv_lo,
            client_assumed_version_hi,
            client_assumed_version_lo,
            r,
        ),
{
    let record = version_if(
        has_existing_idempotency_record,
        existing_idempotency_record_version_hi,
        existing_idempotency_record_version_lo,
    );
    let lwv = version_if(has_existing_lwv, existing_lwv_hi, existing_lwv_lo);
    let assumed = version_from_parts(client_assumed_version_hi, client_assumed_version_lo);
    let decision = decide_idempotency_check(
        conflicts,
        maybe_committed != 0,
        plcc_enable_ns != 0,
        record,
        lwv,
        assumed,
    );
    match decision {
        IdempotencyDecision::Proceed => 0,
        IdempotencyDecision::Conflict => 1,
        IdempotencyDecision::AlreadyCommitted(_) => 2,
    }
}

/// Two calls report the same decision if they agree on their arguments, except for which
/// nonzero value a set flag has, the version of the record, and the last write version where
/// there is none.
pub proof fn decision_depends_on_what_is_present<
    F: Fn(bool, bool, Option<Version>, Version) -> bool,
>(
    conflicts: F,
    maybe_committed: (u8, u8),
    plcc_enable_ns: (u8, u8),
    has_record: (u8, u8),
    has_lwv: (u8, u8),
    lwv_hi: (u64, u64),
    lwv_lo: (u16, u16),
    assumed_hi: u64,
    assumed_lo: u16,
    r: (u8, u8),
)
    requires
        is_decision(conflicts),
        (maybe_committed.0 != 0) == (maybe_committed.1 != 0),
        (plcc_enable_ns.0 != 0) == (plcc_enable_ns.1 != 0),
        (has_record.0 != 0) == (has_record.1 != 0),
        (has_lwv.0 != 0) == (has_lwv.1 != 0),
        has_lwv.0 != 0 ==> lwv_hi.0 == lwv_hi.1 && lwv_lo.0 == lwv_lo.1,
        reports_decision(
            conflicts,
            maybe_committed.0,
            plcc_enable_ns.0,
            has_record.0,
            has_lwv.0,
            lwv_hi.0,
            lwv_lo.0,
            assumed_hi,
            assumed_lo,
            r.0,
        ),
        reports_decision(
            conflicts,
            maybe_committed.1,
            plcc_enable_ns.1,
            has_record.1,
            has_lwv.1,
            lwv_hi.1,
            lwv_lo.1,
            assumed_hi,
            assumed_lo,
            r.1,
        ),
    ensures
        r.0 == r.1,
        r.0 <= 2,
        r.0 == 2 <==> has_record.0 != 0,
{
    if has_record.0 == 0 {
        let (m0, p0, l0, a0, c0) = choose|
            maybe: bool,
            plcc: bool,
            lwv: Option<Version>,
            assumed: Version,
            conflict: bool,
        |
            {
                &&& maybe == (maybe_committed.0 != 0)
                &&& plcc == (plcc_enable_ns.0 != 0)
                &&& optional_version(lwv, has_lwv.0, lwv_hi.0, lwv_lo.0)
                &&& version_hi(assumed@) == assumed_hi
                &&& version_lo(assumed@) == assumed_lo
                &&& #[trigger] call_ensures(conflicts, (maybe, plcc, lwv, assumed), conflict)
                &&& r.0 == if conflict {
                    1u8
                } else {
                    0u8
                }
            };
        let (m1, p1, l1, a1, c1) = choose|
            maybe: bool,
            plcc: bool,
            lwv: Option<Version>,
            assumed: Version,
            conflict: bool,
        |
            {
                &&& maybe == (maybe_committed.1 != 0)
                &&& plcc == (plcc_enable_ns.1 != 0)
                &&& optional_version(lwv, has_lwv.1, lwv_hi.1, lwv_lo.1)
                &&& version_hi(assumed@) == assumed_hi
                &&& version_lo(assumed@) == assumed_lo
                &&& #[trigger] call_ensures(conflicts, (maybe, plcc, lwv, assumed), conflict)
                &&& r.1 == if conflict {
                    1u8
                } else {
                    0u8
                }
            };
        lemma_parts_determine_version(a0, a1);
        if has_lwv.0 != 0 {
            lemma_parts_determine_version(l0->0, l1->0);
        }
        assert(l0 == l1);
        assert(call_ensures(conflicts, (m0, p0, l0, a0), c0));
        assert(call_ensures(conflicts, (m0, p0, l0, a0), c1));
    }
}

proof fn lemma_parts_determine_version(a: Version, b: Version)
    requires
        version_hi(a@) == version_hi(b@),
        version_lo(a@) == version_lo(b@),
    ensures
        a == b,
{
    version_order_is_numeric(a@, b@);
    assert forall|i: int| 0 <= i < 10 implies a[i] == b[i] by {
        assert(a@[i] == b@[i]);
    }
    assert(a =~= b);
}

/// A version is made of its parts: eight bytes of the one and two of the other, the most
/// significant first.
pub proof fn version_is_made_of_its_parts(hi: u64, lo: u16, r: Version)
    requires
        call_ensures(version_from_parts, (hi, lo), r),
    ensures
        hi as int == r@[0] * 0x100_0000_0000_0000 + r@[1] * 0x1_0000_0000_0000 + r@[2]
            * 0x100_0000_0000 + r@[3] * 0x1_0000_0000 + r@[4] * 0x100_0000 + r@[5] * 0x1_0000
            + r@[6] * 0x100 + r@[7],
        lo as int == r@[8] * 0x100 + r@[9],
{
    lemma_be_value_8(r@.subrange(0, 8));
    lemma_be_value_2(r@.subrange(8, 10));
}

/// A resource conflicts with a transaction exactly if its version is later than the one seen:
/// the first byte in which the two differ decides, and no version conflicts with itself.
pub proof fn only_a_later_version_conflicts(current: Version, observed: Version, r: bool, k: int)
    requires
        call_ensures(version_conflicts, (current, observed), r),
        0 <= k <= 10,
        forall|i: int| 0 <= i < k ==> #[trigger] current@[i] == observed@[i],
    ensures
        k < 10 && observed@[k] < current@[k] ==> r,
        k < 10 && current@[k] < observed@[k] ==> !r,
        k == 10 ==> !r,
{
    if k == 10 {
        assert(current@ =~= observed@);
        crate::order::lex_lt_is_strict_total_order(current@, current@, current@);
    } else if observed@[k] < current@[k] {
        assert(crate::order::differs_at(observed@, current@, k));
    } else if current@[k] < observed@[k] {
        assert(crate::order::differs_at(current@, observed@, k));
        crate::order::lex_lt_is_strict_total_order(current@, observed@, current@);
    }
}

/// Versions that are passed as numbers conflict exactly if the versions do that are made of
/// these numbers, and that is if the numbers do, the high ones first.
pub proof fn versions_as_numbers_conflict_alike(
    current: (u64, u16),
    observed: (u64, u16),
    versions: (Version, Version),
    conflicts: bool,
    r: u8,
)
    requires
        call_ensures(version_from_parts, (current.0, current.1), versions.0),
        call_ensures(version_from_parts, (observed.0, observed.1), versions.1),
        call_ensures(version_conflicts, (versions.0, versions.1), conflicts),
        call_ensures(mv_version_conflicts, (current.0, current.1, observed.0, observed.1), r),
    ensures
        conflicts ==> r == 1,
        !conflicts ==> r == 0,
        conflicts <==> observed.0 < current.0 || (observed.0 == current.0 && observed.1
            < current.1),
{
    version_order_is_numeric(versions.1@, versions.0@);
}

/// The read version of a version is its high part as a signed number, whatever its low part is.
pub proof fn read_version_is_the_high_part(hi: u64, lo: u16, v: Version, r: i64)
    requires
        call_ensures(version_from_parts, (hi, lo), v),
        call_ensures(read_version_of, (&v,), r),
    ensures
        hi < 0x8000_0000_0000_0000 ==> r == hi,
        hi >= 0x8000_0000_0000_0000 ==> r == hi - 0x1_0000_0000_0000_0000,
{
}

/// A version is written in twenty lower-case hexadecimal digits, and read back from them. Twenty
/// hexadecimal digits in either case, and nothing else, are read as a version, two digits for
/// each byte.
pub proof fn version_text_is_read_back(
    v: &Version,
    text: String,
    given: &str,
    read: Result<Version, InvalidVersion>,
)
    requires
        call_ensures(encode_version, (v,), text),
        call_ensures(decode_version, (given,), read),
    ensures
        text@.len() == 20,
        forall|i: int|
            0 <= i < 20 ==> '0' <= #[trigger] text@[i] <= '9' || 'a' <= text@[i] <= 'f',
        given@ == text@ ==> (read matches Ok(w) && w@ == v@),
        read is Ok <==> given@.len() == 20 && forall|i: int|
            0 <= i < given@.len() ==> crate::outside::is_hex_digit(#[trigger] given@[i]),
        read matches Ok(w) ==> forall|k: int|
            0 <= k < 10 ==> #[trigger] w@[k] as int == 16 * crate::outside::hex_digit_value(
                given@[2 * k],
            ) + crate::outside::hex_digit_value(given@[2 * k + 1]),
{
    crate::outside::hex_round_trip(v@);
    if read is Ok {
        let w = read->Ok_0;
        assert forall|k: int| 0 <= k < 10 implies #[trigger] w@[k] as int == 16
            * crate::outside::hex_digit_value(given@[2 * k]) + crate::outside::hex_digit_value(
            given@[2 * k + 1],
        ) by {
            assert(crate::outside::is_hex_digit(given@[2 * k]));
            assert(crate::outside::is_hex_digit(given@[2 * k + 1]));
        }
    }
}

/// A commit has gone through already exactly if there is a record of it, and then at the version
/// of the record, whatever else is known. Without a record it conflicts exactly if the namespace
/// is found to have changed.
pub proof fn record_decides_before_all_else<F: Fn(bool, bool, Option<Version>, Version) -> bool>(
    conflicts: F,
    maybe_committed: bool,
    plcc_enable_ns: bool,
    record: Option<Version>,
    last_write: Option<Version>,
    assumed: Version,
    changed: bool,
    r: IdempotencyDecision,
)
    requires
        is_decision(conflicts),
        call_ensures(conflicts, (maybe_committed, plcc_enable_ns, last_write, assumed), changed),
        call_ensures(
            decide_idempotency_check::<F>,
            (conflicts, maybe_committed, plcc_enable_ns, record, last_write, assumed),
            r,
        ),
    ensures
        r is AlreadyCommitted <==> record is Some,
        r matches IdempotencyDecision::AlreadyCommitted(version) ==> version@ == record->0@,
        record is None ==> (r is Conflict <==> changed),
        record is None ==> (r is Proceed <==> !changed),
{
}

/// The decision that is reported as a number is the decision on the same versions and flags.
pub proof fn number_reports_the_decision<F: Fn(bool, bool, Option<Version>, Version) -> bool>(
    conflicts: F,
    maybe_committed: u8,
    plcc_enable_ns: u8,
    has_record: u8,
    record: (u64, u16),
    has_lwv: u8,
    lwv: (u64, u16),
    assumed: (u64, u16),
    versions: (Version, Version, Version),
    decision: IdempotencyDecision,
    r: u8,
)
    requires
        is_decision(conflicts),
        call_ensures(version_from_parts, (record.0, record.1), versions.0),
        call_ensures(version_from_parts, (lwv.0, lwv.1), versions.1),
        call_ensures(version_from_parts, (assumed.0, assumed.1), versions.2),
        call_ensures(
            decide_idempotency_check::<F>,
            (
                conflicts,
                maybe_committed != 0,
                plcc_enable_ns != 0,
                if has_record != 0 {
                    Some(versions.0)
                } else {
                    None
                },
                if has_lwv != 0 {
                    Some(versions.1)
                } else {
                    None
                },
                versions.2,
            ),
            decision,
        ),
        call_ensures(
            mv_decide_idempotency_check::<F>,
            (
                conflicts,
                maybe_committed,
                plcc_enable_ns,
                has_record,
                record.0,
                record.1,
                has_lwv,
                lwv.0,
                lwv.1,
                assumed.0,
                assumed.1,
            ),
            r,
        ),
    ensures
        r == match decision {
            IdempotencyDecision::Proceed => 0u8,
            IdempotencyDecision::Conflict => 1u8,
            IdempotencyDecision::AlreadyCommitted(_) => 2u8,
        },
{
    if has_record == 0 {
        let (m, p, l, a, c) = choose|
            maybe: bool,
            plcc: bool,
            last: Option<Version>,
            seen: Version,
            conflict: bool,
        |
            {
                &&& maybe == (maybe_committed != 0)
                &&& plcc == (plcc_enable_ns != 0)
                &&& optional_version(last, has_lwv, lwv.0, lwv.1)
                &&& version_hi(seen@) == assumed.0
                &&& version_lo(seen@) == assumed.1
                &&& #[trigger] call_ensures(conflicts, (maybe, plcc, last, seen), conflict)
                &&& r == if conflict {
                    1u8
                } else {
                    0u8
                }
            };
        lemma_parts_determine_version(a, versions.2);
        if has_lwv != 0 {
            lemma_parts_determine_version(l->0, versions.1);
        }
        let last = if has_lwv != 0 {
            Some(versions.1)
        } else {
            None
        };
        assert(l == last);
        assert(call_ensures(conflicts, (m, p, last, versions.2), c));
        if decision is Conflict {
            assert(call_ensures(conflicts, (m, p, last, versions.2), true));
        } else {
            assert(call_ensures(conflicts, (m, p, last, versions.2), false));
        }
    }
}

} // verus!
