//! Lexicographic order of byte strings, and the numbers that byte strings
//! stand for when they are read most significant byte first.

use vstd::prelude::*;

verus! {

/// `a` and `b` agree on their first `k` bytes, and it is there that `a` proves smaller:
/// it ends while `b` goes on, or it holds the smaller byte.
pub open spec fn differs_at(a: Seq<u8>, b: Seq<u8>, k: int) -> bool {
    &&& 0 <= k <= a.len()
    &&& k < b.len()
    &&& forall|i: int| 0 <= i < k ==> #[trigger] a[i] == b[i]
    &&& k == a.len() || a[k] < b[k]
}

/// `a` comes strictly before `b` in lexicographic order.
pub open spec fn lex_lt(a: Seq<u8>, b: Seq<u8>) -> bool {
    exists|k: int| differs_at(a, b, k)
}

/// The number that `s` writes in base 256, most significant byte first.
pub open spec fn be_value(s: Seq<u8>) -> nat
    decreases s.len(),
{
    if s.len() == 0 {
        0
    } else {
        be_value(s.drop_last()) * 256 + s.last() as nat
    }
}

/// Whether `a` comes strictly before `b`.
pub fn bytes_lt(a: &[u8], b: &[u8]) -> (r: bool)
    ensures
        r == lex_lt(a@, b@),
{
    let mut i: usize = 0;
    while i < a.len() && i < b.len()
        invariant
            i <= a.len(),
            i <= b.len(),
            forall|j: int| 0 <= j < i ==> a@[j] == b@[j],
        decreases a.len() - i,
    {
        if a[i] < b[i] {
            assert(differs_at(a@, b@, i as int));
            return true;
        }
        if b[i] < a[i] {
            assert forall|k: int| !differs_at(a@, b@, k) by {
                if differs_at(a@, b@, k) {
                    assert(k <= i);
                }
            }
            return false;
        }
        i = i + 1;
    }
    proof {
        if i < b.len() {
            assert(differs_at(a@, b@, i as int));
        }
    }
    i < b.len()
}

/// Whether two byte strings are the same.
pub fn bytes_eq(a: &[u8], b: &[u8]) -> (r: bool)
    ensures
        r == (a@ == b@),
{
    if a.len() != b.len() {
        return false;
    }
    let mut i: usize = 0;
    while i < a.len()
        invariant
            i <= a.len(),
            a.len() == b.len(),
            forall|j: int| 0 <= j < i ==> a@[j] == b@[j],
        decreases a.len() - i,
    {
        if a[i] != b[i] {
            assert(a@[i as int] != b@[i as int]);
            return false;
        }
        i = i + 1;
    }
    assert(a@ =~= b@);
    true
}

/// The number that the first eight bytes write.
pub fn be_u64(s: &[u8]) -> (r: u64)
    requires
        s.len() >= 8,
    ensures
        r == be_value(s@.subrange(0, 8)),
{
    let mut r: u64 = 0;
    let mut i: usize = 0;
    while i < 8
        invariant
            i <= 8,
            s.len() >= 8,
            r == be_value(s@.subrange(0, i as int)),
            i == 0 ==> r < 0x1,
            i == 1 ==> r < 0x100,
            i == 2 ==> r < 0x1_0000,
            i == 3 ==> r < 0x100_0000,
            i == 4 ==> r < 0x1_0000_0000,
            i == 5 ==> r < 0x100_0000_0000,
            i == 6 ==> r < 0x1_0000_0000_0000,
            i == 7 ==> r < 0x100_0000_0000_0000,
        decreases 8 - i,
    {
        proof {
            be_value_push(s@.subrange(0, i as int), s@[i as int]);
            assert(s@.subrange(0, i as int + 1) =~= s@.subrange(0, i as int).push(s@[i as int]));
        }
        r = r * 0x100 + s[i] as u64;
        i = i + 1;
    }
    r
}

/// Lexicographic order is a strict total order: no byte string comes before itself,
/// of two different ones exactly one comes first, and the order is transitive.
pub proof fn lex_lt_is_strict_total_order(a: Seq<u8>, b: Seq<u8>, c: Seq<u8>)
    ensures
        !lex_lt(a, a),
        lex_lt(a, b) ==> !lex_lt(b, a),
        a != b ==> lex_lt(a, b) || lex_lt(b, a),
        lex_lt(a, b) && lex_lt(b, c) ==> lex_lt(a, c),
{
    lex_lt_total(a, b);
    if lex_lt(a, b) && lex_lt(b, a) {
        let k: int = choose|k: int| differs_at(a, b, k);
        let l: int = choose|l: int| differs_at(b, a, l);
        assert(k < l || l < k || k == l);
    }
    if lex_lt(a, b) && lex_lt(b, c) {
        let k: int = choose|k: int| differs_at(a, b, k);
        let l: int = choose|l: int| differs_at(b, c, l);
        if k <= l {
            assert(differs_at(a, c, k));
        } else {
            assert(differs_at(a, c, l));
        }
    }
}

proof fn lex_lt_total(a: Seq<u8>, b: Seq<u8>)
    ensures
        a != b ==> lex_lt(a, b) || lex_lt(b, a),
    decreases a.len(),
{
    if a.len() == 0 {
        if b.len() > 0 {
            assert(differs_at(a, b, 0));
        } else {
            assert(a =~= b);
        }
    } else if b.len() == 0 {
        assert(differs_at(b, a, 0));
    } else if a[0] < b[0] {
        assert(differs_at(a, b, 0));
    } else if b[0] < a[0] {
        assert(differs_at(b, a, 0));
    } else {
        let a1 = a.drop_first();
        let b1 = b.drop_first();
        lex_lt_total(a1, b1);
        if a1 == b1 {
            assert(a =~= seq![a[0]] + a1);
            assert(b =~= seq![b[0]] + b1);
        } else if lex_lt(a1, b1) {
            let k: int = choose|k: int| differs_at(a1, b1, k);
            assert(differs_at(a, b, k + 1)) by {
                assert forall|i: int| 0 <= i < k + 1 implies #[trigger] a[i] == b[i] by {
                    if i > 0 {
                        assert(a1[i - 1] == b1[i - 1]);
                    }
                }
            }
        } else {
            let k: int = choose|k: int| differs_at(b1, a1, k);
            assert(differs_at(b, a, k + 1)) by {
                assert forall|i: int| 0 <= i < k + 1 implies #[trigger] b[i] == a[i] by {
                    if i > 0 {
                        assert(b1[i - 1] == a1[i - 1]);
                    }
                }
            }
        }
    }
}

/// Byte strings of one length are ordered as the numbers that they write, and write the
/// same number only if they are the same.
pub proof fn lex_lt_is_numeric(a: Seq<u8>, b: Seq<u8>)
    requires
        a.len() == b.len(),
    ensures
        lex_lt(a, b) <==> be_value(a) < be_value(b),
        a == b <==> be_value(a) == be_value(b),
    decreases a.len(),
{
    if a.len() == 0 {
        assert(a =~= b);
        assert(!lex_lt(a, b));
    } else {
        let a1 = a.drop_last();
        let b1 = b.drop_last();
        lex_lt_is_numeric(a1, b1);
        let last: int = a.len() - 1;
        assert(a =~= a1.push(a[last]));
        assert(b =~= b1.push(b[last]));
        if lex_lt(a1, b1) {
            let k: int = choose|k: int| differs_at(a1, b1, k);
            assert(differs_at(a, b, k)) by {
                assert forall|i: int| 0 <= i < k implies #[trigger] a[i] == b[i] by {
                    assert(a1[i] == b1[i]);
                }
            }
        } else if a1 == b1 {
            if a[last] < b[last] {
                assert(differs_at(a, b, last)) by {
                    assert forall|i: int| 0 <= i < last implies #[trigger] a[i] == b[i] by {
                        assert(a1[i] == b1[i]);
                    }
                }
            } else if lex_lt(a, b) {
                let k: int = choose|k: int| differs_at(a, b, k);
                if k < last {
                    assert(a1[k] == b1[k]);
                }
                assert(false);
            }
        } else {
            lex_lt_total(a1, b1);
            let l: int = choose|l: int| differs_at(b1, a1, l);
            if lex_lt(a, b) {
                let k: int = choose|k: int| differs_at(a, b, k);
                if k < l {
                    assert(b1[k] == a1[k]);
                } else {
                    assert(a1[l] == a[l] && b1[l] == b[l]);
                }
                assert(false);
            }
        }
    }
}

/// The empty byte string writes zero, and one more byte makes the number 256 times larger.
pub proof fn be_value_push(s: Seq<u8>, b: u8)
    ensures
        be_value(Seq::<u8>::empty()) == 0,
        be_value(s.push(b)) == be_value(s) * 256 + b,
{
    assert(s.push(b).drop_last() =~= s);
}

/// `a` comes strictly before `b` in the order of strings, which is that of their bytes.
pub open spec fn text_lt(a: Seq<char>, b: Seq<char>) -> bool {
    lex_lt(vstd::utf8::encode_utf8(a), vstd::utf8::encode_utf8(b))
}

/// Whether a string comes strictly before another.
pub fn str_lt(a: &str, b: &str) -> (r: bool)
    ensures
        r == text_lt(a@, b@),
{
    bytes_lt(a.as_bytes(), b.as_bytes())
}

/// Whether two strings are the same.
pub fn str_eq(a: &str, b: &str) -> (r: bool)
    ensures
        r == (a@ == b@),
{
    proof {
        vstd::utf8::encode_utf8_decode_utf8(a@);
        vstd::utf8::encode_utf8_decode_utf8(b@);
    }
    bytes_eq(a.as_bytes(), b.as_bytes())
}

/// The order of strings is a strict total order.
pub proof fn text_lt_is_strict_total_order(a: Seq<char>, b: Seq<char>, c: Seq<char>)
    ensures
        !text_lt(a, a),
        text_lt(a, b) ==> !text_lt(b, a),
        a != b ==> text_lt(a, b) || text_lt(b, a),
        text_lt(a, b) && text_lt(b, c) ==> text_lt(a, c),
{
    vstd::utf8::encode_utf8_decode_utf8(a);
    vstd::utf8::encode_utf8_decode_utf8(b);
    lex_lt_is_strict_total_order(
        vstd::utf8::encode_utf8(a),
        vstd::utf8::encode_utf8(b),
        vstd::utf8::encode_utf8(c),
    );
}

/// The first place where two byte strings differ decides which comes first, whatever follows; and
/// one that goes on where the other ends comes later. Two byte strings are the same exactly if
/// they have the same bytes.
pub proof fn first_difference_decides(a: &[u8], b: &[u8], less: bool, same: bool, k: int)
    requires
        call_ensures(bytes_lt, (a, b), less),
        call_ensures(bytes_eq, (a, b), same),
        0 <= k <= a@.len(),
        k <= b@.len(),
        forall|i: int| 0 <= i < k ==> #[trigger] a@[i] == b@[i],
    ensures
        k < a@.len() && k < b@.len() && a@[k] < b@[k] ==> less && !same,
        k < a@.len() && k < b@.len() && b@[k] < a@[k] ==> !less && !same,
        k == a@.len() && k < b@.len() ==> less && !same,
        k < a@.len() && k == b@.len() ==> !less && !same,
        k == a@.len() && k == b@.len() ==> !less && same,
{
    if less {
        let l: int = choose|l: int| differs_at(a@, b@, l);
        if l < k && l < a@.len() {
            assert(a@[l] == b@[l]);
        }
        if k < l {
            assert(a@[k] == b@[k]);
        }
    }
    if k < b@.len() && (k == a@.len() || a@[k] < b@[k]) {
        assert(differs_at(a@, b@, k));
    }
    if k == a@.len() && k == b@.len() {
        assert(a@ =~= b@);
    }
    if k < a@.len() && k < b@.len() && a@[k] != b@[k] {
        assert(a@ != b@);
    }
}

/// Strings are ordered as the bytes that write them, and are the same exactly if these are.
pub proof fn strings_are_ordered_as_their_bytes(
    a: &str,
    b: &str,
    less: bool,
    same: bool,
    x: &[u8],
    y: &[u8],
    bytes_less: bool,
    bytes_same: bool,
)
    requires
        call_ensures(str_lt, (a, b), less),
        call_ensures(str_eq, (a, b), same),
        x@ == vstd::utf8::encode_utf8(a@),
        y@ == vstd::utf8::encode_utf8(b@),
        call_ensures(bytes_lt, (x, y), bytes_less),
        call_ensures(bytes_eq, (x, y), bytes_same),
    ensures
        less == bytes_less,
        same == bytes_same,
        same <==> a@ == b@,
{
    vstd::utf8::encode_utf8_decode_utf8(a@);
    vstd::utf8::encode_utf8_decode_utf8(b@);
}

/// Eight bytes write a number in base 256, the most significant first, and what follows them
/// does not count.
pub proof fn eight_bytes_write_a_number(s: &[u8], r: u64)
    requires
        s@.len() >= 8,
        call_ensures(be_u64, (s,), r),
    ensures
        r as int == s@[0] * 0x100_0000_0000_0000 + s@[1] * 0x1_0000_0000_0000 + s@[2]
            * 0x100_0000_0000 + s@[3] * 0x1_0000_0000 + s@[4] * 0x100_0000 + s@[5] * 0x1_0000
            + s@[6] * 0x100 + s@[7],
{
    let e = Seq::<u8>::empty();
    let s1 = e.push(s@[0]);
    let s2 = s1.push(s@[1]);
    let s3 = s2.push(s@[2]);
    let s4 = s3.push(s@[3]);
    let s5 = s4.push(s@[4]);
    let s6 = s5.push(s@[5]);
    let s7 = s6.push(s@[6]);
    be_value_push(e, s@[0]);
    be_value_push(s1, s@[1]);
    be_value_push(s2, s@[2]);
    be_value_push(s3, s@[3]);
    be_value_push(s4, s@[4]);
    be_value_push(s5, s@[5]);
    be_value_push(s6, s@[6]);
    be_value_push(s7, s@[7]);
    assert(s@.subrange(0, 8) =~= s7.push(s@[7]));
}

} // verus!
