//! Object keys: the order in which an object walks its keys, and the reading
//! of a key as an array index.

use vstd::prelude::*;
use vstd::string::StringSliceAdditionalSpecFns;
use vstd::utf8::encode_utf8;

verus! {

/// `a` and `b` agree on their first `i` bytes, and at position `i` either `a`
/// has ended while `b` goes on, or `a` holds the smaller byte.
pub open spec fn bytes_part_at(a: Seq<u8>, b: Seq<u8>, i: int) -> bool {
    &&& 0 <= i <= a.len()
    &&& i < b.len()
    &&& forall|j: int| 0 <= j < i ==> a[j] == b[j]
    &&& i < a.len() ==> a[i] < b[i]
}

/// Lexicographic order on byte strings.
pub open spec fn bytes_before(a: Seq<u8>, b: Seq<u8>) -> bool {
    exists|i: int| bytes_part_at(a, b, i)
}

/// The order of object keys: keys are ordered as their UTF-8 encodings are,
/// byte by byte.
pub open spec fn key_before(a: Seq<char>, b: Seq<char>) -> bool {
    bytes_before(encode_utf8(a), encode_utf8(b))
}

/// How one key stands to another in the key order.
#[derive(Clone, Copy, Debug, PartialEq, Eq)]
pub enum KeyOrder {
    /// The one comes before the other.
    Before,
    /// The two are the same key.
    Same,
    /// The one comes after the other.
    After,
}

/// The key order on byte strings is transitive.
proof fn lemma_bytes_before_transitive(a: Seq<u8>, b: Seq<u8>, c: Seq<u8>)
    requires
        bytes_before(a, b),
        bytes_before(b, c),
    ensures
        bytes_before(a, c),
{
    let i = choose|i: int| bytes_part_at(a, b, i);
    let j = choose|j: int| bytes_part_at(b, c, j);
    let k = if i <= j { i } else { j };
    assert(bytes_part_at(a, c, k));
}

/// Two byte strings that agree on their first `i` bytes are the same, or one
/// comes before the other.
proof fn lemma_bytes_total_from(a: Seq<u8>, b: Seq<u8>, i: int)
    requires
        0 <= i <= a.len(),
        i <= b.len(),
        forall|j: int| 0 <= j < i ==> a[j] == b[j],
    ensures
        a == b || bytes_before(a, b) || bytes_before(b, a),
    decreases a.len() - i,
{
    if i == a.len() {
        if i == b.len() {
            assert(a =~= b);
        } else {
            assert(bytes_part_at(a, b, i));
        }
    } else if i == b.len() {
        assert(bytes_part_at(b, a, i));
    } else if a[i] < b[i] {
        assert(bytes_part_at(a, b, i));
    } else if b[i] < a[i] {
        assert(bytes_part_at(b, a, i));
    } else {
        lemma_bytes_total_from(a, b, i + 1);
    }
}

/// Of two different byte strings one comes before the other.
proof fn lemma_bytes_before_total(a: Seq<u8>, b: Seq<u8>)
    ensures
        a == b || bytes_before(a, b) || bytes_before(b, a),
{
    lemma_bytes_total_from(a, b, 0);
}

/// Two keys with the same encoding are the same key.
proof fn lemma_encoding_injective(a: Seq<char>, b: Seq<char>)
    requires
        encode_utf8(a) == encode_utf8(b),
    ensures
        a == b,
{
    vstd::utf8::encode_utf8_decode_utf8(a);
    vstd::utf8::encode_utf8_decode_utf8(b);
}

/// The key order is transitive.
pub proof fn lemma_key_before_transitive(a: Seq<char>, b: Seq<char>, c: Seq<char>)
    requires
        key_before(a, b),
        key_before(b, c),
    ensures
        key_before(a, c),
{
    lemma_bytes_before_transitive(encode_utf8(a), encode_utf8(b), encode_utf8(c));
}

/// Of two different keys one comes before the other, and only one; no key
/// comes before itself.
pub proof fn lemma_key_before_total(a: Seq<char>, b: Seq<char>)
    ensures
        a == b || key_before(a, b) || key_before(b, a),
        !(key_before(a, b) && key_before(b, a)),
        a == b ==> !key_before(a, b),
{
    lemma_bytes_before_total(encode_utf8(a), encode_utf8(b));
    if encode_utf8(a) == encode_utf8(b) {
        lemma_encoding_injective(a, b);
    }
}

/// Tells how `a` stands to `b` in the key order.
pub fn key_order(a: &str, b: &str) -> (r: KeyOrder)
    ensures
        r is Before <==> key_before(a@, b@),
        r is Same <==> a@ == b@,
        r is After <==> key_before(b@, a@),
{
    proof {
        lemma_key_before_total(a@, b@);
    }
    let x = a.as_bytes();
    let y = b.as_bytes();
    let mut i: usize = 0;
    while i < x.len() && i < y.len()
        invariant
            i <= x.len(),
            i <= y.len(),
            x@ == encode_utf8(a@),
            y@ == encode_utf8(b@),
            forall|j: int| 0 <= j < i ==> x@[j] == y@[j],
        decreases x.len() - i,
    {
        if x[i] < y[i] {
            assert(bytes_part_at(x@, y@, i as int));
            return KeyOrder::Before;
        }
        if y[i] < x[i] {
            assert(bytes_part_at(y@, x@, i as int));
            return KeyOrder::After;
        }
        i += 1;
    }
    if i < y.len() {
        assert(bytes_part_at(x@, y@, i as int));
        KeyOrder::Before
    } else if i < x.len() {
        assert(bytes_part_at(y@, x@, i as int));
        KeyOrder::After
    } else {
        assert(x@ =~= y@);
        KeyOrder::Same
    }
}

/// The number that a decimal digit stands for; 0 for any other character.
pub open spec fn digit_value(c: char) -> nat {
    if '0' <= c <= '9' {
        (c as u32 - '0' as u32) as nat
    } else {
        0
    }
}

/// The number that a string of decimal digits writes.
pub open spec fn decimal_value(digits: Seq<char>) -> nat
    decreases digits.len(),
{
    if digits.len() == 0 {
        0
    } else {
        decimal_value(digits.drop_last()) * 10 + digit_value(digits.last())
    }
}

/// One decimal digit or more, and nothing else.
pub open spec fn is_decimal(digits: Seq<char>) -> bool {
    &&& digits.len() > 0
    &&& forall|i: int| 0 <= i < digits.len() ==> '0' <= #[trigger] digits[i] <= '9'
}

/// The digits of a key: the key without one leading plus sign.
pub open spec fn key_digits(key: Seq<char>) -> Seq<char> {
    if key.len() > 0 && key[0] == '+' {
        key.drop_first()
    } else {
        key
    }
}

/// The array index that a key addresses: the key is an optional plus sign and
/// then decimal digits only, and the number they write fits an index. Any
/// other key addresses none.
pub open spec fn key_index(key: Seq<char>) -> Option<usize> {
    let digits = key_digits(key);
    if is_decimal(digits) && decimal_value(digits) <= usize::MAX {
        Some(decimal_value(digits) as usize)
    } else {
        None
    }
}

/// The first digits of a string write no more than the whole string.
proof fn lemma_decimal_value_prefix(digits: Seq<char>, n: int)
    requires
        0 <= n <= digits.len(),
    ensures
        decimal_value(digits.take(n)) <= decimal_value(digits),
    decreases digits.len() - n,
{
    if n == digits.len() {
        assert(digits.take(n) =~= digits);
    } else {
        lemma_decimal_value_prefix(digits, n + 1);
        assert(digits.take(n + 1).drop_last() =~= digits.take(n));
    }
}

/// The byte that writes the plus sign.
const PLUS: u8 = 0x2b;

/// The byte that writes the digit 0.
const ZERO: u8 = 0x30;

/// The byte that writes the digit 9.
const NINE: u8 = 0x39;

/// Reads a key as an array index.
pub fn parse_index(key: &str) -> (r: Option<usize>)
    ensures
        r == key_index(key@),
{
    if !key.is_ascii() {
        proof {
            let i = choose|i: int| 0 <= i < key@.len() && !('\0' <= #[trigger] key@[i] <= '\u{7f}');
            if key@.len() > 0 && key@[0] == '+' {
                assert(key@.drop_first()[i - 1] == key@[i]);
            }
        }
        return None;
    }
    let bytes = key.as_bytes();
    let start: usize = if bytes.len() > 0 && bytes[0] == PLUS { 1 } else { 0 };
    let ghost digits = key_digits(key@);
    if start == bytes.len() {
        return None;
    }
    let mut value: usize = 0;
    let mut i: usize = start;
    while i < bytes.len()
        invariant
            start <= i <= bytes.len(),
            bytes@.len() == key@.len(),
            forall|j: int| 0 <= j < key@.len() ==> key@[j] as u8 == bytes@[j],
            forall|j: int| 0 <= j < key@.len() ==> '\0' <= #[trigger] key@[j] <= '\u{7f}',
            digits == key@.skip(start as int),
            digits == key_digits(key@),
            forall|j: int| 0 <= j < i - start ==> '0' <= #[trigger] digits[j] <= '9',
            value == decimal_value(digits.take(i - start)),
        decreases bytes.len() - i,
    {
        let b = bytes[i];
        assert(digits[i - start] == key@[i as int]);
        if b < ZERO || b > NINE {
            return None;
        }
        let d: usize = (b - ZERO) as usize;
        proof {
            assert(digits.take(i + 1 - start).drop_last() =~= digits.take(i - start));
            lemma_decimal_value_prefix(digits, i + 1 - start);
        }
        if value > (usize::MAX - d) / 10 {
            return None;
        }
        value = value * 10 + d;
        i += 1;
    }
    assert(digits.take(i - start) =~= digits);
    Some(value)
}

} // verus!
