//! How texts and numbers are written down: UTF-8, decimal and hexadecimal digits, JSON strings and
//! SHA-256 digests.
use sha2::Digest;
use vstd::prelude::*;
use vstd::slice::slice_subrange;
use vstd::utf8::{decode_utf8, encode_scalar, encode_utf8, valid_utf8};

use crate::text::{chars_of, copy, string_of};

verus! {

// ---------------------------------------------------------------------------------------------
// UTF-8
// ---------------------------------------------------------------------------------------------

/// How many bytes a text takes in UTF-8.
pub open spec fn byte_len(s: Seq<char>) -> nat {
    encode_utf8(s).len()
}

/// How many bytes a character takes in UTF-8.
pub open spec fn char_width(c: char) -> nat {
    encode_scalar(c as u32).len()
}

pub proof fn lemma_encode_utf8_concat(a: Seq<char>, b: Seq<char>)
    ensures
        encode_utf8(a + b) == encode_utf8(a) + encode_utf8(b),
    decreases a.len(),
{
    if a.len() == 0 {
        assert(a + b =~= b);
        assert(encode_utf8(a) + encode_utf8(b) =~= encode_utf8(b));
    } else {
        assert((a + b).drop_first() =~= a.drop_first() + b);
        lemma_encode_utf8_concat(a.drop_first(), b);
        assert(encode_utf8(a + b) =~= encode_utf8(a) + encode_utf8(b));
    }
}

pub proof fn lemma_byte_len_push(s: Seq<char>, c: char)
    ensures
        byte_len(s.push(c)) == byte_len(s) + char_width(c),
        1 <= char_width(c) <= 4,
{
    lemma_encode_utf8_concat(s, seq![c]);
    assert(s + seq![c] =~= s.push(c));
    assert(seq![c].drop_first() =~= Seq::<char>::empty());
    assert(encode_utf8(seq![c]) =~= encode_scalar(c as u32) + encode_utf8(seq![c].drop_first()));
    assert(encode_utf8(Seq::<char>::empty()).len() == 0);
}

/// A text has no more characters than bytes.
pub proof fn lemma_chars_within_bytes(s: Seq<char>)
    ensures
        s.len() <= byte_len(s),
    decreases s.len(),
{
    if s.len() > 0 {
        lemma_chars_within_bytes(s.drop_last());
        lemma_byte_len_push(s.drop_last(), s.last());
        assert(s.drop_last().push(s.last()) =~= s);
    }
}

pub proof fn lemma_byte_len_take_monotone(s: Seq<char>, i: int, j: int)
    requires
        0 <= i <= j <= s.len(),
    ensures
        byte_len(s.take(i)) + (j - i) <= byte_len(s.take(j)),
    decreases j - i,
{
    if i < j {
        lemma_byte_len_take_monotone(s, i, j - 1);
        assert(s.take(j) =~= s.take(j - 1).push(s[j - 1]));
        lemma_byte_len_push(s.take(j - 1), s[j - 1]);
    }
}

/// How many bytes the character takes in UTF-8.
fn width_of(c: char) -> (r: usize)
    ensures
        r == char_width(c),
        1 <= r <= 4,
{
    let n: u32 = c as u32;
    if n < 0x80 {
        1
    } else if n < 0x800 {
        2
    } else if n < 0x10000 {
        3
    } else {
        4
    }
}

/// How many bytes the text takes in UTF-8.
pub fn byte_len_of(s: &str) -> (r: usize)
    ensures
        r == byte_len(s@),
{
    let bytes = s.as_bytes();
    bytes.len()
}

/// The most characters from the start of a text that fit into `max` bytes of UTF-8.
pub open spec fn fitting_chars(s: Seq<char>, max: nat) -> nat
    decreases s.len(),
{
    if byte_len(s) <= max || s.len() == 0 {
        s.len()
    } else {
        fitting_chars(s.drop_last(), max)
    }
}

/// What `fitting_chars` says: that many characters fit, and not one more.
pub proof fn fitting_chars_is_the_longest_prefix(s: Seq<char>, max: nat)
    ensures
        fitting_chars(s, max) <= s.len(),
        byte_len(s.take(fitting_chars(s, max) as int)) <= max,
        forall|k: int| fitting_chars(s, max) < k <= s.len() ==> byte_len(#[trigger] s.take(k)) > max,
    decreases s.len(),
{
    if byte_len(s) <= max || s.len() == 0 {
        assert(s.take(s.len() as int) =~= s);
        if s.len() == 0 {
            assert(encode_utf8(s).len() == 0);
        }
    } else {
        let shorter = s.drop_last();
        fitting_chars_is_the_longest_prefix(shorter, max);
        assert forall|k: int| fitting_chars(s, max) < k <= s.len() implies byte_len(#[trigger] s.take(k))
            > max by {
            if k == s.len() {
                assert(s.take(k) =~= s);
            } else {
                assert(shorter.take(k) =~= s.take(k));
            }
        }
        assert(shorter.take(fitting_chars(s, max) as int) =~= s.take(fitting_chars(s, max) as int));
    }
}

proof fn lemma_fitting_chars_unique(s: Seq<char>, max: nat, n: int)
    requires
        0 <= n <= s.len(),
        byte_len(s.take(n)) <= max,
        n < s.len() ==> byte_len(s.take(n + 1)) > max,
    ensures
        fitting_chars(s, max) == n,
{
    fitting_chars_is_the_longest_prefix(s, max);
    let m = fitting_chars(s, max) as int;
    if n < m {
        lemma_byte_len_take_monotone(s, n + 1, m);
    }
}

/// The characters from the start of a text that fit into `max` bytes of UTF-8.
pub fn fitting_prefix(s: &str, max: usize) -> (r: String)
    ensures
        r@ == s@.take(fitting_chars(s@, max as nat) as int),
{
    let chars = chars_of(s);
    let mut n: usize = 0;
    let mut used: usize = 0;
    assert(s@.take(0) =~= Seq::<char>::empty());
    assert(encode_utf8(s@.take(0)).len() == 0);
    while n < chars.len() && width_of(chars[n]) <= max - used
        invariant
            chars@ == s@,
            n <= chars@.len(),
            used <= max,
            used == byte_len(s@.take(n as int)),
        decreases chars@.len() - n,
    {
        proof {
            lemma_byte_len_push(s@.take(n as int), s@[n as int]);
            assert(s@.take(n + 1) =~= s@.take(n as int).push(s@[n as int]));
        }
        used = used + width_of(chars[n]);
        n = n + 1;
    }
    proof {
        if n < s@.len() {
            lemma_byte_len_push(s@.take(n as int), s@[n as int]);
            assert(s@.take(n + 1) =~= s@.take(n as int).push(s@[n as int]));
        }
        lemma_fitting_chars_unique(s@, max as nat, n as int);
    }
    let kept = slice_subrange(chars.as_slice(), 0, n);
    assert(kept@ =~= s@.take(n as int));
    string_of(kept)
}

/// A text cut to `max` bytes at a character boundary, with an ellipsis where something was cut.
pub open spec fn truncated_text(s: Seq<char>, max: nat) -> Seq<char> {
    if byte_len(s) <= max {
        s
    } else {
        s.take(fitting_chars(s, max) as int).push('\u{2026}')
    }
}

/// Cuts a text to `max_bytes` bytes at a character boundary and marks the cut with an ellipsis.
pub fn truncate_utf8(value: &str, max_bytes: usize) -> (r: String)
    ensures
        r@ == truncated_text(value@, max_bytes as nat),
{
    if byte_len_of(value) <= max_bytes {
        return copy(value);
    }
    let mut r = fitting_prefix(value, max_bytes);
    r.push('\u{2026}');
    r
}

/// What is kept of a truncated text fits the limit, and only the ellipsis comes on top.
pub proof fn truncation_keeps_the_limit(s: Seq<char>, max: nat)
    ensures
        byte_len(truncated_text(s, max)) <= max + 3,
        byte_len(s) <= max ==> truncated_text(s, max) == s,
        byte_len(s) > max ==> truncated_text(s, max).drop_last().is_prefix_of(s),
{
    if byte_len(s) > max {
        fitting_chars_is_the_longest_prefix(s, max);
        lemma_byte_len_push(s.take(fitting_chars(s, max) as int), '\u{2026}');
        assert(truncated_text(s, max).drop_last() =~= s.take(fitting_chars(s, max) as int));
    }
}

/// The text that the bytes encode, if they are UTF-8.
pub open spec fn utf8_text(bytes: Seq<u8>) -> Option<Seq<char>> {
    if valid_utf8(bytes) {
        Some(decode_utf8(bytes))
    } else {
        None
    }
}

/// Bytes are read as a text exactly if they are the encoding of that text.
pub proof fn texts_read_back(bytes: Seq<u8>)
    ensures
        forall|text: Seq<char>| utf8_text(bytes) == Some(text) <==> bytes == #[trigger] encode_utf8(text),
{
    assert forall|text: Seq<char>| utf8_text(bytes) == Some(text) <==> bytes == #[trigger] encode_utf8(
        text,
    ) by {
        if bytes == encode_utf8(text) {
            vstd::utf8::encode_utf8_valid_utf8(text);
            vstd::utf8::encode_utf8_decode_utf8(text);
        }
        if utf8_text(bytes) == Some(text) {
            vstd::utf8::decode_utf8_encode_utf8(bytes);
        }
    }
}

/// `std::str::from_utf8` succeeds exactly on valid UTF-8 and then gives a slice of those very bytes.
#[verifier::external_body]
fn str_from_utf8(bytes: &[u8]) -> (r: Option<&str>)
    ensures
        r is Some <==> valid_utf8(bytes@),
        r matches Some(s) ==> encode_utf8(s@) == bytes@,
{
    std::str::from_utf8(bytes).ok()
}

/// The text that the bytes encode, if they are UTF-8.
pub fn decode_text(bytes: &[u8]) -> (r: Option<String>)
    ensures
        crate::text::opt_text(r) == utf8_text(bytes@),
{
    match str_from_utf8(bytes) {
        Some(s) => {
            proof {
                vstd::utf8::encode_utf8_decode_utf8(s@);
            }
            Some(copy(s))
        },
        None => None,
    }
}

/// What `String::from_utf8_lossy` makes of bytes.
pub uninterp spec fn lossy_text(bytes: Seq<u8>) -> Seq<char>;

/// `String::from_utf8_lossy` gives a text that depends on the bytes alone, and the encoded text
/// itself where the bytes are valid UTF-8. How it replaces invalid sequences is left open.
#[verifier::external_body]
fn string_from_utf8_lossy(bytes: &[u8]) -> (r: String)
    ensures
        r@ == lossy_text(bytes@),
        valid_utf8(bytes@) ==> r@ == decode_utf8(bytes@),
{
    String::from_utf8_lossy(bytes).into_owned()
}

/// Bytes as a text to show: the encoded text where there is one, and otherwise what
/// `String::from_utf8_lossy` makes of them.
pub open spec fn shown_text(bytes: Seq<u8>) -> Seq<char> {
    if valid_utf8(bytes) {
        decode_utf8(bytes)
    } else {
        lossy_text(bytes)
    }
}

/// Bytes as a text to show.
pub fn show_bytes(bytes: &[u8]) -> (r: String)
    ensures
        r@ == shown_text(bytes@),
{
    string_from_utf8_lossy(bytes)
}

// ---------------------------------------------------------------------------------------------
// Digits
// ---------------------------------------------------------------------------------------------

/// The decimal digit for a number below ten.
pub open spec fn decimal_digit(n: nat) -> char {
    (0x30 + n) as char
}

/// A number in decimal, without leading zeros.
pub open spec fn decimal(n: nat) -> Seq<char>
    decreases n,
{
    if n < 10 {
        seq![decimal_digit(n)]
    } else {
        decimal(n / 10).push(decimal_digit(n % 10))
    }
}

/// A number in decimal, without leading zeros.
pub fn decimal_text(n: u64) -> (r: String)
    ensures
        r@ == decimal(n as nat),
    decreases n,
{
    let digit: char = (0x30u8 + (n % 10) as u8) as char;
    if n < 10 {
        let mut r: String = String::new();
        r.push(digit);
        assert(r@ =~= seq![decimal_digit(n as nat)]);
        r
    } else {
        let mut r = decimal_text(n / 10);
        r.push(digit);
        r
    }
}

/// A count in decimal, without leading zeros.
pub fn count_text(n: usize) -> (r: String)
    ensures
        r@ == decimal(n as nat),
{
    decimal_text(n as u64)
}

/// The number that decimal digits stand for.
pub open spec fn decimal_value(s: Seq<char>) -> nat
    decreases s.len(),
{
    if s.len() == 0 {
        0
    } else {
        decimal_value(s.drop_last()) * 10 + (s.last() as nat - 0x30) as nat
    }
}

/// Reading the decimal digits of a number gives the number back, so no two numbers share digits.
pub proof fn decimal_reads_back(n: nat)
    ensures
        decimal_value(decimal(n)) == n,
        decimal(n).len() >= 1,
        forall|i: int| 0 <= i < decimal(n).len() ==> '0' <= #[trigger] decimal(n)[i] <= '9',
    decreases n,
{
    if n < 10 {
        let s = decimal(n);
        assert(s.drop_last() =~= Seq::<char>::empty());
        assert(decimal_value(s.drop_last()) == 0);
    } else {
        decimal_reads_back(n / 10);
        let s = decimal(n);
        assert(s.drop_last() =~= decimal(n / 10));
    }
}

/// The hexadecimal digit for a number below sixteen.
pub open spec fn hex_digit(n: nat) -> char {
    if n < 10 {
        (0x30 + n) as char
    } else {
        (0x57 + n) as char
    }
}

fn hex_digit_of(n: u8) -> (r: char)
    requires
        n < 16,
    ensures
        r == hex_digit(n as nat),
{
    if n < 10 {
        (0x30u8 + n) as char
    } else {
        (0x57u8 + n) as char
    }
}

/// The lowest `width` hexadecimal digits of a number, with leading zeros.
pub open spec fn hex_padded(n: nat, width: nat) -> Seq<char>
    decreases width,
{
    if width == 0 {
        Seq::empty()
    } else {
        hex_padded(n / 16, (width - 1) as nat).push(hex_digit(n % 16))
    }
}

/// The lowest `width` hexadecimal digits of a number, with leading zeros.
pub fn hex_text(n: u128, width: usize) -> (r: String)
    ensures
        r@ == hex_padded(n as nat, width as nat),
    decreases width,
{
    if width == 0 {
        return String::new();
    }
    let mut r = hex_text(n / 16, width - 1);
    r.push(hex_digit_of((n % 16) as u8));
    r
}

pub proof fn lemma_hex_padded_len(n: nat, width: nat)
    ensures
        hex_padded(n, width).len() == width,
    decreases width,
{
    if width > 0 {
        lemma_hex_padded_len(n / 16, (width - 1) as nat);
    }
}

/// Whether a character is a lower-case hexadecimal digit.
pub open spec fn is_lower_hex(c: char) -> bool {
    ('0' <= c && c <= '9') || ('a' <= c && c <= 'f')
}

/// Padded hexadecimal numbers consist of hexadecimal digits.
pub proof fn hex_padded_is_hexadecimal(n: nat, width: nat)
    ensures
        forall|i: int| 0 <= i < width ==> is_lower_hex(#[trigger] hex_padded(n, width)[i]),
    decreases width,
{
    lemma_hex_padded_len(n, width);
    if width > 0 {
        lemma_hex_padded_len(n / 16, (width - 1) as nat);
        hex_padded_is_hexadecimal(n / 16, (width - 1) as nat);
        let s = hex_padded(n, width);
        assert forall|i: int| 0 <= i < width implies is_lower_hex(#[trigger] s[i]) by {
            if i < width - 1 {
                assert(s[i] == hex_padded(n / 16, (width - 1) as nat)[i]);
            }
        }
    }
}

/// The greatest number plus one that `width` hexadecimal digits can hold.
pub open spec fn hex_range(width: nat) -> nat
    decreases width,
{
    if width == 0 {
        1
    } else {
        16 * hex_range((width - 1) as nat)
    }
}

/// Two numbers that fit the width and have the same padded digits are the same number.
pub proof fn hex_padded_is_injective(a: nat, b: nat, width: nat)
    requires
        a < hex_range(width),
        b < hex_range(width),
        hex_padded(a, width) == hex_padded(b, width),
    ensures
        a == b,
    decreases width,
{
    if width > 0 {
        let w = (width - 1) as nat;
        lemma_hex_padded_len(a / 16, w);
        lemma_hex_padded_len(b / 16, w);
        let x = hex_padded(a, width);
        let y = hex_padded(b, width);
        assert(x.drop_last() =~= hex_padded(a / 16, w));
        assert(y.drop_last() =~= hex_padded(b / 16, w));
        assert(x.last() == hex_digit(a % 16));
        assert(y.last() == hex_digit(b % 16));
        assert(hex_digit(a % 16) as u32 == hex_digit(b % 16) as u32);
        assert(a % 16 == b % 16);
        assert(a / 16 < hex_range(w) && b / 16 < hex_range(w));
        hex_padded_is_injective(a / 16, b / 16, w);
    }
}

/// Bytes in lower-case hexadecimal, two digits each.
pub open spec fn hex_of_bytes(bytes: Seq<u8>) -> Seq<char>
    decreases bytes.len(),
{
    if bytes.len() == 0 {
        Seq::empty()
    } else {
        hex_of_bytes(bytes.drop_last()).push(hex_digit(bytes.last() as nat / 16)).push(
            hex_digit(bytes.last() as nat % 16),
        )
    }
}

/// Bytes in lower-case hexadecimal, two digits each.
pub fn hex_bytes(bytes: &[u8]) -> (r: String)
    ensures
        r@ == hex_of_bytes(bytes@),
{
    let mut r: String = String::new();
    let mut i: usize = 0;
    while i < bytes.len()
        invariant
            i <= bytes@.len(),
            r@ == hex_of_bytes(bytes@.take(i as int)),
        decreases bytes@.len() - i,
    {
        r.push(hex_digit_of(bytes[i] / 16));
        r.push(hex_digit_of(bytes[i] % 16));
        i = i + 1;
        assert(bytes@.take(i as int).drop_last() =~= bytes@.take(i - 1));
    }
    assert(bytes@.take(i as int) =~= bytes@);
    r
}

pub proof fn lemma_hex_of_bytes(bytes: Seq<u8>)
    ensures
        hex_of_bytes(bytes).len() == 2 * bytes.len(),
        forall|i: int| 0 <= i < hex_of_bytes(bytes).len() ==> is_lower_hex(#[trigger] hex_of_bytes(bytes)[i]),
    decreases bytes.len(),
{
    if bytes.len() > 0 {
        lemma_hex_of_bytes(bytes.drop_last());
        let s = hex_of_bytes(bytes);
        let before = hex_of_bytes(bytes.drop_last());
        assert forall|i: int| 0 <= i < s.len() implies is_lower_hex(#[trigger] s[i]) by {
            if i < before.len() {
                assert(s[i] == before[i]);
            }
        }
    }
}

// ---------------------------------------------------------------------------------------------
// SHA-256
// ---------------------------------------------------------------------------------------------

/// The SHA-256 digest of bytes.
pub uninterp spec fn sha256(bytes: Seq<u8>) -> Seq<u8>;

/// `sha2::Sha256` fed with the bytes finishes in a digest of 32 bytes that depends on them alone.
#[verifier::external_body]
fn sha256_digest(bytes: &[u8]) -> (r: Vec<u8>)
    ensures
        r@ == sha256(bytes@),
        r@.len() == 32,
{
    let mut hasher = sha2::Sha256::new();
    hasher.update(bytes);
    hasher.finalize().to_vec()
}

/// The SHA-256 digest of bytes in lower-case hexadecimal.
pub fn sha256_hex(bytes: &[u8]) -> (r: String)
    ensures
        r@ == hex_of_bytes(sha256(bytes@)),
        r@.len() == 64,
        forall|i: int| 0 <= i < 64 ==> is_lower_hex(#[trigger] r@[i]),
{
    let digest = sha256_digest(bytes);
    proof {
        lemma_hex_of_bytes(digest@);
    }
    hex_bytes(digest.as_slice())
}

// ---------------------------------------------------------------------------------------------
// ASCII
// ---------------------------------------------------------------------------------------------

/// A character with ASCII capitals made small.
pub open spec fn ascii_lower(c: char) -> char {
    if 'A' <= c && c <= 'Z' {
        (c as u32 + 0x20) as char
    } else {
        c
    }
}

/// A text with ASCII capitals made small.
pub open spec fn ascii_lowered(s: Seq<char>) -> Seq<char> {
    s.map_values(|c: char| ascii_lower(c))
}

/// A text with ASCII capitals made small.
pub fn to_ascii_lower(s: &str) -> (r: String)
    ensures
        r@ == ascii_lowered(s@),
{
    let chars = chars_of(s);
    let mut r: String = String::new();
    let mut i: usize = 0;
    while i < chars.len()
        invariant
            chars@ == s@,
            i <= chars@.len(),
            r@ == ascii_lowered(s@.take(i as int)),
        decreases chars@.len() - i,
    {
        let c: char = chars[i];
        if 'A' <= c && c <= 'Z' {
            r.push((c as u8 + 0x20) as char);
        } else {
            r.push(c);
        }
        i = i + 1;
        assert(r@ =~= ascii_lowered(s@.take(i as int)));
    }
    assert(s@.take(i as int) =~= s@);
    r
}

/// Whether a character is a hexadecimal digit.
pub open spec fn is_hex(c: char) -> bool {
    ('0' <= c && c <= '9') || ('a' <= c && c <= 'f') || ('A' <= c && c <= 'F')
}

/// Whether all characters of a text are hexadecimal digits.
pub fn all_hex(s: &str) -> (r: bool)
    ensures
        r == (forall|i: int| 0 <= i < s@.len() ==> is_hex(#[trigger] s@[i])),
{
    let chars = chars_of(s);
    let mut i: usize = 0;
    while i < chars.len()
        invariant
            chars@ == s@,
            i <= chars@.len(),
            forall|k: int| 0 <= k < i ==> is_hex(#[trigger] s@[k]),
        decreases chars@.len() - i,
    {
        let c: char = chars[i];
        if !(('0' <= c && c <= '9') || ('a' <= c && c <= 'f') || ('A' <= c && c <= 'F')) {
            assert(!is_hex(s@[i as int]));
            return false;
        }
        i = i + 1;
    }
    true
}

// ---------------------------------------------------------------------------------------------
// JSON
// ---------------------------------------------------------------------------------------------

/// How a character is written inside a JSON string.
pub open spec fn json_char(c: char) -> Seq<char> {
    let n = c as nat;
    if c == '"' || c == '\\' {
        seq!['\\', c]
    } else if n == 0x08 {
        seq!['\\', 'b']
    } else if n == 0x09 {
        seq!['\\', 't']
    } else if n == 0x0a {
        seq!['\\', 'n']
    } else if n == 0x0c {
        seq!['\\', 'f']
    } else if n == 0x0d {
        seq!['\\', 'r']
    } else if n < 0x20 {
        seq!['\\', 'u', '0', '0', hex_digit(n / 16), hex_digit(n % 16)]
    } else {
        seq![c]
    }
}

/// A text as the inside of a JSON string.
pub open spec fn json_inside(s: Seq<char>) -> Seq<char>
    decreases s.len(),
{
    if s.len() == 0 {
        Seq::empty()
    } else {
        json_inside(s.drop_last()) + json_char(s.last())
    }
}

/// A text as a JSON string.
pub open spec fn json_string(s: Seq<char>) -> Seq<char> {
    seq!['"'] + json_inside(s) + seq!['"']
}

/// `serde_json::to_string` on a string slice never fails and writes the JSON string: quotes and
/// backslashes behind a backslash, control characters by their short escape or as `\u00xx` with
/// small digits, every other character as it is.
#[verifier::external_body]
pub(crate) fn json_text(value: &str) -> (r: String)
    ensures
        r@ == json_string(value@),
{
    serde_json::to_string(value).expect("a string always serializes")
}

/// Making capitals small turns the ASCII capitals into the small letters 32 places behind them and leaves
/// every other character as it is.
pub proof fn lowering_turns_capitals_only(s: Seq<char>, i: int)
    requires
        0 <= i < s.len(),
    ensures
        ascii_lowered(s).len() == s.len(),
        if 65 <= s[i] as u32 && s[i] as u32 <= 90 {
            ascii_lowered(s)[i] as u32 == s[i] as u32 + 32
        } else {
            ascii_lowered(s)[i] == s[i]
        },
{
    let c = s[i];
    vstd::utf8::char_u32_cast(c, c as u32);
}

} // verus!
