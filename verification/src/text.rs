//! Text helpers shared by the parsers: whitespace trimming, unsigned number
//! parsing and reasoning about UTF-8 encoded string slices.
use vstd::prelude::*;
use vstd::utf8::*;
use vstd::string::*;

use std::num::ParseIntError;

verus! {

broadcast use vstd::seq_lib::group_seq_properties;

/// `std::num::ParseIntError`, carried through as an opaque value.
#[verifier::external_type_specification]
#[verifier::external_body]
pub struct ExParseIntError(ParseIntError);

/* Whitespace and trimming */

/// The Unicode `White_Space` property, which `char::is_whitespace` and `str::trim` use.
pub open spec fn is_white_space(c: char) -> bool {
    let u = c as u32;
    ||| 0x09 <= u <= 0x0D
    ||| u == 0x20
    ||| u == 0x85
    ||| u == 0xA0
    ||| u == 0x1680
    ||| 0x2000 <= u <= 0x200A
    ||| u == 0x2028
    ||| u == 0x2029
    ||| u == 0x202F
    ||| u == 0x205F
    ||| u == 0x3000
}

/// `s` without its leading whitespace.
pub open spec fn trim_start_chars(s: Seq<char>) -> Seq<char>
    decreases s.len(),
{
    if s.len() > 0 && is_white_space(s[0]) {
        trim_start_chars(s.drop_first())
    } else {
        s
    }
}

/// `s` without its trailing whitespace.
pub open spec fn trim_end_chars(s: Seq<char>) -> Seq<char>
    decreases s.len(),
{
    if s.len() > 0 && is_white_space(s.last()) {
        trim_end_chars(s.drop_last())
    } else {
        s
    }
}

/// `s` without leading and trailing whitespace.
pub open spec fn trim_chars(s: Seq<char>) -> Seq<char> {
    trim_end_chars(trim_start_chars(s))
}

/// `str::trim`: the slice with leading and trailing whitespace removed, whitespace
/// being the Unicode `White_Space` property, as the std documentation defines it.
#[verifier::external_body]
pub(crate) fn trim(s: &str) -> (r: &str)
    ensures
        r@ == trim_chars(s@),
{
    s.trim()
}

/// A sequence that starts and ends with a non-whitespace character (or is empty)
/// is its own trimmed form.
pub proof fn lemma_trim_idempotent(s: Seq<char>)
    ensures
        trim_chars(trim_chars(s)) == trim_chars(s),
{
    let a = trim_start_chars(s);
    lemma_trim_start_shape(s);
    lemma_trim_end_shape(a);
    let b = trim_end_chars(a);
    // b has no leading whitespace and no trailing whitespace
    lemma_trim_start_noop(b);
    lemma_trim_end_noop(b);
}

proof fn lemma_trim_start_shape(s: Seq<char>)
    ensures
        trim_start_chars(s).len() > 0 ==> !is_white_space(trim_start_chars(s)[0]),
        trim_start_chars(s).len() <= s.len(),
    decreases s.len(),
{
    if s.len() > 0 && is_white_space(s[0]) {
        lemma_trim_start_shape(s.drop_first());
    }
}

proof fn lemma_trim_end_shape(s: Seq<char>)
    requires
        s.len() > 0 ==> !is_white_space(s[0]),
    ensures
        trim_end_chars(s).len() > 0 ==> !is_white_space(trim_end_chars(s).last()),
        trim_end_chars(s).len() > 0 ==> !is_white_space(trim_end_chars(s)[0]),
        trim_end_chars(s).len() <= s.len(),
        trim_end_chars(s) == s.take(trim_end_chars(s).len() as int),
    decreases s.len(),
{
    if s.len() > 0 && is_white_space(s.last()) {
        let d = s.drop_last();
        if d.len() > 0 {
            assert(d[0] == s[0]);
        }
        lemma_trim_end_shape(d);
        let r = trim_end_chars(d);
        assert(r == d.take(r.len() as int));
        assert(d.take(r.len() as int) =~= s.take(r.len() as int));
    } else {
        assert(s.take(s.len() as int) =~= s);
    }
}

proof fn lemma_trim_start_noop(s: Seq<char>)
    requires
        s.len() > 0 ==> !is_white_space(s[0]),
    ensures
        trim_start_chars(s) == s,
{
}

proof fn lemma_trim_end_noop(s: Seq<char>)
    requires
        s.len() > 0 ==> !is_white_space(s.last()),
    ensures
        trim_end_chars(s) == s,
{
}

/* Unsigned number parsing, as `from_str_radix` documents it */

/// The value of `c` as a digit: `0`-`9`, then `a`-`z` or `A`-`Z` for 10 to 35.
pub open spec fn digit_value(c: char) -> Option<nat> {
    if '0' <= c && c <= '9' {
        Some((c as nat - '0' as nat) as nat)
    } else if 'a' <= c && c <= 'z' {
        Some((c as nat - 'a' as nat + 10) as nat)
    } else if 'A' <= c && c <= 'Z' {
        Some((c as nat - 'A' as nat + 10) as nat)
    } else {
        None
    }
}

/// The number that the digits `ds` denote in `radix`, if every one of them is a digit below `radix`.
pub open spec fn digits_value(ds: Seq<char>, radix: nat) -> Option<nat>
    decreases ds.len(),
{
    if ds.len() == 0 {
        Some(0)
    } else {
        match (digits_value(ds.drop_last(), radix), digit_value(ds.last())) {
            (Some(hi), Some(d)) => if d < radix {
                Some(hi * radix + d)
            } else {
                None
            },
            _ => None,
        }
    }
}

/// What `from_str_radix` gives for an unsigned type whose largest value is `max`:
/// an optional `+` followed by at least one digit, with a value of at most `max`.
pub open spec fn parse_unsigned(s: Seq<char>, radix: nat, max: nat) -> Option<nat> {
    let ds = if s.len() > 1 && s[0] == '+' {
        s.drop_first()
    } else {
        s
    };
    if ds.len() == 0 {
        None
    } else {
        match digits_value(ds, radix) {
            Some(v) => if v <= max {
                Some(v)
            } else {
                None
            },
            None => None,
        }
    }
}

/// `u8::from_str_radix(s, 16)`: claimed to succeed exactly when `s` is an optional `+`
/// and hex digits whose value fits in a byte, and then to give that value, as the
/// std documentation describes it.  The error is passed on opaque.
#[verifier::external_body]
pub(crate) fn u8_from_hex(s: &str) -> (r: Result<u8, ParseIntError>)
    ensures
        r is Ok <==> parse_unsigned(s@, 16, 0xFF) is Some,
        r matches Ok(v) ==> parse_unsigned(s@, 16, 0xFF) == Some(v as nat),
{
    u8::from_str_radix(s, 16)
}

/// `u64::from_str_radix(s, radix)` for a radix from 2 to 36 (it panics on any other):
/// claimed to succeed exactly when `s` is an optional `+` and digits below `radix`
/// whose value fits in 64 bits, and then to give that value.
#[verifier::external_body]
pub(crate) fn u64_from_str_radix(s: &str, radix: u32) -> (r: Result<u64, ParseIntError>)
    requires
        2 <= radix <= 36,
    ensures
        r is Ok <==> parse_unsigned(s@, radix as nat, 0xFFFF_FFFF_FFFF_FFFF) is Some,
        r matches Ok(v) ==> parse_unsigned(s@, radix as nat, 0xFFFF_FFFF_FFFF_FFFF) == Some(v as nat),
{
    u64::from_str_radix(s, radix)
}

/// `str::parse::<u64>`, which reads decimal digits as `from_str_radix(s, 10)` does:
/// claimed to succeed exactly when `s` is an optional `+` and decimal digits whose
/// value fits in 64 bits, and then to give that value.
#[verifier::external_body]
pub(crate) fn u64_from_decimal(s: &str) -> (r: Result<u64, ParseIntError>)
    ensures
        r is Ok <==> parse_unsigned(s@, 10, 0xFFFF_FFFF_FFFF_FFFF) is Some,
        r matches Ok(v) ==> parse_unsigned(s@, 10, 0xFFFF_FFFF_FFFF_FFFF) == Some(v as nat),
{
    s.parse::<u64>()
}

/* Lower-casing */

/// What `str::to_lowercase` gives for a string (the Unicode `Lowercase` mapping).
pub uninterp spec fn lowercase_chars(s: Seq<char>) -> Seq<char>;

/// Every character of `s` is ASCII.
pub open spec fn is_ascii_chars(s: Seq<char>) -> bool {
    forall|i: int| 0 <= i < s.len() ==> (s[i] as u32) < 0x80
}

/// `s` with `A`-`Z` turned into `a`-`z` and every other character kept.
pub open spec fn ascii_lowercase_chars(s: Seq<char>) -> Seq<char> {
    s.map_values(|c: char| if 'A' <= c && c <= 'Z' { ((c as u32) + 32) as char } else { c })
}

/// The lower-cased form of `s` as `str::to_lowercase` gives it: the ASCII mapping
/// on ASCII text, the named Unicode mapping otherwise.
pub open spec fn lowercase_of(s: Seq<char>) -> Seq<char> {
    if is_ascii_chars(s) {
        ascii_lowercase_chars(s)
    } else {
        lowercase_chars(s)
    }
}

/// `str::to_lowercase`: claimed to give a result that depends on the string alone,
/// named `lowercase_chars`, and on ASCII text to map `A`-`Z` to `a`-`z` and keep
/// every other character (the Unicode `Lowercase` mapping on ASCII).  The mapping
/// of other characters is not stated.
#[verifier::external_body]
pub(crate) fn to_lowercase(s: &str) -> (r: String)
    ensures
        r@ == lowercase_chars(s@),
        is_ascii_chars(s@) ==> r@ == ascii_lowercase_chars(s@),
        r@ == lowercase_of(s@),
{
    s.to_lowercase()
}

/* UTF-8 */

/// The number of bytes that `c` takes in UTF-8 (`char::len_utf8`).
pub open spec fn utf8_width(c: char) -> int {
    let u = c as u32;
    if u < 0x80 {
        1
    } else if u < 0x800 {
        2
    } else if u < 0x10000 {
        3
    } else {
        4
    }
}

/// The length in bytes of the UTF-8 encoding of `s` (`str::len`).
pub open spec fn utf8_len(s: Seq<char>) -> int {
    encode_utf8(s).len() as int
}

pub proof fn lemma_encode_scalar_width(c: char)
    ensures
        encode_scalar(c as u32).len() == utf8_width(c),
        utf8_width(c) == 1 ==> encode_scalar(c as u32) == seq![c as u8],
        utf8_width(c) == 1 ==> encode_scalar(c as u32)[0] < 0x80,
        utf8_width(c) > 1 ==> encode_scalar(c as u32)[0] >= 0xC0,
        utf8_width(c) == 2 ==> encode_scalar(c as u32)[0] <= 0xDF,
        utf8_width(c) > 2 ==> encode_scalar(c as u32)[0] >= 0xE0,
{
    char_is_scalar(c);
    let u = c as u32;
    if has_width_1_encoding(u) {
        assert(u & 0x7F == u) by (bit_vector)
            requires
                u <= 0x7F,
        ;
        assert(((u & 0x7F) as u8) < 0x80) by (bit_vector);
    } else if has_width_2_encoding(u) {
        assert(0xC0u8 | ((u >> 6) & 0x1F) as u8 >= 0xC0) by (bit_vector);
        assert(0xC0u8 | ((u >> 6) & 0x1F) as u8 <= 0xDF) by (bit_vector);
    } else if has_width_3_encoding(u) {
        assert(0xE0u8 | ((u >> 12) & 0x0F) as u8 >= 0xE0) by (bit_vector);
    } else {
        assert(0xF0u8 | ((u >> 18) & 0x7) as u8 >= 0xE0) by (bit_vector);
    }
}

pub proof fn lemma_encode_concat(a: Seq<char>, b: Seq<char>)
    ensures
        encode_utf8(a + b) == encode_utf8(a) + encode_utf8(b),
    decreases a.len(),
{
    if a.len() == 0 {
        assert(a + b =~= b);
    } else {
        assert((a + b).drop_first() =~= a.drop_first() + b);
        lemma_encode_concat(a.drop_first(), b);
        assert((a + b)[0] == a[0]);
    }
}

pub proof fn lemma_utf8_len_nonneg_first(s: Seq<char>)
    requires
        s.len() > 0,
    ensures
        encode_utf8(s) == encode_scalar(s[0] as u32) + encode_utf8(s.drop_first()),
        utf8_len(s) == utf8_width(s[0]) + utf8_len(s.drop_first()),
        encode_utf8(s)[0] == encode_scalar(s[0] as u32)[0],
{
    lemma_encode_scalar_width(s[0]);
}

/// The byte length of the first `j` characters is a character boundary.
pub proof fn lemma_prefix_is_boundary(s: Seq<char>, j: int)
    requires
        0 <= j <= s.len(),
    ensures
        is_char_boundary(encode_utf8(s), utf8_len(s.take(j))),
        utf8_len(s.take(j)) <= utf8_len(s),
        encode_utf8(s) == encode_utf8(s.take(j)) + encode_utf8(s.skip(j)),
    decreases j,
{
    assert(s =~= s.take(j) + s.skip(j));
    lemma_encode_concat(s.take(j), s.skip(j));
    encode_utf8_valid_utf8(s);
    if j == 0 {
        assert(s.take(0) =~= Seq::<char>::empty());
    } else {
        let bytes = encode_utf8(s);
        encode_utf8_first_scalar(s);
        lemma_utf8_len_nonneg_first(s);
        lemma_encode_scalar_width(s[0]);
        let w = utf8_width(s[0]);
        assert(pop_first_scalar(bytes) =~= encode_utf8(s.drop_first()));
        lemma_prefix_is_boundary(s.drop_first(), j - 1);
        assert(s.take(j).drop_first() =~= s.drop_first().take(j - 1));
        lemma_utf8_len_nonneg_first(s.take(j));
        assert(s.take(j)[0] == s[0]);
    }
}

/// Splitting the encoding of `s` after its first `j` characters splits `s` itself there.
pub proof fn lemma_split_views(s: Seq<char>, j: int, a: Seq<char>, b: Seq<char>)
    requires
        0 <= j <= s.len(),
        encode_utf8(a) == encode_utf8(s).subrange(0, utf8_len(s.take(j))),
        encode_utf8(b) == encode_utf8(s).subrange(utf8_len(s.take(j)), utf8_len(s)),
    ensures
        a == s.take(j),
        b == s.skip(j),
{
    lemma_prefix_is_boundary(s, j);
    let k = utf8_len(s.take(j));
    assert(encode_utf8(s).subrange(0, k) =~= encode_utf8(s.take(j)));
    assert(encode_utf8(s).subrange(k, utf8_len(s)) =~= encode_utf8(s.skip(j)));
    encode_utf8_decode_utf8(a);
    encode_utf8_decode_utf8(s.take(j));
    encode_utf8_decode_utf8(b);
    encode_utf8_decode_utf8(s.skip(j));
}

/// The length of `s` in bytes.
pub fn byte_len(s: &str) -> (n: usize)
    ensures
        n == utf8_len(s@),
{
    s.as_bytes().len()
}

/// `str::split_at` after the first `j` characters, returning the two halves as views.
pub(crate) fn split_chars(s: &str, j: Ghost<int>, k: usize) -> (r: (&str, &str))
    requires
        0 <= j@ <= s@.len(),
        k == utf8_len(s@.take(j@)),
    ensures
        r.0@ == s@.take(j@),
        r.1@ == s@.skip(j@),
{
    proof {
        lemma_prefix_is_boundary(s@, j@);
    }
    let r = s.split_at(k);
    proof {
        lemma_split_views(s@, j@, r.0@, r.1@);
    }
    r
}


/// The first character of a text whose first byte is ASCII is that byte.
pub proof fn lemma_ascii_head(d: Seq<char>)
    requires
        d.len() > 0,
        encode_utf8(d)[0] < 0x80,
    ensures
        utf8_width(d[0]) == 1,
        d[0] == (encode_utf8(d)[0] as char),
        encode_utf8(d.drop_first()) == encode_utf8(d).drop_first(),
        utf8_len(d.take(1)) == 1,
{
    lemma_utf8_len_nonneg_first(d);
    lemma_encode_scalar_width(d[0]);
    let c = d[0];
    let u = c as u32;
    let b = encode_utf8(d)[0];
    assert(b == c as u8);
    assert(u < 0x80);
    assert((u as u8) as u32 == u) by (bit_vector)
        requires
            u < 0x80,
    ;
    char_u32_cast(c, u);
    assert(encode_utf8(d.drop_first()) =~= encode_utf8(d).drop_first());
    let t = d.take(1);
    lemma_utf8_len_nonneg_first(t);
    assert(t.drop_first() =~= Seq::<char>::empty());
}

/// Whether two strings hold the same characters (compared by their UTF-8 bytes).
pub fn str_equals(a: &str, b: &str) -> (r: bool)
    ensures
        r == (a@ == b@),
{
    let ab = a.as_bytes();
    let bb = b.as_bytes();
    proof {
        encode_utf8_decode_utf8(a@);
        encode_utf8_decode_utf8(b@);
    }
    if ab.len() != bb.len() {
        return false;
    }
    let n = ab.len();
    for i in 0..n
        invariant
            n == ab@.len(),
            n == bb@.len(),
            ab@ == encode_utf8(a@),
            bb@ == encode_utf8(b@),
            forall|k: int| 0 <= k < i ==> ab@[k] == bb@[k],
    {
        if ab[i] != bb[i] {
            return false;
        }
    }
    proof {
        assert(ab@ =~= bb@);
    }
    true
}

/// `str::split_once` with a character delimiter: the text before the first
/// occurrence of `c` and the text after it, as the std documentation says.
#[verifier::external_body]
pub(crate) fn split_once_char(s: &str, c: char) -> (r: Option<(&str, &str)>)
    ensures
        r is None <==> !s@.contains(c),
        r matches Some(parts) ==> s@ == parts.0@ + seq![c] + parts.1@ && !parts.0@.contains(c),
{
    s.split_once(c)
}

/* Building message texts */

/// The digit characters, in the order of their values, letters in upper case.
pub open spec fn digit_chars() -> Seq<char> {
    "0123456789ABCDEF"@
}

/// The decimal digits of `n`, without sign or leading zeros.
pub open spec fn decimal_chars(n: nat) -> Seq<char>
    decreases n,
{
    if n < 10 {
        seq![digit_chars()[n as int]]
    } else {
        decimal_chars(n / 10).push(digit_chars()[(n % 10) as int])
    }
}

/// The two upper-case hex digits of `b`.
pub open spec fn hex2_chars(b: u8) -> Seq<char> {
    seq![digit_chars()[(b / 16) as int], digit_chars()[(b % 16) as int]]
}

/// Append the digit character for `d` (below 16) to `s`.
fn append_digit(s: &mut String, d: usize)
    requires
        d < 16,
    ensures
        final(s)@ == old(s)@.push(digit_chars()[d as int]),
{
    let digits = "0123456789ABCDEF";
    proof {
        reveal_strlit("0123456789ABCDEF");
    }
    let one = digits.substring_ascii(d, d + 1);
    s.append(one);
    proof {
        assert(one@ =~= seq![digit_chars()[d as int]]);
    }
}

/// Append the decimal digits of `n` to `s`.
pub(crate) fn append_decimal(s: &mut String, n: usize)
    ensures
        final(s)@ == old(s)@ + decimal_chars(n as nat),
    decreases n,
{
    if n >= 10 {
        append_decimal(s, n / 10);
    }
    append_digit(s, n % 10);
}

/// Append the two upper-case hex digits of `b` to `s`.
pub(crate) fn append_hex2(s: &mut String, b: u8)
    ensures
        final(s)@ == old(s)@ + hex2_chars(b),
{
    append_digit(s, (b / 16) as usize);
    append_digit(s, (b % 16) as usize);
}

} // verus!
