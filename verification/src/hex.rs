//! Intel HEX (IHEX) parser and writer.
use vstd::prelude::*;
use vstd::utf8::*;

use std::num::ParseIntError;

use crate::text::{append_decimal, append_hex2, decimal_chars, hex2_chars, byte_len, parse_unsigned, split_chars, u8_from_hex, utf8_len, utf8_width, lemma_utf8_len_nonneg_first, lemma_encode_scalar_width, lemma_prefix_is_boundary, trim, trim_chars, lemma_trim_idempotent};
use crate::memory::{MemoryMap, is_listing, listing, lemma_listing_unique};
use crate::MergehexError;

verus! {

broadcast use vstd::seq_lib::group_seq_properties;

/// Maximum number of data bytes in a single Intel HEX record.
const MAX_RECORD_LEN: usize = 32;

/// A parsed Intel HEX record.
#[derive(Debug, Clone, PartialEq, Eq)]
pub enum Record {
    /// Data record: address offset + payload bytes.
    Data { offset: u16, data: Vec<u8> },
    /// End-of-file record.
    EndOfFile,
    /// Extended segment address record (type 02): segment base << 4.
    ExtendedSegmentAddress(u16),
    /// Start segment address record (type 03): CS:IP.
    StartSegmentAddress { cs: u16, ip: u16 },
    /// Extended linear address record (type 04): upper 16 bits of address.
    ExtendedLinearAddress(u16),
    /// Start linear address record (type 05): entry point.
    StartLinearAddress(u32),
}

/// A record with its payload as a sequence.
pub enum RecordView {
    Data { offset: u16, data: Seq<u8> },
    EndOfFile,
    ExtendedSegmentAddress(u16),
    StartSegmentAddress { cs: u16, ip: u16 },
    ExtendedLinearAddress(u16),
    StartLinearAddress(u32),
}

impl View for Record {
    type V = RecordView;

    open spec fn view(&self) -> RecordView {
        match self {
            Record::Data { offset, data } => RecordView::Data { offset: *offset, data: data@ },
            Record::EndOfFile => RecordView::EndOfFile,
            Record::ExtendedSegmentAddress(s) => RecordView::ExtendedSegmentAddress(*s),
            Record::StartSegmentAddress { cs, ip } => RecordView::StartSegmentAddress { cs: *cs, ip: *ip },
            Record::ExtendedLinearAddress(u) => RecordView::ExtendedLinearAddress(*u),
            Record::StartLinearAddress(a) => RecordView::StartLinearAddress(*a),
        }
    }
}

/* What a record line means */

/// What decoding a run of hex digit pairs gives.
pub enum DigitsOutcome {
    /// The bytes that the pairs denote.
    Bytes(Seq<u8>),
    /// A pair that is not a number.
    Invalid,
    /// A pair that does not end on a character boundary: slicing the text there panics.
    Panics,
}

/// Decoding the text `d`, two bytes of UTF-8 at a time, each pair read as
/// `u8::from_str_radix(pair, 16)` reads it.
pub open spec fn decode_digits(d: Seq<char>) -> DigitsOutcome
    decreases d.len(),
{
    if d.len() == 0 {
        DigitsOutcome::Bytes(Seq::empty())
    } else {
        // the number of characters in the next two bytes, or 0 when those two bytes
        // end inside a character
        let n: int = if utf8_width(d[0]) == 2 {
            1
        } else if utf8_width(d[0]) == 1 && d.len() >= 2 && utf8_width(d[1]) == 1 {
            2
        } else {
            0
        };
        if n == 0 {
            DigitsOutcome::Panics
        } else {
            match parse_unsigned(d.take(n), 16, 0xFF) {
                None => DigitsOutcome::Invalid,
                Some(v) => match decode_digits(d.skip(n)) {
                    DigitsOutcome::Bytes(rest) => DigitsOutcome::Bytes(seq![v as u8] + rest),
                    other => other,
                },
            }
        }
    }
}

/// The sum of the bytes, as a number.
pub open spec fn byte_sum(b: Seq<u8>) -> nat
    decreases b.len(),
{
    if b.len() == 0 {
        0
    } else {
        byte_sum(b.drop_last()) + b.last() as nat
    }
}

/// The Intel HEX checksum of `b`: the byte that makes the sum of all bytes 0 modulo 256.
pub open spec fn checksum_of(b: Seq<u8>) -> u8 {
    ((256 - byte_sum(b) % 256) % 256) as u8
}

/// A big-endian 16-bit value.
pub open spec fn be16(hi: u8, lo: u8) -> u16 {
    (hi as nat * 256 + lo as nat) as u16
}

/// What parsing one record line gives.
pub enum RecordOutcome {
    Parsed(RecordView),
    /// A malformed record, reported as `HexParse` with this detail text.
    Malformed(Seq<char>),
    /// A digit pair that is not a hex number, reported as `HexParse` with a detail text
    /// that starts with `invalid hex digit: `.
    InvalidDigit,
    /// The checksum byte `expected` differs from the checksum `computed` from the other bytes.
    ChecksumMismatch { expected: u8, computed: u8 },
    /// Slicing the text of this line into digit pairs would panic.
    Panics,
}

/// The record that the decoded bytes `b` of a line (count, offset, type, data, checksum) denote.
pub open spec fn record_from_bytes(b: Seq<u8>) -> RecordOutcome {
    if b.len() != b[0] as int + 5 {
        RecordOutcome::Malformed(
            "record byte count mismatch: expected "@ + decimal_chars(b[0] as nat) + ", got "@
                + decimal_chars((b.len() - 5) as nat),
        )
    } else if checksum_of(b.drop_last()) != b.last() {
        RecordOutcome::ChecksumMismatch { expected: b.last(), computed: checksum_of(b.drop_last()) }
    } else {
        let offset = be16(b[1], b[2]);
        let data = b.subrange(4, b.len() - 1);
        let t = b[3];
        if t == 0 {
            RecordOutcome::Parsed(RecordView::Data { offset, data })
        } else if t == 1 {
            RecordOutcome::Parsed(RecordView::EndOfFile)
        } else if t == 2 {
            if data.len() == 2 {
                RecordOutcome::Parsed(RecordView::ExtendedSegmentAddress(be16(data[0], data[1])))
            } else {
                RecordOutcome::Malformed("extended segment address must contain 2 bytes"@)
            }
        } else if t == 3 {
            if data.len() == 4 {
                RecordOutcome::Parsed(
                    RecordView::StartSegmentAddress { cs: be16(data[0], data[1]), ip: be16(data[2], data[3]) },
                )
            } else {
                RecordOutcome::Malformed("start segment address must contain 4 bytes"@)
            }
        } else if t == 4 {
            if data.len() == 2 {
                RecordOutcome::Parsed(RecordView::ExtendedLinearAddress(be16(data[0], data[1])))
            } else {
                RecordOutcome::Malformed("extended linear address must contain 2 bytes"@)
            }
        } else if t == 5 {
            if data.len() == 4 {
                RecordOutcome::Parsed(
                    RecordView::StartLinearAddress(
                        (be16(data[0], data[1]) as nat * 65536 + be16(data[2], data[3]) as nat) as u32,
                    ),
                )
            } else {
                RecordOutcome::Malformed("start linear address must contain 4 bytes"@)
            }
        } else {
            RecordOutcome::Malformed("unsupported record type: 0x"@ + hex2_chars(t))
        }
    }
}

/// What the trimmed record line `t` gives: it must start with `:`, have an odd byte
/// length of at least 11, and continue with hex digit pairs that make a valid record.
pub open spec fn record_outcome(t: Seq<char>) -> RecordOutcome {
    if t.len() == 0 || t[0] != ':' {
        RecordOutcome::Malformed("record does not start with ':'"@)
    } else if utf8_len(t) < 11 || utf8_len(t) % 2 != 1 {
        RecordOutcome::Malformed("malformed record length: "@ + t)
    } else {
        match decode_digits(t.drop_first()) {
            DigitsOutcome::Bytes(b) => record_from_bytes(b),
            DigitsOutcome::Invalid => RecordOutcome::InvalidDigit,
            DigitsOutcome::Panics => RecordOutcome::Panics,
        }
    }
}

/// The error `e` reports the failed outcome `o`.
pub open spec fn reports_record_fault(o: RecordOutcome, e: MergehexError) -> bool {
    match o {
        RecordOutcome::Malformed(text) => e matches MergehexError::HexParse { detail } && detail@ == text,
        RecordOutcome::InvalidDigit => e matches MergehexError::HexParse { detail } && "invalid hex digit: "@.is_prefix_of(
            detail@,
        ),
        RecordOutcome::ChecksumMismatch { expected, computed } => e == MergehexError::HexChecksum { expected, computed },
        _ => false,
    }
}

/// The result `r` reports the outcome `o`.
pub open spec fn reports_record(o: RecordOutcome, r: Result<Record, MergehexError>) -> bool {
    match o {
        RecordOutcome::Parsed(v) => r matches Ok(rec) && rec@ == v,
        _ => r matches Err(e) && reports_record_fault(o, e),
    }
}

/* Error texts */

/// A `HexParse` error with the detail text `detail`.
fn hex_parse_error(detail: &str) -> (e: MergehexError)
    ensures
        e matches MergehexError::HexParse { detail: d } && d@ == detail@,
{
    MergehexError::HexParse { detail: detail.to_owned() }
}

/// The error for a digit pair that `u8::from_str_radix` refused with `e`.
fn invalid_digit_error(e: &ParseIntError) -> (r: MergehexError)
    ensures
        r matches MergehexError::HexParse { detail } && "invalid hex digit: "@.is_prefix_of(detail@),
{
    let mut detail = String::from_str("invalid hex digit: ");
    let reason = e.to_string();
    let ghost head = detail@;
    detail.append(reason.as_str());
    proof {
        assert(detail@.subrange(0, head.len() as int) =~= head);
    }
    MergehexError::HexParse { detail }
}

/* Decoding */

proof fn lemma_take_two_ascii(d: Seq<char>)
    requires
        d.len() >= 2,
        utf8_width(d[0]) == 1,
        utf8_width(d[1]) == 1,
    ensures
        utf8_len(d.take(2)) == 2,
{
    let t = d.take(2);
    lemma_utf8_len_nonneg_first(t);
    lemma_utf8_len_nonneg_first(t.drop_first());
    assert(t.drop_first().drop_first() =~= Seq::<char>::empty());
}

proof fn lemma_take_one_wide(d: Seq<char>)
    requires
        d.len() >= 1,
    ensures
        utf8_len(d.take(1)) == utf8_width(d[0]),
{
    let t = d.take(1);
    lemma_utf8_len_nonneg_first(t);
    assert(t.drop_first() =~= Seq::<char>::empty());
}

/// Each decoded byte takes two bytes of text.
proof fn lemma_decoded_len(d: Seq<char>)
    ensures
        decode_digits(d) matches DigitsOutcome::Bytes(b) ==> 2 * b.len() == utf8_len(d),
    decreases d.len(),
{
    if d.len() > 0 {
        lemma_utf8_len_nonneg_first(d);
        lemma_encode_scalar_width(d[0]);
        if utf8_width(d[0]) == 2 {
            lemma_take_one_wide(d);
            lemma_prefix_is_boundary(d, 1);
            lemma_decoded_len(d.skip(1));
        } else if utf8_width(d[0]) == 1 && d.len() >= 2 && utf8_width(d[1]) == 1 {
            lemma_take_two_ascii(d);
            lemma_prefix_is_boundary(d, 2);
            lemma_decoded_len(d.skip(2));
        }
    }
}

/// Decode a string of hex digit pairs into bytes.
fn decode_hex(s: &str) -> (r: Result<Vec<u8>, MergehexError>)
    requires
        utf8_len(s@) % 2 == 0 ==> decode_digits(s@) != DigitsOutcome::Panics,
    ensures
        utf8_len(s@) % 2 != 0 ==> (r matches Err(MergehexError::HexParse { detail }) && detail@
            == "odd number of hex digits"@),
        utf8_len(s@) % 2 == 0 ==> match decode_digits(s@) {
            DigitsOutcome::Bytes(b) => r matches Ok(v) && v@ == b,
            _ => r matches Err(e) && reports_record_fault(RecordOutcome::InvalidDigit, e),
        },
{
    if byte_len(s) % 2 != 0 {
        return Err(hex_parse_error("odd number of hex digits"));
    }
    let mut out: Vec<u8> = Vec::new();
    let mut rest: &str = s;
    while byte_len(rest) > 0
        invariant
            utf8_len(s@) % 2 == 0,
            utf8_len(rest@) % 2 == 0,
            decode_digits(rest@) != DigitsOutcome::Panics,
            match decode_digits(s@) {
                DigitsOutcome::Bytes(b) => decode_digits(rest@) matches DigitsOutcome::Bytes(rb) && b == out@ + rb,
                other => decode_digits(rest@) == other,
            },
        decreases rest@.len(),
    {
        let ghost d = rest@;
        proof {
            assert(d.len() > 0);
            lemma_utf8_len_nonneg_first(d);
            lemma_encode_scalar_width(d[0]);
            if utf8_width(d[0]) == 1 {
                assert(d.len() >= 2);
                lemma_take_two_ascii(d);
            } else {
                lemma_take_one_wide(d);
            }
        }
        let ghost n: int = if utf8_width(d[0]) == 2 { 1 } else { 2 };
        let (pair, tail) = split_chars(rest, Ghost(n), 2);
        proof {
            lemma_prefix_is_boundary(d, n);
        }
        match u8_from_hex(pair) {
            Ok(v) => {
                out.push(v);
            },
            Err(e) => {
                return Err(invalid_digit_error(&e));
            },
        }
        rest = tail;
    }
    proof {
        assert(rest@.len() == 0) by {
            if rest@.len() > 0 {
                lemma_utf8_len_nonneg_first(rest@);
                lemma_encode_scalar_width(rest@[0]);
            }
        }
    }
    Ok(out)
}


/// The complement of a byte sum, as Intel HEX computes it.
proof fn lemma_complement(sum: u8)
    ensures
        vstd::wrapping::u8_specs::wrapping_add(!sum, 1) == ((256 - sum as int) % 256) as u8,
{
    assert(!sum == 255 - sum) by (bit_vector);
}

/// The record that the decoded bytes of a record line denote.
fn record_from_decoded(bytes: &Vec<u8>) -> (r: Result<Record, MergehexError>)
    requires
        bytes@.len() >= 5,
    ensures
        reports_record(record_from_bytes(bytes@), r),
{
    let len = bytes.len();
    let count = bytes[0] as usize;
    if len != count + 5 {
        let mut detail = String::from_str("record byte count mismatch: expected ");
        append_decimal(&mut detail, count);
        detail.append(", got ");
        append_decimal(&mut detail, len - 5);
        return Err(MergehexError::HexParse { detail });
    }
    let mut sum: u8 = 0;
    let mut i: usize = 0;
    while i < len - 1
        invariant
            len == bytes@.len(),
            len >= 5,
            0 <= i <= len - 1,
            sum as nat == byte_sum(bytes@.take(i as int)) % 256,
        decreases len - 1 - i,
    {
        proof {
            assert(bytes@.take(i + 1).drop_last() =~= bytes@.take(i as int));
        }
        sum = sum.wrapping_add(bytes[i]);
        i += 1;
    }
    let computed = (!sum).wrapping_add(1);
    proof {
        assert(bytes@.take(len - 1) =~= bytes@.drop_last());
        lemma_complement(sum);
    }
    if computed != bytes[len - 1] {
        return Err(MergehexError::HexChecksum { expected: bytes[len - 1], computed });
    }
    let offset: u16 = (bytes[1] as u16) * 256 + bytes[2] as u16;
    let record_type = bytes[3];
    let mut data: Vec<u8> = Vec::new();
    let mut k: usize = 4;
    while k < len - 1
        invariant
            len == bytes@.len(),
            len >= 5,
            4 <= k <= len - 1,
            data@ == bytes@.subrange(4, k as int),
        decreases len - 1 - k,
    {
        data.push(bytes[k]);
        k += 1;
    }
    let dlen = data.len();
    match record_type {
        0x00 => Ok(Record::Data { offset, data }),
        0x01 => Ok(Record::EndOfFile),
        0x02 => {
            if dlen != 2 {
                return Err(hex_parse_error("extended segment address must contain 2 bytes"));
            }
            Ok(Record::ExtendedSegmentAddress((data[0] as u16) * 256 + data[1] as u16))
        },
        0x03 => {
            if dlen != 4 {
                return Err(hex_parse_error("start segment address must contain 4 bytes"));
            }
            Ok(
                Record::StartSegmentAddress {
                    cs: (data[0] as u16) * 256 + data[1] as u16,
                    ip: (data[2] as u16) * 256 + data[3] as u16,
                },
            )
        },
        0x04 => {
            if dlen != 2 {
                return Err(hex_parse_error("extended linear address must contain 2 bytes"));
            }
            Ok(Record::ExtendedLinearAddress((data[0] as u16) * 256 + data[1] as u16))
        },
        0x05 => {
            if dlen != 4 {
                return Err(hex_parse_error("start linear address must contain 4 bytes"));
            }
            let hi: u32 = (data[0] as u32) * 256 + data[1] as u32;
            let lo: u32 = (data[2] as u32) * 256 + data[3] as u32;
            Ok(Record::StartLinearAddress(hi * 65536 + lo))
        },
        t => {
            let mut detail = String::from_str("unsupported record type: 0x");
            append_hex2(&mut detail, t);
            Err(MergehexError::HexParse { detail })
        },
    }
}

/// Facts about the first byte of a UTF-8 encoding.
proof fn lemma_first_byte(t: Seq<char>)
    ensures
        (encode_utf8(t).len() == 0) == (t.len() == 0),
        t.len() > 0 ==> ((encode_utf8(t)[0] == 0x3A) == (t[0] == ':')),
        t.len() > 0 && t[0] == ':' ==> utf8_len(t.take(1)) == 1,
{
    if t.len() > 0 {
        lemma_utf8_len_nonneg_first(t);
        lemma_encode_scalar_width(t[0]);
        lemma_take_one_wide(t);
        let c = t[0];
        let u = c as u32;
        if utf8_width(c) == 1 {
            assert(u < 0x80);
            assert(u as u8 == u) by (bit_vector)
                requires
                    u < 0x80,
            ;
            assert((':' as u32) == 0x3A);
            char_u32_cast(c, u);
            char_u32_cast(':', 0x3A);
            assert((u == 0x3A) == (c == ':'));
        }
    }
}

impl Record {
    /// Parse a single Intel HEX record line (including the leading `:`); the line is
    /// trimmed first.
    pub fn parse(line: &str) -> (r: Result<Self, MergehexError>)
        requires
            record_outcome(trim_chars(line@)) != RecordOutcome::Panics,
        ensures
            reports_record(record_outcome(trim_chars(line@)), r),
    {
        let t = trim(line);
        let tb = t.as_bytes();
        proof {
            lemma_first_byte(t@);
        }
        if tb.len() == 0 || tb[0] != 0x3A {
            return Err(hex_parse_error("record does not start with ':'"));
        }
        let n = tb.len();
        if n < 11 || n % 2 != 1 {
            let mut detail = String::from_str("malformed record length: ");
            detail.append(t);
            return Err(MergehexError::HexParse { detail });
        }
        let (_, digits) = split_chars(t, Ghost(1int), 1);
        proof {
            lemma_prefix_is_boundary(t@, 1);
            assert(t@.skip(1) =~= t@.drop_first());
        }
        let bytes = decode_hex(digits)?;
        proof {
            lemma_decoded_len(digits@);
        }
        record_from_decoded(&bytes)
    }
}


/* What the writer emits */

/// The ASCII code of the uppercase hex digit for `n` (below 16).
pub open spec fn hex_digit(n: u8) -> u8 {
    if n < 10 {
        (0x30 + n) as u8
    } else {
        (0x41 + n - 10) as u8
    }
}

/// Each byte as two uppercase hex digits (`{:02X}`).
pub open spec fn hex_upper(b: Seq<u8>) -> Seq<u8>
    decreases b.len(),
{
    if b.len() == 0 {
        Seq::empty()
    } else {
        hex_upper(b.drop_last()) + seq![hex_digit(b.last() / 16), hex_digit(b.last() % 16)]
    }
}

/// The text line of a record with the given fields: `:`, the fields and their
/// checksum in hex, and a newline.
pub open spec fn record_text(fields: Seq<u8>) -> Seq<u8> {
    seq![0x3Au8] + hex_upper(fields.push(checksum_of(fields))) + seq![0x0Au8]
}

/// The fields of a data record.
pub open spec fn data_fields(offset: u16, data: Seq<u8>) -> Seq<u8> {
    seq![data.len() as u8, (offset / 256) as u8, (offset % 256) as u8, 0u8] + data
}

/// The fields of an extended linear address record.
pub open spec fn ela_fields(ula: u16) -> Seq<u8> {
    seq![2u8, 0u8, 0u8, 4u8, (ula / 256) as u8, (ula % 256) as u8]
}

/// The fields of the end-of-file record.
pub open spec fn eof_fields() -> Seq<u8> {
    seq![0u8, 0u8, 0u8, 1u8]
}

/// The number of pairs that the data record starting at index `i` of the sorted
/// pairs `p` takes, having taken `k` already: it grows while the addresses stay
/// consecutive, up to 32 bytes.
pub open spec fn block_len_from(p: Seq<(u64, u8)>, i: int, k: int) -> int
    decreases 32 - k,
{
    if k < 32 && i + k < p.len() && p[i + k].0 == p[i].0 + k {
        block_len_from(p, i, k + 1)
    } else {
        k
    }
}

/// The number of pairs in the data record that starts at index `i`.
pub open spec fn block_len(p: Seq<(u64, u8)>, i: int) -> int {
    block_len_from(p, i, 1)
}

/// The records (as fields) that the writer emits for the pairs from index `i` on;
/// `prev` is the upper address half of the record before, when it continues the
/// same run of consecutive addresses.  Every run starts with an extended linear
/// address record, and a record inside a run gets one when its upper address half
/// differs from that of the record before.
pub open spec fn records_from(p: Seq<(u64, u8)>, i: int, prev: Option<u64>) -> Seq<Seq<u8>>
    decreases p.len() - i,
{
    if i < 0 || i >= p.len() {
        Seq::empty()
    } else {
        let a = p[i].0;
        let u = (a / 65536) as u64;
        let j = i + block_len(p, i);
        let head = if prev == Some(u) {
            Seq::<Seq<u8>>::empty()
        } else {
            seq![ela_fields(#[verifier::truncate] (u as u16))]
        };
        let rec = data_fields((a % 65536) as u16, p.subrange(i, j).map_values(|e: (u64, u8)| e.1));
        let next = if j < p.len() && p[j].0 == p[j - 1].0 + 1 {
            Some(u)
        } else {
            None
        };
        proof {
            lemma_block_len_bounds(p, i, 1);
        }
        head + seq![rec] + records_from(p, j, next)
    }
}

/// A record takes at least the pairs it has taken already and at most 32 in all.
pub proof fn lemma_block_len_bounds(p: Seq<(u64, u8)>, i: int, k: int)
    requires
        0 <= i < p.len(),
        1 <= k <= 32,
        i + k <= p.len(),
    ensures
        k <= block_len_from(p, i, k) <= 32,
        i + block_len_from(p, i, k) <= p.len(),
    decreases 32 - k,
{
    if k < 32 && i + k < p.len() && p[i + k].0 == p[i].0 + k {
        lemma_block_len_bounds(p, i, k + 1);
    }
}

/// All records that the writer emits for the sorted pairs `p`, ending with end-of-file.
pub open spec fn image_records(p: Seq<(u64, u8)>) -> Seq<Seq<u8>> {
    records_from(p, 0, None).push(eof_fields())
}

/// The text of a sequence of records, one line each.
pub open spec fn records_text(rs: Seq<Seq<u8>>) -> Seq<u8>
    decreases rs.len(),
{
    if rs.len() == 0 {
        Seq::empty()
    } else {
        records_text(rs.drop_last()) + record_text(rs.last())
    }
}

/// The Intel HEX text for the sorted pairs `p`.
pub open spec fn image_text(p: Seq<(u64, u8)>) -> Seq<u8> {
    records_text(image_records(p))
}

pub proof fn lemma_records_text_concat(a: Seq<Seq<u8>>, b: Seq<Seq<u8>>)
    ensures
        records_text(a + b) == records_text(a) + records_text(b),
    decreases b.len(),
{
    if b.len() == 0 {
        assert(a + b =~= a);
    } else {
        assert((a + b).drop_last() =~= a + b.drop_last());
        lemma_records_text_concat(a, b.drop_last());
    }
}

/* Writing */

/// Append the uppercase hex digits of `bytes` to `out`.
fn encode_hex(out: &mut Vec<u8>, bytes: &Vec<u8>)
    ensures
        final(out)@ == old(out)@ + hex_upper(bytes@),
{
    let n = bytes.len();
    for i in 0..n
        invariant
            n == bytes@.len(),
            out@ == old(out)@ + hex_upper(bytes@.take(i as int)),
    {
        let b = bytes[i];
        let hi = b / 16;
        let lo = b % 16;
        let dh = if hi < 10 { 0x30 + hi } else { 0x41 + hi - 10 };
        let dl = if lo < 10 { 0x30 + lo } else { 0x41 + lo - 10 };
        out.push(dh);
        out.push(dl);
        proof {
            assert(bytes@.take(i + 1).drop_last() =~= bytes@.take(i as int));
        }
    }
    proof {
        assert(bytes@.take(n as int) =~= bytes@);
    }
}

/// Append the line of a record with the given fields, its checksum added.
fn write_record(out: &mut Vec<u8>, fields: Vec<u8>)
    ensures
        final(out)@ == old(out)@ + record_text(fields@),
{
    let mut record = fields;
    let n = record.len();
    let mut sum: u8 = 0;
    for i in 0..n
        invariant
            n == record@.len(),
            record@ == fields@,
            sum as nat == byte_sum(record@.take(i as int)) % 256,
    {
        proof {
            assert(record@.take(i + 1).drop_last() =~= record@.take(i as int));
        }
        sum = sum.wrapping_add(record[i]);
    }
    proof {
        assert(record@.take(n as int) =~= record@);
        lemma_complement(sum);
    }
    record.push((!sum).wrapping_add(1));
    out.push(0x3A);
    encode_hex(out, &record);
    out.push(0x0A);
    proof {
        assert(final(out)@ =~= old(out)@ + record_text(fields@));
    }
}

/// Append a data record line.
fn write_data_record(out: &mut Vec<u8>, offset: u16, data: Vec<u8>)
    requires
        data@.len() <= 255,
    ensures
        final(out)@ == old(out)@ + record_text(data_fields(offset, data@)),
{
    let mut record: Vec<u8> = Vec::new();
    record.push(data.len() as u8);
    record.push((offset / 256) as u8);
    record.push((offset % 256) as u8);
    record.push(0x00);
    let n = data.len();
    for i in 0..n
        invariant
            n == data@.len(),
            record@ == seq![data@.len() as u8, (offset / 256) as u8, (offset % 256) as u8, 0u8] + data@.take(i as int),
    {
        record.push(data[i]);
        proof {
            assert(data@.take(i + 1) =~= data@.take(i as int).push(data@[i as int]));
        }
    }
    proof {
        assert(data@.take(n as int) =~= data@);
    }
    write_record(out, record);
}

/// Append an extended linear address record line.
fn write_extended_linear_address_record(out: &mut Vec<u8>, ula: u16)
    ensures
        final(out)@ == old(out)@ + record_text(ela_fields(ula)),
{
    let mut record: Vec<u8> = Vec::new();
    record.push(0x02);
    record.push(0x00);
    record.push(0x00);
    record.push(0x04);
    record.push((ula / 256) as u8);
    record.push((ula % 256) as u8);
    proof {
        assert(record@ =~= ela_fields(ula));
    }
    write_record(out, record);
}

/// Append the end-of-file record line.
fn write_end_of_file_record(out: &mut Vec<u8>)
    ensures
        final(out)@ == old(out)@ + record_text(eof_fields()),
{
    let mut record: Vec<u8> = Vec::new();
    record.push(0x00);
    record.push(0x00);
    record.push(0x00);
    record.push(0x01);
    proof {
        assert(record@ =~= eof_fields());
    }
    write_record(out, record);
}


/// Write a memory map as Intel HEX text to `out`: the bytes in address order as
/// data records of up to 32 bytes, each run of consecutive addresses preceded by
/// an extended linear address record (and another one wherever the upper 16 address
/// bits change inside a run), then the end-of-file record.
pub fn write_hex(out: &mut Vec<u8>, memory: &MemoryMap)
    ensures
        final(out)@ == old(out)@ + image_text(listing(memory@)),
{
    let data = memory.iter();
    let ghost p = data@;
    let len = data.len();
    let mut i: usize = 0;
    let mut prev: Option<u64> = None;
    proof {
        assert(old(out)@ + records_text(records_from(p, 0, None)) =~= out@ + records_text(records_from(p, 0, None)));
    }
    while i < len
        invariant
            len == p.len(),
            p == data@,
            is_listing(p, memory@),
            0 <= i <= len,
            old(out)@ + records_text(records_from(p, 0, None)) == out@ + records_text(records_from(p, i as int, prev)),
        decreases len - i,
    {
        let ghost before = out@;
        let addr = data[i].0;
        let ula = addr / 65536;
        let record_start = addr;
        let mut j = i;
        while j < len && data[j].0 == record_start + (j - i) as u64 && j - i < MAX_RECORD_LEN
            invariant
                len == p.len(),
                p == data@,
                is_listing(p, memory@),
                0 <= i < len,
                record_start == p[i as int].0,
                i <= j <= len,
                j - i <= 32,
                forall|k: int| i <= k < j ==> p[k].0 == record_start + (k - i),
                j == i || block_len_from(p, i as int, (j - i) as int) == block_len(p, i as int),
                j == i ==> block_len_from(p, i as int, 1) == block_len(p, i as int),
                i < j < len ==> p[j - 1].0 < p[j as int].0,
            decreases len - j,
        {
            j += 1;
            proof {
                if j < len {
                    assert(p[j - 1].0 < p[j as int].0);
                }
            }
        }
        proof {
            lemma_block_len_bounds(p, i as int, 1);
        }
        let ghost j_spec = i + block_len(p, i as int);
        assert(j == j_spec);
        if prev != Some(ula) {
            write_extended_linear_address_record(out, #[verifier::truncate] (ula as u16));
        }
        let mut record_bytes: Vec<u8> = Vec::new();
        let mut k = i;
        while k < j
            invariant
                len == p.len(),
                p == data@,
                i <= k <= j <= len,
                record_bytes@ == p.subrange(i as int, k as int).map_values(|e: (u64, u8)| e.1),
            decreases j - k,
        {
            record_bytes.push(data[k].1);
            k += 1;
            proof {
                assert(p.subrange(i as int, k as int).map_values(|e: (u64, u8)| e.1) =~= p.subrange(i as int, k - 1).map_values(|e: (u64, u8)| e.1).push(p[k - 1].1));
            }
        }
        let offset = (addr % 65536) as u16;
        write_data_record(out, offset, record_bytes);
        let next = if j < len && data[j].0 == data[j - 1].0 + 1 { Some(ula) } else { None };
        proof {
            let head = if prev == Some(ula) { Seq::<Seq<u8>>::empty() } else { seq![ela_fields(#[verifier::truncate] (ula as u16))] };
            let rec = data_fields(offset, p.subrange(i as int, j as int).map_values(|e: (u64, u8)| e.1));
            assert(records_from(p, i as int, prev) == head + seq![rec] + records_from(p, j as int, next));
            lemma_records_text_concat(head + seq![rec], records_from(p, j as int, next));
            lemma_records_text_concat(head, seq![rec]);
            assert(records_text(seq![rec]) =~= record_text(rec)) by {
                assert(seq![rec].drop_last() =~= Seq::<Seq<u8>>::empty());
            }
            if prev != Some(ula) {
                assert(records_text(head) =~= record_text(ela_fields(#[verifier::truncate] (ula as u16)))) by {
                    assert(head.drop_last() =~= Seq::<Seq<u8>>::empty());
                }
            } else {
                assert(records_text(head) =~= Seq::<u8>::empty());
            }
        }
        prev = next;
        i = j;
    }
    write_end_of_file_record(out);
    proof {
        assert(records_from(p, len as int, prev) =~= Seq::<Seq<u8>>::empty());
        assert(image_records(p).drop_last() =~= records_from(p, 0, None));
        lemma_listing_unique(p, listing(memory@), memory@);
    }
}


/* Reading a whole file */

/// The pairs that a data record at absolute address `start` places.
pub open spec fn data_pairs(start: int, data: Seq<u8>) -> Seq<(u64, u8)> {
    Seq::new(data.len(), |k: int| ((start + k) as u64, data[k]))
}

/// The state of a reader of Intel HEX lines: the current linear base address, the
/// current segment base address, the pairs read so far, and whether the
/// end-of-file record was seen.
pub struct HexState {
    pub base: u64,
    pub segment: u64,
    pub pairs: Seq<(u64, u8)>,
    pub eof_seen: bool,
}

/// What reading one more line does.
pub enum LineStep {
    /// Go on with this state.
    Next(HexState),
    /// The end-of-file record: stop.
    End,
    /// The line is not a valid record.
    Fault(RecordOutcome),
    /// Slicing the text of the line into digit pairs would panic.
    Panics,
}

/// Reading `line` in state `s`: blank lines are skipped; data records add their
/// bytes at base + segment + offset; address records set one base and clear the
/// other; start address records change nothing.
pub open spec fn line_step(s: HexState, line: Seq<char>) -> LineStep {
    let t = trim_chars(line);
    if t.len() == 0 {
        LineStep::Next(s)
    } else {
        match record_outcome(t) {
            RecordOutcome::Parsed(r) => match r {
                RecordView::Data { offset, data } => LineStep::Next(
                    HexState { pairs: s.pairs + data_pairs(s.base + s.segment + offset, data), ..s },
                ),
                RecordView::EndOfFile => LineStep::End,
                RecordView::ExtendedSegmentAddress(seg) => LineStep::Next(
                    HexState { base: 0, segment: (seg as nat * 16) as u64, ..s },
                ),
                RecordView::ExtendedLinearAddress(ula) => LineStep::Next(
                    HexState { base: (ula as nat * 65536) as u64, segment: 0, ..s },
                ),
                _ => LineStep::Next(s),
            },
            RecordOutcome::Panics => LineStep::Panics,
            other => LineStep::Fault(other),
        }
    }
}

/// What reading a file of lines gives.
pub enum HexFileOutcome {
    /// The pairs of all data records up to the end-of-file record.
    Pairs(Seq<(u64, u8)>),
    /// The line with this number (counted from 1) is not a valid record.
    LineFault { line: int, fault: RecordOutcome },
    /// The lines end without an end-of-file record.
    MissingEof,
    /// Slicing the text of a line into digit pairs would panic.
    Panics,
}

/// Reading the lines from index `i` on, in state `s`.
pub open spec fn hex_file_from(lines: Seq<Seq<char>>, i: int, s: HexState) -> HexFileOutcome
    decreases lines.len() - i,
{
    if i < 0 || i >= lines.len() {
        HexFileOutcome::MissingEof
    } else {
        match line_step(s, lines[i]) {
            LineStep::Next(s2) => hex_file_from(lines, i + 1, s2),
            LineStep::End => HexFileOutcome::Pairs(s.pairs),
            LineStep::Fault(f) => HexFileOutcome::LineFault { line: i + 1, fault: f },
            LineStep::Panics => HexFileOutcome::Panics,
        }
    }
}

/// The state before the first line.
pub open spec fn initial_state() -> HexState {
    HexState { base: 0, segment: 0, pairs: Seq::empty(), eof_seen: false }
}

/// Reading the lines of a file.
pub open spec fn hex_file_outcome(lines: Seq<Seq<char>>) -> HexFileOutcome {
    hex_file_from(lines, 0, initial_state())
}

/// `e` reports that line `line` of the file `path` failed with `fault`.
pub open spec fn reports_line_fault(e: MergehexError, path: Seq<char>, line: int, fault: RecordOutcome) -> bool {
    e matches MergehexError::HexLine { path: p, line: l, source } && p@ == path && l == line
        && reports_record_fault(fault, *source)
}

/// The result `r` of reading the file `path` reports the outcome `o`.
pub open spec fn reports_file(o: HexFileOutcome, path: Seq<char>, r: Result<Vec<(u64, u8)>, MergehexError>) -> bool {
    match o {
        HexFileOutcome::Pairs(ps) => r matches Ok(v) && v@ == ps,
        HexFileOutcome::LineFault { line, fault } => r matches Err(e) && reports_line_fault(e, path, line, fault),
        HexFileOutcome::MissingEof => r matches Err(MergehexError::HexParse { detail }) && detail@
            == "missing end-of-file record"@,
        HexFileOutcome::Panics => false,
    }
}

/// A reader of Intel HEX text, fed one line at a time.
pub struct HexDecoder {
    base_address: u64,
    segment_address: u64,
    pairs: Vec<(u64, u8)>,
    eof_seen: bool,
}

impl View for HexDecoder {
    type V = HexState;

    closed spec fn view(&self) -> HexState {
        HexState {
            base: self.base_address,
            segment: self.segment_address,
            pairs: self.pairs@,
            eof_seen: self.eof_seen,
        }
    }
}

/// The bases stay within what the address records can set.
pub open spec fn state_in_range(s: HexState) -> bool {
    s.base <= 0xFFFF_0000 && s.segment <= 0xF_FFF0
}

impl HexDecoder {
    /// The bases stay within what the address records can set.
    #[verifier::type_invariant]
    closed spec fn bases_in_range(&self) -> bool {
        state_in_range(self@)
    }

    /// A reader that has seen no line yet.
    pub fn new() -> (d: Self)
        ensures
            d@ == initial_state(),
    {
        HexDecoder { base_address: 0, segment_address: 0, pairs: Vec::new(), eof_seen: false }
    }

    /// Whether the end-of-file record has been read.
    pub fn eof_seen(&self) -> (b: bool)
        ensures
            b == self@.eof_seen,
    {
        self.eof_seen
    }

    /// Read line `line_number` (counted from 1) of the file `path`.  Returns whether
    /// the end-of-file record was read; no further line should be fed after it.
    pub fn feed(&mut self, path: &str, line_number: usize, line: &str) -> (r: Result<bool, MergehexError>)
        requires
            !old(self)@.eof_seen,
            !(line_step(old(self)@, line@) is Panics),
        ensures
            match line_step(old(self)@, line@) {
                LineStep::Next(s) => r == Ok::<bool, MergehexError>(false) && final(self)@ == s,
                LineStep::End => r == Ok::<bool, MergehexError>(true) && final(self)@ == HexState {
                    eof_seen: true,
                    ..old(self)@
                },
                LineStep::Fault(f) => r matches Err(e) && reports_line_fault(e, path@, line_number as int, f),
                LineStep::Panics => false,
            },
    {
        proof {
            use_type_invariant(&*self);
        }
        let t = trim(line);
        if byte_len(t) == 0 {
            proof {
                assert(t@.len() == 0) by {
                    if t@.len() > 0 {
                        lemma_utf8_len_nonneg_first(t@);
                        lemma_encode_scalar_width(t@[0]);
                    }
                }
            }
            return Ok(false);
        }
        proof {
            lemma_trim_idempotent(line@);
        }
        let record = match Record::parse(t) {
            Ok(r) => r,
            Err(e) => {
                return Err(MergehexError::HexLine { path: path.to_owned(), line: line_number, source: Box::new(e) });
            },
        };
        match record {
            Record::Data { offset, data } => {
                let addr: u64 = self.base_address + self.segment_address + offset as u64;
                let n = data.len();
                let mut pairs: Vec<(u64, u8)> = Vec::new();
                std::mem::swap(&mut pairs, &mut self.pairs);
                let ghost old_pairs = pairs@;
                for k in 0..n
                    invariant
                        n == data@.len(),
                        n <= 255,
                        addr <= 0xFFFF_0000 + 0xF_FFF0 + 0xFFFF,
                        pairs@ == old_pairs + data_pairs(addr as int, data@.take(k as int)),
                {
                    pairs.push((addr + k as u64, data[k]));
                    proof {
                        assert(data_pairs(addr as int, data@.take(k + 1)) =~= data_pairs(addr as int, data@.take(k as int)).push(((addr + k) as u64, data@[k as int])));
                    }
                }
                proof {
                    assert(data@.take(n as int) =~= data@);
                }
                self.pairs = pairs;
                Ok(false)
            },
            Record::EndOfFile => {
                self.eof_seen = true;
                Ok(true)
            },
            Record::ExtendedSegmentAddress(seg) => {
                self.segment_address = (seg as u64) * 16;
                self.base_address = 0;
                Ok(false)
            },
            Record::ExtendedLinearAddress(ula) => {
                self.base_address = (ula as u64) * 65536;
                self.segment_address = 0;
                Ok(false)
            },
            Record::StartSegmentAddress { .. } | Record::StartLinearAddress(_) => Ok(false),
        }
    }

    /// The pairs read, or an error when no end-of-file record was read.
    pub fn finish(self) -> (r: Result<Vec<(u64, u8)>, MergehexError>)
        ensures
            self@.eof_seen ==> (r matches Ok(v) && v@ == self@.pairs),
            !self@.eof_seen ==> (r matches Err(MergehexError::HexParse { detail }) && detail@
                == "missing end-of-file record"@),
    {
        if !self.eof_seen {
            return Err(hex_parse_error("missing end-of-file record"));
        }
        Ok(self.pairs)
    }
}

/// The characters of each line.
pub open spec fn lines_view(lines: Seq<String>) -> Seq<Seq<char>> {
    lines.map_values(|l: String| l@)
}

/// Parse the lines of the Intel HEX file `path` into a flat list of
/// `(address, byte)` pairs, up to the end-of-file record.
pub fn parse_hex_file(path: &str, lines: &Vec<String>) -> (r: Result<Vec<(u64, u8)>, MergehexError>)
    requires
        !(hex_file_outcome(lines_view(lines@)) is Panics),
    ensures
        reports_file(hex_file_outcome(lines_view(lines@)), path@, r),
{
    let ghost ls = lines_view(lines@);
    let mut decoder = HexDecoder::new();
    let n = lines.len();
    for i in 0..n
        invariant
            n == lines@.len(),
            ls == lines_view(lines@),
            !decoder@.eof_seen,
            hex_file_outcome(ls) == hex_file_from(ls, i as int, decoder@),
            !(hex_file_outcome(ls) is Panics),
    {
        let line = lines[i].as_str();
        proof {
            assert(ls[i as int] == line@);
            assert(hex_file_from(ls, i as int, decoder@) == match line_step(decoder@, ls[i as int]) {
                LineStep::Next(s2) => hex_file_from(ls, i + 1, s2),
                LineStep::End => HexFileOutcome::Pairs(decoder@.pairs),
                LineStep::Fault(f) => HexFileOutcome::LineFault { line: i + 1, fault: f },
                LineStep::Panics => HexFileOutcome::Panics,
            });
        }
        let done = decoder.feed(path, i + 1, line)?;
        if done {
            return decoder.finish();
        }
    }
    decoder.finish()
}


/// Whether decoding the digit text `s` runs into a pair that does not end on a
/// character boundary before it finds an invalid pair.
fn digits_panic(s: &str) -> (b: bool)
    ensures
        b == (decode_digits(s@) is Panics),
{
    let mut rest: &str = s;
    loop
        invariant
            (decode_digits(s@) is Panics) == (decode_digits(rest@) is Panics),
        decreases rest@.len(),
    {
        let rb = rest.as_bytes();
        let ghost d = rest@;
        if rb.len() == 0 {
            proof {
                lemma_first_byte(d);
            }
            return false;
        }
        proof {
            lemma_utf8_len_nonneg_first(d);
            lemma_encode_scalar_width(d[0]);
            if d.len() >= 2 {
                lemma_utf8_len_nonneg_first(d.drop_first());
                lemma_encode_scalar_width(d[1]);
                assert(d.drop_first()[0] == d[1]);
                if utf8_width(d[0]) == 1 {
                    assert(encode_utf8(d)[1] == encode_utf8(d.drop_first())[0]);
                }
            } else {
                assert(d.drop_first() =~= Seq::<char>::empty());
            }
        }
        let b0 = rb[0];
        if b0 < 0x80 {
            if rb.len() < 2 || rb[1] >= 0x80 {
                return true;
            }
            proof {
                lemma_take_two_ascii(d);
            }
            let (pair, tail) = split_chars(rest, Ghost(2int), 2);
            if u8_from_hex(pair).is_err() {
                return false;
            }
            rest = tail;
        } else if 0xC0 <= b0 && b0 <= 0xDF {
            proof {
                lemma_take_one_wide(d);
            }
            let (pair, tail) = split_chars(rest, Ghost(1int), 2);
            if u8_from_hex(pair).is_err() {
                return false;
            }
            rest = tail;
        } else {
            return true;
        }
    }
}

/// Whether `Record::parse` would run into a pair of digits that does not end on a
/// character boundary of the trimmed line, where slicing the text panics; callers
/// test this before they parse a line.
pub fn record_slicing_panics(line: &str) -> (b: bool)
    ensures
        b == (record_outcome(trim_chars(line@)) is Panics),
{
    let t = trim(line);
    let tb = t.as_bytes();
    proof {
        lemma_first_byte(t@);
    }
    if tb.len() == 0 || tb[0] != 0x3A {
        return false;
    }
    let n = tb.len();
    if n < 11 || n % 2 != 1 {
        return false;
    }
    let (_, digits) = split_chars(t, Ghost(1int), 1);
    proof {
        assert(t@.skip(1) =~= t@.drop_first());
    }
    digits_panic(digits)
}

} // verus!
