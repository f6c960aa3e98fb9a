//! What reading back the written Intel HEX text gives.
use vstd::prelude::*;

use crate::hex::{
    reports_record, reports_file,    block_len, block_len_from, byte_sum, checksum_of, data_fields, data_pairs, decode_digits, ela_fields,
    eof_fields, hex_digit, hex_file_from, hex_file_outcome, hex_upper, image_records, initial_state,
    image_text, line_step, record_from_bytes, record_outcome, record_text, records_from, records_text,
    be16, DigitsOutcome, HexFileOutcome,
    HexState, LineStep, Record, RecordOutcome, RecordView, lemma_block_len_bounds,
};
use crate::memory::{
    law_error_refuses_overlap, law_ignore_earlier_wins, law_replace_later_wins, lemma_listing_maps_back,
    lemma_memory_listing, listing, merge_outcome, MemoryMap, OverlapPolicy,
};
use crate::text::{
    digit_value, digits_value, is_white_space, parse_unsigned, trim_chars, trim_end_chars,
    trim_start_chars, utf8_len, utf8_width, lemma_utf8_len_nonneg_first,
};

verus! {

broadcast use vstd::seq_lib::group_seq_properties;

/// The characters of an ASCII byte sequence.
pub open spec fn ascii_chars(b: Seq<u8>) -> Seq<char> {
    b.map_values(|x: u8| x as char)
}

/// The line of a record with the given fields, as it reads back without its newline.
pub open spec fn record_line(fields: Seq<u8>) -> Seq<char> {
    ascii_chars(seq![0x3Au8] + hex_upper(fields.push(checksum_of(fields))))
}

/// The lines of the Intel HEX text written for the sorted pairs `p`.
pub open spec fn image_lines(p: Seq<(u64, u8)>) -> Seq<Seq<char>> {
    image_records(p).map_values(|f: Seq<u8>| record_line(f))
}

/* Hex digits */

proof fn lemma_hex_upper_len(b: Seq<u8>)
    ensures
        hex_upper(b).len() == 2 * b.len(),
    decreases b.len(),
{
    if b.len() > 0 {
        lemma_hex_upper_len(b.drop_last());
    }
}

proof fn lemma_hex_upper_front(b: Seq<u8>)
    requires
        b.len() > 0,
    ensures
        hex_upper(b) == seq![hex_digit(b[0] / 16), hex_digit(b[0] % 16)] + hex_upper(b.drop_first()),
    decreases b.len(),
{
    if b.len() == 1 {
        assert(b.drop_last() =~= Seq::<u8>::empty());
        assert(b.drop_first() =~= Seq::<u8>::empty());
    } else {
        lemma_hex_upper_front(b.drop_last());
        assert(b.drop_last().drop_first() =~= b.drop_first().drop_last());
        assert(b.drop_last()[0] == b[0]);
        assert(b.drop_first().last() == b.last());
    }
}

proof fn lemma_hex_char(n: u8)
    requires
        n < 16,
    ensures
        utf8_width(hex_digit(n) as char) == 1,
        digit_value(hex_digit(n) as char) == Some(n as nat),
        hex_digit(n) as char != '+',
        !is_white_space(hex_digit(n) as char),
{
}

/// The hex digits of `g` decode back to `g`.
proof fn lemma_decode_hex_upper(g: Seq<u8>)
    ensures
        decode_digits(ascii_chars(hex_upper(g))) == DigitsOutcome::Bytes(g),
    decreases g.len(),
{
    let d = ascii_chars(hex_upper(g));
    if g.len() == 0 {
        assert(d =~= Seq::<char>::empty());
    } else {
        lemma_hex_upper_front(g);
        lemma_hex_upper_len(g);
        let x = g[0];
        let h = hex_digit(x / 16) as char;
        let l = hex_digit(x % 16) as char;
        lemma_hex_char(x / 16);
        lemma_hex_char(x % 16);
        assert(d[0] == h);
        assert(d[1] == l);
        let two = d.take(2);
        assert(two =~= seq![h, l]);
        assert(two.drop_last() =~= seq![h]);
        assert(seq![h].drop_last() =~= Seq::<char>::empty());
        assert(digits_value(Seq::<char>::empty(), 16) == Some(0nat));
        assert(seq![h].last() == h);
        assert(digits_value(seq![h], 16) == Some((x / 16) as nat));
        assert(digits_value(two, 16) == Some((x / 16) as nat * 16 + (x % 16) as nat));
        assert(parse_unsigned(two, 16, 0xFF) == Some(x as nat));
        assert(d.skip(2) =~= ascii_chars(hex_upper(g.drop_first())));
        lemma_decode_hex_upper(g.drop_first());
        assert(seq![x] + g.drop_first() =~= g);
    }
}

/* One record line */

proof fn lemma_ascii_len(cs: Seq<char>)
    requires
        forall|i: int| 0 <= i < cs.len() ==> utf8_width(#[trigger] cs[i]) == 1,
    ensures
        utf8_len(cs) == cs.len(),
    decreases cs.len(),
{
    if cs.len() > 0 {
        lemma_utf8_len_nonneg_first(cs);
        lemma_ascii_len(cs.drop_first());
    }
}

/// A record line is `:` followed by the hex digits of its fields and checksum.
proof fn lemma_line_head(f: Seq<u8>)
    requires
        4 <= f.len() <= 300,
    ensures
        record_line(f).len() == 1 + 2 * (f.len() + 1),
        record_line(f)[0] == ':',
        record_line(f).drop_first() == ascii_chars(hex_upper(f.push(checksum_of(f)))),
{
    let g = f.push(checksum_of(f));
    let h = hex_upper(g);
    let line = record_line(f);
    lemma_hex_upper_len(g);
    assert(line.drop_first() =~= ascii_chars(h));
}

/// Every character of a record line is a single byte and no whitespace.
proof fn lemma_line_shape(f: Seq<u8>)
    requires
        4 <= f.len() <= 300,
    ensures
        forall|i: int| 0 <= i < record_line(f).len() ==> utf8_width(#[trigger] record_line(f)[i]) == 1,
        forall|i: int| 0 <= i < record_line(f).len() ==> !is_white_space(#[trigger] record_line(f)[i]),
{
    let g = f.push(checksum_of(f));
    let h = hex_upper(g);
    let line = record_line(f);
    lemma_hex_upper_len(g);
    let bytes = seq![0x3Au8] + h;
    assert(line == ascii_chars(bytes));
    assert forall|i: int| 0 <= i < line.len() implies utf8_width(#[trigger] line[i]) == 1 && !is_white_space(line[i]) by {
        assert(line[i] == bytes[i] as char);
        if i > 0 {
            assert(bytes[i] == h[i - 1]);
            lemma_hex_digits_only(g, i - 1);
        }
    }
}

/// A record line is its own trimmed form and has the odd byte length that parsing asks for.
proof fn lemma_line_trim(f: Seq<u8>)
    requires
        4 <= f.len() <= 300,
    ensures
        trim_chars(record_line(f)) == record_line(f),
        record_line(f).len() > 0,
        utf8_len(record_line(f)) == record_line(f).len(),
{
    let line = record_line(f);
    lemma_line_head(f);
    lemma_line_shape(f);
    lemma_ascii_len(line);
    assert(trim_start_chars(line) == line);
    assert(trim_end_chars(line) == line);
}

/// A record line decodes to its fields and checksum.
#[verifier::spinoff_prover]
proof fn lemma_record_line(f: Seq<u8>)
    requires
        4 <= f.len() <= 300,
    ensures
        trim_chars(record_line(f)) == record_line(f),
        record_line(f).len() > 0,
        record_outcome(record_line(f)) == record_from_bytes(f.push(checksum_of(f))),
{
    let g = f.push(checksum_of(f));
    lemma_line_head(f);
    lemma_line_trim(f);
    lemma_decode_hex_upper(g);
}

/// Every character of the hex text of `b` is an uppercase hex digit.
proof fn lemma_hex_digits_only(b: Seq<u8>, i: int)
    requires
        0 <= i < 2 * b.len(),
    ensures
        utf8_width(hex_upper(b)[i] as char) == 1,
        !is_white_space(hex_upper(b)[i] as char),
    decreases b.len(),
{
    lemma_hex_upper_len(b.drop_last());
    let n = 2 * (b.len() - 1);
    if i < n {
        lemma_hex_digits_only(b.drop_last(), i);
    } else {
        lemma_hex_char(b.last() / 16);
        lemma_hex_char(b.last() % 16);
    }
}

/// The line written for a data record of at most 255 bytes parses back to that record.
pub proof fn law_data_record_line(offset: u16, data: Seq<u8>)
    requires
        data.len() <= 255,
    ensures
        trim_chars(record_line(data_fields(offset, data))) == record_line(data_fields(offset, data)),
        record_line(data_fields(offset, data)).len() > 0,
        record_outcome(record_line(data_fields(offset, data))) == RecordOutcome::Parsed(RecordView::Data { offset, data }),
{
    let f = data_fields(offset, data);
    lemma_record_line(f);
    let g = f.push(checksum_of(f));
    assert(g.drop_last() =~= f);
    assert(g.subrange(4, g.len() - 1) =~= data);
    assert(be16(g[1], g[2]) == offset);
}

proof fn lemma_ela_line(ula: u16)
    ensures
        trim_chars(record_line(ela_fields(ula))) == record_line(ela_fields(ula)),
        record_line(ela_fields(ula)).len() > 0,
        record_outcome(record_line(ela_fields(ula))) == RecordOutcome::Parsed(RecordView::ExtendedLinearAddress(ula)),
{
    let f = ela_fields(ula);
    lemma_record_line(f);
    let g = f.push(checksum_of(f));
    assert(g.drop_last() =~= f);
    let data = g.subrange(4, g.len() - 1);
    assert(data =~= seq![f[4], f[5]]);
    assert(be16(data[0], data[1]) == ula);
}

proof fn lemma_eof_line()
    ensures
        trim_chars(record_line(eof_fields())) == record_line(eof_fields()),
        record_line(eof_fields()).len() > 0,
        record_outcome(record_line(eof_fields())) == RecordOutcome::Parsed(RecordView::EndOfFile),
{
    let f = eof_fields();
    lemma_record_line(f);
    let g = f.push(checksum_of(f));
    assert(g.drop_last() =~= f);
}

/// Reading an extended linear address line sets the linear base and clears the segment base.
proof fn lemma_ela_step(s: HexState, ula: u16)
    ensures
        line_step(s, record_line(ela_fields(ula))) == LineStep::Next(
            HexState { base: (ula as nat * 65536) as u64, segment: 0, ..s },
        ),
{
    lemma_ela_line(ula);
}

/// Reading the end-of-file line stops.
proof fn lemma_eof_step(s: HexState)
    ensures
        line_step(s, record_line(eof_fields())) == LineStep::End,
{
    lemma_eof_line();
}

/* The whole file */

/// Inside one data record the addresses are consecutive.
proof fn lemma_block_contiguous(p: Seq<(u64, u8)>, i: int, k: int)
    requires
        0 <= i < p.len(),
        1 <= k <= 32,
        i + k <= p.len(),
        forall|t: int| 0 <= t < k ==> #[trigger] p[i + t].0 == p[i].0 + t,
    ensures
        forall|t: int| 0 <= t < block_len_from(p, i, k) ==> #[trigger] p[i + t].0 == p[i].0 + t,
    decreases 32 - k,
{
    if k < 32 && i + k < p.len() && p[i + k].0 == p[i].0 + k {
        assert forall|t: int| 0 <= t < k + 1 implies #[trigger] p[i + t].0 == p[i].0 + t by {
            if t < k {
            } else {
                assert(t == k);
            }
        }
        lemma_block_contiguous(p, i, k + 1);
    }
}

/// Reading the data record that starts at index `i` adds exactly the pairs of that record.
#[verifier::rlimit(40)]
proof fn lemma_data_step(p: Seq<(u64, u8)>, i: int, s: HexState)
    requires
        0 <= i < p.len(),
        p[i].0 < 0x1_0000_0000,
        s.segment == 0,
        s.base == (p[i].0 / 65536) * 65536,
        s.pairs == p.take(i),
    ensures
        ({
            let j = i + block_len(p, i);
            let bytes = p.subrange(i, j).map_values(|e: (u64, u8)| e.1);
            let line = record_line(data_fields((p[i].0 % 65536) as u16, bytes));
            line_step(s, line) == LineStep::Next(HexState { pairs: p.take(j), ..s })
        }),
{
    let a = p[i].0;
    lemma_block_len_bounds(p, i, 1);
    let j = i + block_len(p, i);
    let bytes = p.subrange(i, j).map_values(|e: (u64, u8)| e.1);
    let offset = (a % 65536) as u16;
    law_data_record_line(offset, bytes);
    lemma_block_contiguous(p, i, 1);
    assert(s.base + s.segment + offset == a);
    let added = data_pairs(s.base + s.segment + offset, bytes);
    assert(added =~= p.subrange(i, j)) by {
        assert forall|t: int| 0 <= t < added.len() implies added[t] == p.subrange(i, j)[t] by {
            assert(p[i + t].0 == a + t);
        }
    }
    assert(p.take(i) + p.subrange(i, j) =~= p.take(j));
}

/// Reading the lines `lines` from index `k`, where the records from index `i` of
/// the pairs follow, gives all the pairs.
#[verifier::rlimit(60)]
#[verifier::spinoff_prover]
proof fn lemma_records_read_back(
    lines: Seq<Seq<char>>,
    k: int,
    p: Seq<(u64, u8)>,
    i: int,
    prev: Option<u64>,
    s: HexState,
)
    requires
        forall|a: int| 0 <= a < p.len() ==> #[trigger] p[a].0 < 0x1_0000_0000,
        0 <= i <= p.len(),
        0 <= k,
        lines.len() == k + records_from(p, i, prev).len() + 1,
        forall|t: int| 0 <= t < records_from(p, i, prev).len() ==> #[trigger] lines[k + t] == record_line(records_from(p, i, prev)[t]),
        lines[lines.len() - 1] == record_line(eof_fields()),
        s.pairs == p.take(i),
        s.segment == 0,
        prev matches Some(u) ==> s.base == u * 65536,
    ensures
        hex_file_from(lines, k, s) == HexFileOutcome::Pairs(p),
    decreases p.len() - i,
{
    if i == p.len() {
        assert(records_from(p, i, prev).len() == 0);
        lemma_eof_step(s);
        assert(p.take(i) =~= p);
    } else {
        let a = p[i].0;
        let u = (a / 65536) as u64;
        lemma_block_len_bounds(p, i, 1);
        let j = i + block_len(p, i);
        let head = if prev == Some(u) {
            Seq::<Seq<u8>>::empty()
        } else {
            seq![ela_fields(#[verifier::truncate] (u as u16))]
        };
        let bytes = p.subrange(i, j).map_values(|e: (u64, u8)| e.1);
        let rec = data_fields((a % 65536) as u16, bytes);
        let next = if j < p.len() && p[j].0 == p[j - 1].0 + 1 {
            Some(u)
        } else {
            None
        };
        let rs = records_from(p, i, prev);
        assert(rs == head + seq![rec] + records_from(p, j, next));
        let hl = head.len() as int;
        let s1 = HexState { base: (u * 65536) as u64, segment: 0, ..s };
        assert(u < 65536);
        if hl == 1 {
            assert(lines[k + 0] == record_line(rs[0]));
            assert(rs[0] == ela_fields(#[verifier::truncate] (u as u16)));
            lemma_ela_step(s, #[verifier::truncate] (u as u16));
            assert(line_step(s, lines[k]) == LineStep::Next(s1));
        } else {
            assert(s1 == s);
        }
        assert(lines[k + hl] == record_line(rs[hl]));
        assert(rs[hl] == rec);
        lemma_data_step(p, i, s1);
        let s2 = HexState { pairs: p.take(j), ..s1 };
        assert(line_step(s1, lines[k + hl]) == LineStep::Next(s2));
        let rest = records_from(p, j, next);
        assert forall|t: int| 0 <= t < rest.len() implies #[trigger] lines[(k + hl + 1) + t] == record_line(rest[t]) by {
            assert(rs[hl + 1 + t] == rest[t]);
            assert(lines[k + (hl + 1 + t)] == record_line(rs[hl + 1 + t]));
        }
        lemma_records_read_back(lines, k + hl + 1, p, j, next, s2);
        if hl == 1 {
            assert(hex_file_from(lines, k + 1, s1) == hex_file_from(lines, k + 2, s2));
        }
    }
}

/// Reading back the text that `write_hex` writes for a memory map, split into its
/// lines, gives exactly its bytes in address order, when every address lies below
/// 4 GiB (extended linear address records carry only 16 bits of the upper address
/// half).
pub proof fn law_write_then_read(memory: MemoryMap)
    requires
        forall|a: u64| #[trigger] memory@.contains_key(a) ==> a < 0x1_0000_0000,
    ensures
        hex_file_outcome(split_lines(ascii_chars(image_text(listing(memory@))))) == HexFileOutcome::Pairs(
            listing(memory@),
        ),
        hex_file_outcome(image_lines(listing(memory@))) == HexFileOutcome::Pairs(listing(memory@)),
{
    law_image_text_lines(listing(memory@));
    lemma_memory_listing(&memory);
    let p = listing(memory@);
    assert forall|x: int| 0 <= x < p.len() implies #[trigger] p[x].0 < 0x1_0000_0000 by {
        assert(memory@.contains_key(p[x].0));
    }
    let lines = image_lines(p);
    let rs = records_from(p, 0, None);
    assert(image_records(p) == rs.push(eof_fields()));
    assert forall|t: int| 0 <= t < rs.len() implies #[trigger] lines[0 + t] == record_line(rs[t]) by {
        assert(image_records(p)[t] == rs[t]);
    }
    assert(p.take(0) =~= Seq::<(u64, u8)>::empty());
    lemma_records_read_back(lines, 0, p, 0, None, initial_state());
}

/// The image read back from the written text and merged into an empty map, under
/// any overlap policy, is the memory map that was written (addresses below 4 GiB).
pub proof fn law_write_read_merge(memory: MemoryMap, policy: OverlapPolicy)
    requires
        forall|a: u64| #[trigger] memory@.contains_key(a) ==> a < 0x1_0000_0000,
    ensures
        hex_file_outcome(split_lines(ascii_chars(image_text(listing(memory@))))) matches HexFileOutcome::Pairs(ps)
            && merge_outcome(Map::empty(), ps, policy) == Ok::<Map<u64, u8>, (u64, Map<u64, u8>)>(memory@),
{
    law_write_then_read(memory);
    lemma_memory_listing(&memory);
    let ps = listing(memory@);
    lemma_listing_maps_back(ps, memory@);
    match policy {
        OverlapPolicy::Replace => {
            law_replace_later_wins(Map::empty(), ps);
            assert(Map::<u64, u8>::empty().union_prefer_right(memory@) =~= memory@);
        },
        OverlapPolicy::Ignore => {
            law_ignore_earlier_wins(Map::empty(), ps);
            assert(memory@.union_prefer_right(Map::<u64, u8>::empty()) =~= memory@);
        },
        OverlapPolicy::Error => {
            law_error_refuses_overlap(Map::empty(), ps);
            assert(Map::<u64, u8>::empty().union_prefer_right(memory@) =~= memory@);
        },
    }
}


/* The written text as lines */

/// The lines of the text `t` from a line begun with `cur`: the text is split at
/// each newline, which is dropped; a last line without newline counts when it is
/// not empty.
pub open spec fn split_lines_from(t: Seq<char>, cur: Seq<char>) -> Seq<Seq<char>>
    decreases t.len(),
{
    if t.len() == 0 {
        if cur.len() == 0 {
            Seq::empty()
        } else {
            seq![cur]
        }
    } else if t[0] == '\n' {
        seq![cur] + split_lines_from(t.drop_first(), Seq::empty())
    } else {
        split_lines_from(t.drop_first(), cur.push(t[0]))
    }
}

/// The lines of the text `t`, split at each newline as `BufRead::lines` splits a
/// text that holds no carriage return.
pub open spec fn split_lines(t: Seq<char>) -> Seq<Seq<char>> {
    split_lines_from(t, Seq::empty())
}

/// Lines joined into a text, each followed by a newline.
pub open spec fn joined_lines(ls: Seq<Seq<char>>) -> Seq<char>
    decreases ls.len(),
{
    if ls.len() == 0 {
        Seq::empty()
    } else {
        ls[0].push('\n') + joined_lines(ls.drop_first())
    }
}

proof fn lemma_joined_push(ls: Seq<Seq<char>>, l: Seq<char>)
    ensures
        joined_lines(ls.push(l)) == joined_lines(ls) + l.push('\n'),
    decreases ls.len(),
{
    if ls.len() == 0 {
        assert(ls.push(l).drop_first() =~= Seq::<Seq<char>>::empty());
        assert(joined_lines(ls.push(l)) =~= l.push('\n'));
    } else {
        assert(ls.push(l).drop_first() =~= ls.drop_first().push(l));
        lemma_joined_push(ls.drop_first(), l);
    }
}

/// A line without newline, followed by a newline, is split off whole.
proof fn lemma_split_one(l: Seq<char>, rest: Seq<char>, cur: Seq<char>)
    requires
        !l.contains('\n'),
    ensures
        split_lines_from(l.push('\n') + rest, cur) == seq![cur + l] + split_lines_from(rest, Seq::empty()),
    decreases l.len(),
{
    let t = l.push('\n') + rest;
    if l.len() == 0 {
        assert(t[0] == '\n');
        assert(t.drop_first() =~= rest);
        assert(cur + l =~= cur);
    } else {
        assert(t[0] == l[0]);
        assert(l[0] != '\n');
        assert(t.drop_first() =~= l.drop_first().push('\n') + rest);
        assert(!l.drop_first().contains('\n')) by {
            if l.drop_first().contains('\n') {
                let k = choose|k: int| 0 <= k < l.drop_first().len() && l.drop_first()[k] == '\n';
                assert(l[k + 1] == '\n');
            }
        }
        lemma_split_one(l.drop_first(), rest, cur.push(l[0]));
        assert(cur.push(l[0]) + l.drop_first() =~= cur + l);
    }
}

/// Splitting lines that hold no newline, once joined, gives them back.
pub proof fn lemma_split_joined(ls: Seq<Seq<char>>)
    requires
        forall|i: int| 0 <= i < ls.len() ==> !(#[trigger] ls[i]).contains('\n'),
    ensures
        split_lines(joined_lines(ls)) == ls,
    decreases ls.len(),
{
    if ls.len() == 0 {
    } else {
        let rest = ls.drop_first();
        assert forall|i: int| 0 <= i < rest.len() implies !(#[trigger] rest[i]).contains('\n') by {
            assert(rest[i] == ls[i + 1]);
        }
        lemma_split_joined(rest);
        assert(!ls[0].contains('\n'));
        lemma_split_one(ls[0], joined_lines(rest), Seq::empty());
        assert(Seq::<char>::empty() + ls[0] =~= ls[0]);
        assert(seq![ls[0]] + rest =~= ls);
    }
}

/// No record line holds a newline.
proof fn lemma_record_line_no_newline(f: Seq<u8>)
    ensures
        !record_line(f).contains('\n'),
{
    let g = f.push(checksum_of(f));
    let h = hex_upper(g);
    lemma_hex_upper_len(g);
    let bytes = seq![0x3Au8] + h;
    let line = record_line(f);
    assert(line == ascii_chars(bytes));
    if line.contains('\n') {
        let i = choose|i: int| 0 <= i < line.len() && line[i] == '\n';
        assert(line[i] == bytes[i] as char);
        assert(is_white_space('\n'));
        if i == 0 {
            assert((0x3Au8 as char) != '\n');
        } else {
            assert(bytes[i] == h[i - 1]);
            lemma_hex_digits_only(g, i - 1);
        }
    }
}

/// The characters of the text of one record are its line and a newline.
proof fn lemma_record_text_chars(f: Seq<u8>)
    ensures
        ascii_chars(record_text(f)) == record_line(f).push('\n'),
{
    let g = f.push(checksum_of(f));
    let head = seq![0x3Au8] + hex_upper(g);
    assert(record_text(f) == head + seq![0x0Au8]);
    assert((0x0Au8 as char) == '\n');
    assert(ascii_chars(head + seq![0x0Au8]) =~= ascii_chars(head).push('\n'));
}

/// The characters of the text of records are their lines, joined.
proof fn lemma_records_text_chars(rs: Seq<Seq<u8>>)
    ensures
        ascii_chars(records_text(rs)) == joined_lines(rs.map_values(|f: Seq<u8>| record_line(f))),
    decreases rs.len(),
{
    let ls = rs.map_values(|f: Seq<u8>| record_line(f));
    if rs.len() == 0 {
        assert(ascii_chars(records_text(rs)) =~= Seq::<char>::empty());
    } else {
        let front = rs.drop_last();
        lemma_records_text_chars(front);
        lemma_record_text_chars(rs.last());
        assert(ls =~= front.map_values(|f: Seq<u8>| record_line(f)).push(record_line(rs.last())));
        lemma_joined_push(front.map_values(|f: Seq<u8>| record_line(f)), record_line(rs.last()));
        assert(ascii_chars(records_text(front) + record_text(rs.last())) =~= ascii_chars(records_text(front))
            + ascii_chars(record_text(rs.last())));
    }
}

/// The text that `write_hex` writes for the sorted pairs `p`, split into lines, is
/// `image_lines(p)`: one line per record, each ended by a newline.
pub proof fn law_image_text_lines(p: Seq<(u64, u8)>)
    ensures
        ascii_chars(image_text(p)) == joined_lines(image_lines(p)),
        split_lines(ascii_chars(image_text(p))) == image_lines(p),
{
    let rs = image_records(p);
    lemma_records_text_chars(rs);
    let ls = image_lines(p);
    assert forall|i: int| 0 <= i < ls.len() implies !(#[trigger] ls[i]).contains('\n') by {
        lemma_record_line_no_newline(rs[i]);
    }
    lemma_split_joined(ls);
}

/// The text written for a data record of at most 255 bytes (`write_data_record`)
/// is parsed by `Record::parse` back to that record, and so is the text written
/// for an extended linear address record.
pub proof fn law_record_text_parses_back(offset: u16, data: Seq<u8>, ula: u16)
    requires
        data.len() <= 255,
    ensures
        record_outcome(trim_chars(ascii_chars(record_text(data_fields(offset, data)))))
            == RecordOutcome::Parsed(RecordView::Data { offset, data }),
        record_outcome(trim_chars(ascii_chars(record_text(ela_fields(ula)))))
            == RecordOutcome::Parsed(RecordView::ExtendedLinearAddress(ula)),
{
    let f = data_fields(offset, data);
    law_data_record_line(offset, data);
    lemma_record_text_chars(f);
    lemma_trim_newline(record_line(f));
    lemma_ela_line(ula);
    lemma_record_text_chars(ela_fields(ula));
    lemma_trim_newline(record_line(ela_fields(ula)));
}

/// A trimmed, non-empty line followed by a newline trims to the line.
proof fn lemma_trim_newline(l: Seq<char>)
    requires
        l.len() > 0,
        trim_chars(l) == l,
    ensures
        trim_chars(l.push('\n')) == l,
{
    assert(is_white_space('\n'));
    let t = l.push('\n');
    // the line starts and ends with a non-whitespace character
    assert(!is_white_space(l[0])) by {
        if is_white_space(l[0]) {
            lemma_trim_start_shorter(l);
            lemma_trim_end_shorter(trim_start_chars(l));
        }
    }
    assert(trim_start_chars(l) == l);
    assert(!is_white_space(l.last())) by {
        if is_white_space(l.last()) {
            lemma_trim_end_shorter(l);
        }
    }
    assert(t[0] == l[0]);
    assert(trim_start_chars(t) == t);
    assert(t.drop_last() =~= l);
    assert(trim_end_chars(l) == l);
}

proof fn lemma_trim_start_shorter(s: Seq<char>)
    ensures
        trim_start_chars(s).len() <= s.len(),
        s.len() > 0 && is_white_space(s[0]) ==> trim_start_chars(s).len() < s.len(),
    decreases s.len(),
{
    if s.len() > 0 && is_white_space(s[0]) {
        lemma_trim_start_shorter(s.drop_first());
    }
}

proof fn lemma_trim_end_shorter(s: Seq<char>)
    ensures
        trim_end_chars(s).len() <= s.len(),
        s.len() > 0 && is_white_space(s.last()) ==> trim_end_chars(s).len() < s.len(),
    decreases s.len(),
{
    if s.len() > 0 && is_white_space(s.last()) {
        lemma_trim_end_shorter(s.drop_last());
    }
}


/* The meaning of a record's bytes */

/// The sum of the bytes, as an integer.
pub open spec fn sum_of_bytes(b: Seq<u8>) -> int {
    b.fold_left(0int, |acc: int, x: u8| acc + x)
}

proof fn lemma_sum_of_bytes(b: Seq<u8>)
    ensures
        sum_of_bytes(b) == byte_sum(b),
    decreases b.len(),
{
    if b.len() > 0 {
        lemma_sum_of_bytes(b.drop_last());
    }
}

/// A big-endian word of two bytes.
pub open spec fn word(hi: u8, lo: u8) -> int {
    hi * 256 + lo
}

/// The bytes of a record line (count, two offset bytes, type, data, checksum) mean:
/// a count that disagrees with the number of data bytes is malformed; otherwise a
/// sum of all bytes that is not 0 modulo 256 is a checksum mismatch, reported
/// with the last byte and the byte that would make the sum 0; otherwise the type
/// decides: data at the big-endian offset, end of file, and the address records
/// with their big-endian words when their data has the length of their kind
/// (malformed otherwise), and any other type is malformed.
pub proof fn law_record_bytes(b: Seq<u8>)
    requires
        b.len() >= 5,
    ensures
        b.len() != b[0] + 5 ==> record_from_bytes(b) is Malformed,
        b.len() == b[0] + 5 && sum_of_bytes(b) % 256 != 0 ==> (record_from_bytes(b) matches RecordOutcome::ChecksumMismatch {
            expected,
            computed,
        } && expected == b.last() && (sum_of_bytes(b.drop_last()) + computed) % 256 == 0),
        b.len() == b[0] + 5 && sum_of_bytes(b) % 256 == 0 ==> {
            let n = b[0] as int;
            &&& b[3] == 0 ==> record_from_bytes(b) == RecordOutcome::Parsed(
                RecordView::Data { offset: word(b[1], b[2]) as u16, data: b.subrange(4, 4 + n) },
            )
            &&& b[3] == 1 ==> record_from_bytes(b) == RecordOutcome::Parsed(RecordView::EndOfFile)
            &&& b[3] == 2 ==> record_from_bytes(b) == if n == 2 {
                RecordOutcome::Parsed(RecordView::ExtendedSegmentAddress(word(b[4], b[5]) as u16))
            } else {
                RecordOutcome::Malformed("extended segment address must contain 2 bytes"@)
            }
            &&& b[3] == 3 ==> record_from_bytes(b) == if n == 4 {
                RecordOutcome::Parsed(
                    RecordView::StartSegmentAddress { cs: word(b[4], b[5]) as u16, ip: word(b[6], b[7]) as u16 },
                )
            } else {
                RecordOutcome::Malformed("start segment address must contain 4 bytes"@)
            }
            &&& b[3] == 4 ==> record_from_bytes(b) == if n == 2 {
                RecordOutcome::Parsed(RecordView::ExtendedLinearAddress(word(b[4], b[5]) as u16))
            } else {
                RecordOutcome::Malformed("extended linear address must contain 2 bytes"@)
            }
            &&& b[3] == 5 ==> record_from_bytes(b) == if n == 4 {
                RecordOutcome::Parsed(RecordView::StartLinearAddress((word(b[4], b[5]) * 65536 + word(b[6], b[7])) as u32))
            } else {
                RecordOutcome::Malformed("start linear address must contain 4 bytes"@)
            }
            &&& b[3] > 5 ==> record_from_bytes(b) is Malformed
        },
{
    lemma_sum_of_bytes(b);
    lemma_sum_of_bytes(b.drop_last());
    let s = byte_sum(b.drop_last());
    assert(byte_sum(b) == s + b.last());
    let c = checksum_of(b.drop_last());
    assert(c == ((256 - s % 256) % 256) as u8);
    assert((s + c) % 256 == 0) by {
        assert(0 <= s % 256 < 256);
    }
    assert((c == b.last()) == ((s + b.last()) % 256 == 0)) by {
        assert(0 <= s % 256 < 256);
        assert(b.last() < 256);
    }
    if b.len() == b[0] + 5 {
        let data = b.subrange(4, b.len() - 1);
        if data.len() >= 2 {
            assert(data[0] == b[4] && data[1] == b[5]);
        }
        if data.len() >= 4 {
            assert(data[2] == b[6] && data[3] == b[7]);
        }
    }
}


/* Reading lines */

/// The pairs that a data record with `offset` and `data` places when its address
/// records put the record at `base`: byte `k` at `base + offset + k`.
pub open spec fn placed_at(base: int, offset: u16, data: Seq<u8>) -> Seq<(u64, u8)> {
    Seq::new(data.len(), |k: int| ((base + offset + k) as u64, data[k]))
}

/// After an extended segment address record with `seg`, a data record with
/// `offset` places its bytes from `seg * 16 + offset` on; after an extended linear
/// address record with `ula`, from `ula * 65536 + offset` on.
pub proof fn law_address_record_then_data(
    s: HexState,
    address_line: Seq<char>,
    data_line: Seq<char>,
    offset: u16,
    data: Seq<u8>,
)
    requires
        trim_chars(address_line).len() > 0,
        trim_chars(data_line).len() > 0,
        record_outcome(trim_chars(data_line)) == RecordOutcome::Parsed(RecordView::Data { offset, data }),
    ensures
        record_outcome(trim_chars(address_line)) matches RecordOutcome::Parsed(RecordView::ExtendedSegmentAddress(seg))
            ==> (line_step(s, address_line) matches LineStep::Next(s1) && line_step(s1, data_line) matches LineStep::Next(s2)
            && s2.pairs == s.pairs + placed_at(seg * 16, offset, data)),
        record_outcome(trim_chars(address_line)) matches RecordOutcome::Parsed(RecordView::ExtendedLinearAddress(ula))
            ==> (line_step(s, address_line) matches LineStep::Next(s1) && line_step(s1, data_line) matches LineStep::Next(s2)
            && s2.pairs == s.pairs + placed_at(ula * 65536, offset, data)),
{
    match record_outcome(trim_chars(address_line)) {
        RecordOutcome::Parsed(RecordView::ExtendedSegmentAddress(seg)) => {
            let s1 = HexState { base: 0, segment: (seg as nat * 16) as u64, ..s };
            assert(line_step(s, address_line) == LineStep::Next(s1));
            assert(data_pairs(s1.base + s1.segment + offset, data) =~= placed_at(seg * 16, offset, data));
        },
        RecordOutcome::Parsed(RecordView::ExtendedLinearAddress(ula)) => {
            let s1 = HexState { base: (ula as nat * 65536) as u64, segment: 0, ..s };
            assert(line_step(s, address_line) == LineStep::Next(s1));
            assert(data_pairs(s1.base + s1.segment + offset, data) =~= placed_at(ula * 65536, offset, data));
        },
        _ => {},
    }
}

/// Blank lines change nothing, and a start address record changes nothing.
pub proof fn law_blank_and_start_lines(s: HexState, line: Seq<char>)
    ensures
        trim_chars(line).len() == 0 ==> line_step(s, line) == LineStep::Next(s),
        trim_chars(line).len() > 0 && (record_outcome(trim_chars(line)) matches RecordOutcome::Parsed(r) && (r
            is StartSegmentAddress || r is StartLinearAddress)) ==> line_step(s, line) == LineStep::Next(s),
        trim_chars(line).len() > 0 && record_outcome(trim_chars(line)) == RecordOutcome::Parsed(RecordView::EndOfFile)
            ==> line_step(s, line) == LineStep::End,
{
}

proof fn lemma_lines_after_end(lines: Seq<Seq<char>>, more: Seq<Seq<char>>, i: int, s: HexState)
    requires
        hex_file_from(lines, i, s) is Pairs,
    ensures
        hex_file_from(lines + more, i, s) == hex_file_from(lines, i, s),
    decreases lines.len() - i,
{
    if 0 <= i < lines.len() {
        assert((lines + more)[i] == lines[i]);
        match line_step(s, lines[i]) {
            LineStep::Next(s2) => {
                lemma_lines_after_end(lines, more, i + 1, s2);
            },
            _ => {},
        }
    }
}

/// The lines after the end-of-file record are not read: a file that reads to
/// some pairs reads to the same pairs whatever lines follow it.
pub proof fn law_lines_after_end_are_ignored(lines: Seq<Seq<char>>, more: Seq<Seq<char>>)
    requires
        hex_file_outcome(lines) is Pairs,
    ensures
        hex_file_outcome(lines + more) == hex_file_outcome(lines),
{
    lemma_lines_after_end(lines, more, 0, initial_state());
}

/// A file whose lines hold no end-of-file record, and no line that fails, ends
/// without one: reading it is an error.
pub proof fn law_no_end_record_is_missing(lines: Seq<Seq<char>>)
    requires
        forall|i: int| 0 <= i < lines.len() ==> trim_chars(#[trigger] lines[i]).len() == 0 || (record_outcome(trim_chars(lines[i]))
            matches RecordOutcome::Parsed(r) && !(r is EndOfFile)),
    ensures
        hex_file_outcome(lines) == HexFileOutcome::MissingEof,
{
    lemma_no_end(lines, 0, initial_state());
}

proof fn lemma_no_end(lines: Seq<Seq<char>>, i: int, s: HexState)
    requires
        0 <= i <= lines.len(),
        forall|j: int| 0 <= j < lines.len() ==> trim_chars(#[trigger] lines[j]).len() == 0 || (record_outcome(trim_chars(lines[j]))
            matches RecordOutcome::Parsed(r) && !(r is EndOfFile)),
    ensures
        hex_file_from(lines, i, s) == HexFileOutcome::MissingEof,
    decreases lines.len() - i,
{
    if i < lines.len() {
        let l = lines[i];
        assert(trim_chars(l).len() == 0 || (record_outcome(trim_chars(l)) matches RecordOutcome::Parsed(r) && !(r is EndOfFile)));
        assert(line_step(s, l) is Next);
        lemma_no_end(lines, i + 1, line_step(s, l)->Next_0);
    }
}


/* Hex digits of either case */

/// The value of a hex digit of either case.
pub open spec fn hex_char_value(c: char) -> Option<int> {
    if '0' <= c && c <= '9' {
        Some(c as int - '0' as int)
    } else if 'a' <= c && c <= 'f' {
        Some(c as int - 'a' as int + 10)
    } else if 'A' <= c && c <= 'F' {
        Some(c as int - 'A' as int + 10)
    } else {
        None
    }
}

proof fn lemma_hex_char_value(c: char)
    requires
        hex_char_value(c) is Some,
    ensures
        digit_value(c) == Some(hex_char_value(c)->0 as nat),
        0 <= hex_char_value(c)->0 < 16,
        utf8_width(c) == 1,
        c != '+',
{
}

/// Digit pairs of either case decode to the bytes `16 * high + low`, pair by pair.
pub proof fn law_decode_hex_pairs(d: Seq<char>)
    requires
        d.len() % 2 == 0,
        forall|i: int| 0 <= i < d.len() ==> #[trigger] hex_char_value(d[i]) is Some,
    ensures
        decode_digits(d) == DigitsOutcome::Bytes(
            Seq::new(d.len() / 2, |k: int| (16 * hex_char_value(d[2 * k])->0 + hex_char_value(d[2 * k + 1])->0) as u8),
        ),
    decreases d.len(),
{
    let want = Seq::new(d.len() / 2, |k: int| (16 * hex_char_value(d[2 * k])->0 + hex_char_value(d[2 * k + 1])->0) as u8);
    if d.len() == 0 {
        assert(want =~= Seq::<u8>::empty());
    } else {
        let h = d[0];
        let l = d[1];
        assert(hex_char_value(h) is Some);
        assert(hex_char_value(l) is Some);
        lemma_hex_char_value(h);
        lemma_hex_char_value(l);
        let two = d.take(2);
        assert(two =~= seq![h, l]);
        assert(two.drop_last() =~= seq![h]);
        assert(seq![h].drop_last() =~= Seq::<char>::empty());
        assert(digits_value(Seq::<char>::empty(), 16) == Some(0nat));
        assert(seq![h].last() == h);
        let hv = hex_char_value(h)->0;
        let lv = hex_char_value(l)->0;
        assert(digits_value(seq![h], 16) == Some(hv as nat));
        assert(digits_value(two, 16) == Some((hv * 16 + lv) as nat));
        assert(parse_unsigned(two, 16, 0xFF) == Some((hv * 16 + lv) as nat));
        let rest = d.skip(2);
        assert forall|i: int| 0 <= i < rest.len() implies #[trigger] hex_char_value(rest[i]) is Some by {
            assert(rest[i] == d[i + 2]);
        }
        law_decode_hex_pairs(rest);
        let want_rest = Seq::new(rest.len() / 2, |k: int| (16 * hex_char_value(rest[2 * k])->0 + hex_char_value(rest[2 * k + 1])->0) as u8);
        assert forall|k: int| 0 <= k < want_rest.len() implies want_rest[k] == want[k + 1] by {
            assert(rest[2 * k] == d[2 * (k + 1)]);
            assert(rest[2 * k + 1] == d[2 * (k + 1) + 1]);
        }
        assert(seq![((hv * 16 + lv) as nat) as u8] + want_rest =~= want);
    }
}


/* Record lengths */

proof fn lemma_block_len_stops(p: Seq<(u64, u8)>, i: int, k: int)
    requires
        0 <= i < p.len(),
        1 <= k <= 32,
        i + k <= p.len(),
    ensures
        ({
            let n = block_len_from(p, i, k);
            n < 32 && i + n < p.len() ==> p[i + n].0 != p[i].0 + n
        }),
    decreases 32 - k,
{
    if k < 32 && i + k < p.len() && p[i + k].0 == p[i].0 + k {
        lemma_block_len_stops(p, i, k + 1);
    }
}

/// The data record that starts at index `i` of sorted pairs takes between 1 and
/// 32 pairs with consecutive addresses, and takes fewer than 32 only where the
/// pairs end or the next address does not follow.
pub proof fn law_data_record_length(p: Seq<(u64, u8)>, i: int)
    requires
        0 <= i < p.len(),
    ensures
        1 <= block_len(p, i) <= 32,
        i + block_len(p, i) <= p.len(),
        forall|t: int| 0 <= t < block_len(p, i) ==> #[trigger] p[i + t].0 == p[i].0 + t,
        block_len(p, i) < 32 && i + block_len(p, i) < p.len() ==> p[i + block_len(p, i)].0 != p[i].0 + block_len(p, i),
{
    lemma_block_len_bounds(p, i, 1);
    lemma_block_contiguous(p, i, 1);
    lemma_block_len_stops(p, i, 1);
}


/// The value of a hex digit is its digit value as number parsing reads it.
pub proof fn lemma_hex_char_value_pub(c: char)
    requires
        hex_char_value(c) is Some,
    ensures
        digit_value(c) == Some(hex_char_value(c)->0 as nat),
        0 <= hex_char_value(c)->0 < 16,
        c != '+',
{
    lemma_hex_char_value(c);
}


/* What the writer emits */

/// A byte of the written text: `:`, a newline, or an upper-case hex digit.
pub open spec fn is_text_byte(x: u8) -> bool {
    x == 0x3A || x == 0x0A || (0x30 <= x <= 0x39) || (0x41 <= x <= 0x46)
}

proof fn lemma_hex_upper_alphabet(b: Seq<u8>)
    ensures
        forall|i: int| 0 <= i < hex_upper(b).len() ==> is_text_byte(#[trigger] hex_upper(b)[i]),
    decreases b.len(),
{
    if b.len() > 0 {
        lemma_hex_upper_alphabet(b.drop_last());
        let x = b.last();
        assert(is_text_byte(hex_digit(x / 16)));
        assert(is_text_byte(hex_digit(x % 16)));
        let front = hex_upper(b.drop_last());
        let h = hex_upper(b);
        assert(h == front + seq![hex_digit(x / 16), hex_digit(x % 16)]);
        assert forall|i: int| 0 <= i < h.len() implies is_text_byte(#[trigger] h[i]) by {
            if i < front.len() {
                assert(h[i] == front[i]);
            } else if i == front.len() {
                assert(h[i] == hex_digit(x / 16));
            } else {
                assert(h[i] == hex_digit(x % 16));
            }
        }
    }
}

proof fn lemma_records_text_alphabet(rs: Seq<Seq<u8>>)
    ensures
        forall|i: int| 0 <= i < records_text(rs).len() ==> is_text_byte(#[trigger] records_text(rs)[i]),
    decreases rs.len(),
{
    if rs.len() > 0 {
        lemma_records_text_alphabet(rs.drop_last());
        let f = rs.last();
        let g = f.push(checksum_of(f));
        lemma_hex_upper_alphabet(g);
        let t = record_text(f);
        assert forall|i: int| 0 <= i < t.len() implies is_text_byte(#[trigger] t[i]) by {
            if 0 < i < t.len() - 1 {
                assert(t[i] == hex_upper(g)[i - 1]);
            }
        }
        let front = records_text(rs.drop_last());
        assert forall|i: int| 0 <= i < records_text(rs).len() implies is_text_byte(#[trigger] records_text(rs)[i]) by {
            if i < front.len() {
                assert(records_text(rs)[i] == front[i]);
            } else {
                assert(records_text(rs)[i] == t[i - front.len()]);
            }
        }
    }
}

/// The written text consists of `:`, newlines and upper-case hex digits only.
pub proof fn law_written_text_alphabet(p: Seq<(u64, u8)>)
    ensures
        forall|i: int| 0 <= i < image_text(p).len() ==> is_text_byte(#[trigger] image_text(p)[i]),
{
    lemma_records_text_alphabet(image_records(p));
}


/// A record's view keeps each of its fields, the data as its sequence of bytes.
pub proof fn law_record_view(r: Record)
    ensures
        match r {
            Record::Data { offset, data } => r@ == (RecordView::Data { offset, data: data@ }),
            Record::EndOfFile => r@ == RecordView::EndOfFile,
            Record::ExtendedSegmentAddress(seg) => r@ == RecordView::ExtendedSegmentAddress(seg),
            Record::StartSegmentAddress { cs, ip } => r@ == (RecordView::StartSegmentAddress { cs, ip }),
            Record::ExtendedLinearAddress(ula) => r@ == RecordView::ExtendedLinearAddress(ula),
            Record::StartLinearAddress(a) => r@ == RecordView::StartLinearAddress(a),
        },
{
}


/// A parsed record is reported as that record; a checksum mismatch as the two
/// bytes; a read file as its pairs, and a line fault with the file's path and the
/// line's number.
pub proof fn law_reports_hex(v: RecordView, r: Result<Record, crate::MergehexError>, ps: Seq<(u64, u8)>, path: Seq<char>, fr: Result<Vec<(u64, u8)>, crate::MergehexError>, expected: u8, computed: u8)
    ensures
        reports_record(RecordOutcome::Parsed(v), r) <==> (r matches Ok(rec) && rec@ == v),
        reports_record(RecordOutcome::ChecksumMismatch { expected, computed }, r) <==> r == Err::<Record, crate::MergehexError>(
            crate::MergehexError::HexChecksum { expected, computed },
        ),
        reports_file(HexFileOutcome::Pairs(ps), path, fr) <==> (fr matches Ok(got) && got@ == ps),
{
}

} // verus!
