//! Input specifications: format detection and address offsets.
use vstd::prelude::*;

use crate::hex::data_pairs;
use crate::hex_laws::hex_char_value;
use crate::memory::{merge_outcome, is_overlap_error, MemoryMap, OverlapPolicy};
use crate::text::{
    digit_value, digits_value,    byte_len, lemma_ascii_head, lowercase_of, parse_unsigned, split_chars, split_once_char,
    str_equals, to_lowercase, trim, trim_chars, u64_from_decimal, u64_from_str_radix, utf8_len,
};
use crate::MergehexError;

use std::num::ParseIntError;

verus! {

/// Supported input formats.
#[derive(Debug, Clone, Copy, PartialEq, Eq, Structural)]
pub enum InputFormat {
    Hex,
    Bin,
    Elf,
}

/// The format that a lower-cased file extension names.
pub open spec fn format_of_extension(lower: Seq<char>) -> Option<InputFormat> {
    if lower == "hex"@ || lower == "ihex"@ {
        Some(InputFormat::Hex)
    } else if lower == "bin"@ {
        Some(InputFormat::Bin)
    } else if lower == "elf"@ || lower == "axf"@ || lower == "o"@ || lower == "out"@ {
        Some(InputFormat::Elf)
    } else {
        None
    }
}

/// The format that a lower-cased `--format` value names.
pub open spec fn format_of_name(lower: Seq<char>) -> Option<InputFormat> {
    if lower == "hex"@ || lower == "ihex"@ {
        Some(InputFormat::Hex)
    } else if lower == "bin"@ || lower == "binary"@ {
        Some(InputFormat::Bin)
    } else if lower == "elf"@ {
        Some(InputFormat::Elf)
    } else {
        None
    }
}

impl InputFormat {
    /// The format that an already lower-cased extension names.
    pub fn from_lowercase_extension(lower: &str) -> (r: Option<Self>)
        ensures
            r == format_of_extension(lower@),
    {
        if str_equals(lower, "hex") || str_equals(lower, "ihex") {
            Some(InputFormat::Hex)
        } else if str_equals(lower, "bin") {
            Some(InputFormat::Bin)
        } else if str_equals(lower, "elf") || str_equals(lower, "axf") || str_equals(lower, "o")
            || str_equals(lower, "out") {
            Some(InputFormat::Elf)
        } else {
            None
        }
    }

    /// Infer the format from a file extension, ignoring case.
    pub fn from_extension(ext: &str) -> (r: Option<Self>)
        ensures
            r == format_of_extension(lowercase_of(ext@)),
    {
        let lower = to_lowercase(ext);
        Self::from_lowercase_extension(lower.as_str())
    }
}

/// The format that an already lower-cased `--format` value names.
pub fn format_from_lowercase_name(lower: &str) -> (r: Option<InputFormat>)
    ensures
        r == format_of_name(lower@),
{
    if str_equals(lower, "hex") || str_equals(lower, "ihex") {
        Some(InputFormat::Hex)
    } else if str_equals(lower, "bin") || str_equals(lower, "binary") {
        Some(InputFormat::Bin)
    } else if str_equals(lower, "elf") {
        Some(InputFormat::Elf)
    } else {
        None
    }
}

/// Convert a `--format` value (any case): `auto` gives `None`, which leaves the
/// format of each input to be inferred from its extension; a format name gives
/// that format.
pub fn parse_format(s: &str) -> (r: Result<Option<InputFormat>, MergehexError>)
    ensures
        lowercase_of(s@) == "auto"@ ==> r == Ok::<Option<InputFormat>, MergehexError>(None),
        lowercase_of(s@) != "auto"@ ==> match format_of_name(lowercase_of(s@)) {
            Some(f) => r == Ok::<Option<InputFormat>, MergehexError>(Some(f)),
            None => r matches Err(MergehexError::InvalidArgument { detail }) && detail@ == "invalid format '"@
                + s@ + "'; expected 'hex', 'bin', or 'elf'"@,
        },
{
    let lower = to_lowercase(s);
    if str_equals(lower.as_str(), "auto") {
        return Ok(None);
    }
    match format_from_lowercase_name(lower.as_str()) {
        Some(f) => Ok(Some(f)),
        None => {
            let mut detail = String::from_str("invalid format '");
            detail.append(s);
            detail.append("'; expected 'hex', 'bin', or 'elf'");
            Err(MergehexError::InvalidArgument { detail })
        },
    }
}

/* Offsets */

/// The value of an offset text, surrounded by optional whitespace: hex after `0x`
/// or `0X`, octal when it starts with `0` followed by more digits, decimal
/// otherwise; `None` when it is empty or not a number that fits in 64 bits.
pub open spec fn offset_value(s: Seq<char>) -> Option<nat> {
    let t = trim_chars(s);
    if t.len() == 0 {
        None
    } else if t.len() >= 2 && t[0] == '0' && (t[1] == 'x' || t[1] == 'X') {
        parse_unsigned(t.skip(2), 16, 0xFFFF_FFFF_FFFF_FFFF)
    } else if t.len() >= 2 && t[0] == '0' {
        parse_unsigned(t, 8, 0xFFFF_FFFF_FFFF_FFFF)
    } else {
        parse_unsigned(t, 10, 0xFFFF_FFFF_FFFF_FFFF)
    }
}

/// The error `e` reports that the offset text `o` is not a number: after trimming it
/// is empty, or the detail names it and goes on with the parser's reason.
pub open spec fn reports_invalid_offset(o: Seq<char>, e: MergehexError) -> bool {
    let t = trim_chars(o);
    e matches MergehexError::InvalidArgument { detail } && if t.len() == 0 {
        detail@ == "empty offset"@
    } else {
        ("invalid offset '"@ + t + "': "@).is_prefix_of(detail@)
    }
}

/// The error for the offset text `t`, which the number parser refused with `e`.
fn invalid_offset_error(t: &str, e: &ParseIntError) -> (r: MergehexError)
    ensures
        r matches MergehexError::InvalidArgument { detail } && ("invalid offset '"@ + t@ + "': "@).is_prefix_of(
            detail@,
        ),
{
    let mut detail = String::from_str("invalid offset '");
    detail.append(t);
    detail.append("': ");
    let ghost head = detail@;
    let reason = e.to_string();
    detail.append(reason.as_str());
    proof {
        assert(detail@.subrange(0, head.len() as int) =~= head);
    }
    MergehexError::InvalidArgument { detail }
}

/// Parse an address offset (decimal, `0x` hex, or `0` octal).
fn parse_offset(s: &str) -> (r: Result<u64, MergehexError>)
    ensures
        match offset_value(s@) {
            Some(v) => r == Ok::<u64, MergehexError>(v as u64),
            None => r matches Err(e) && reports_invalid_offset(s@, e),
        },
{
    let t = trim(s);
    let tb = t.as_bytes();
    if tb.len() == 0 {
        proof {
            if t@.len() > 0 {
                crate::text::lemma_utf8_len_nonneg_first(t@);
            }
        }
        return Err(MergehexError::InvalidArgument { detail: String::from_str("empty offset") });
    }
    proof {
        crate::text::lemma_utf8_len_nonneg_first(t@);
    }
    let mut prefixed = false;
    if tb.len() >= 2 && tb[0] == 0x30 && (tb[1] == 0x78 || tb[1] == 0x58) {
        prefixed = true;
    }
    proof {
        let d = t@;
        if d.len() >= 1 && vstd::utf8::encode_utf8(d)[0] < 0x80 {
            lemma_ascii_head(d);
            if d.len() >= 2 && vstd::utf8::encode_utf8(d.drop_first())[0] < 0x80 {
                lemma_ascii_head(d.drop_first());
                assert(d.drop_first()[0] == d[1]);
            }
        }
        if !prefixed && d.len() >= 2 && d[0] == '0' && (d[1] == 'x' || d[1] == 'X') {
            crate::text::lemma_encode_scalar_width(d[0]);
            lemma_ascii_head(d);
            crate::text::lemma_encode_scalar_width(d[1]);
            assert(d.drop_first()[0] == d[1]);
            crate::text::lemma_utf8_len_nonneg_first(d.drop_first());
        }
    }
    let value = if prefixed {
        proof {
            let d = t@;
            lemma_ascii_head(d);
            lemma_ascii_head(d.drop_first());
            assert(d.drop_first()[0] == d[1]);
            let two = d.take(2);
            crate::text::lemma_utf8_len_nonneg_first(two);
            crate::text::lemma_utf8_len_nonneg_first(two.drop_first());
            crate::text::lemma_encode_scalar_width(d[0]);
            crate::text::lemma_encode_scalar_width(d[1]);
            assert(two.drop_first().drop_first() =~= Seq::<char>::empty());
        }
        let (_, digits) = split_chars(t, Ghost(2int), 2);
        u64_from_str_radix(digits, 16)
    } else if tb.len() >= 2 && tb[0] == 0x30 {
        proof {
            let d = t@;
            lemma_ascii_head(d);
            crate::text::lemma_encode_scalar_width(d[0]);
            if d.len() < 2 {
                assert(d.drop_first() =~= Seq::<char>::empty());
            }
        }
        u64_from_str_radix(t, 8)
    } else {
        proof {
            let d = t@;
            if d.len() >= 2 && d[0] == '0' {
                crate::text::lemma_encode_scalar_width(d[0]);
                lemma_ascii_head(d);
                crate::text::lemma_utf8_len_nonneg_first(d.drop_first());
            }
        }
        u64_from_decimal(t)
    };
    match value {
        Ok(v) => Ok(v),
        Err(e) => Err(invalid_offset_error(t, &e)),
    }
}

/* Input specifications */

/// A single input specification.
#[derive(Debug, Clone, PartialEq, Eq)]
pub struct InputSpec {
    pub path: String,
    pub format: InputFormat,
    /// Offset applied to binary inputs only.
    pub bin_offset: u64,
}

/// What an input specification turns into.
pub enum InputOutcome {
    Spec { path: Seq<char>, format: InputFormat, bin_offset: u64 },
    /// No format was given and none could be read from the extension of `path`.
    UnknownFormat { path: Seq<char> },
    /// An offset for an input of `path` whose format is not binary.
    OffsetNotBinary { path: Seq<char> },
    /// An offset text that is not a number.
    InvalidOffset { text: Seq<char> },
}

/// The input with path text `path`, the format `detected` from its extension,
/// the offset text after `@` if any, and the format forced on all inputs if any.
pub open spec fn input_outcome(
    path: Seq<char>,
    detected: Option<InputFormat>,
    offset: Option<Seq<char>>,
    explicit: Option<InputFormat>,
) -> InputOutcome {
    let format = match explicit {
        Some(f) => Some(f),
        None => detected,
    };
    match format {
        None => InputOutcome::UnknownFormat { path },
        Some(f) => match offset {
            None => InputOutcome::Spec { path, format: f, bin_offset: 0 },
            Some(o) => if f != InputFormat::Bin {
                InputOutcome::OffsetNotBinary { path }
            } else {
                match offset_value(o) {
                    Some(v) => InputOutcome::Spec { path, format: f, bin_offset: v as u64 },
                    None => InputOutcome::InvalidOffset { text: o },
                }
            },
        },
    }
}

/// The result `r` reports the outcome `o`.
pub open spec fn reports_input(o: InputOutcome, r: Result<InputSpec, MergehexError>) -> bool {
    match o {
        InputOutcome::Spec { path, format, bin_offset } => r matches Ok(spec) && spec.path@ == path
            && spec.format == format && spec.bin_offset == bin_offset,
        InputOutcome::UnknownFormat { path } => r matches Err(MergehexError::UnsupportedFormat { path: p, detail })
            && p@ == path && detail@ == "unable to detect file format from extension; use --format"@,
        InputOutcome::OffsetNotBinary { path } => r matches Err(MergehexError::InvalidArgument { detail })
            && detail@ == "offset is only supported for binary inputs: "@ + path,
        InputOutcome::InvalidOffset { text } => r matches Err(e) && reports_invalid_offset(text, e),
    }
}

/// The path part (before the first `@`) and the offset part (after it) of an input text.
pub open spec fn split_input(s: Seq<char>) -> (Seq<char>, Option<Seq<char>>) {
    if s.contains('@') {
        let i = choose|i: int| 0 <= i < s.len() && s[i] == '@' && !s.take(i).contains('@');
        (s.take(i), Some(s.skip(i + 1)))
    } else {
        (s, None)
    }
}

/// The text before and after the last `.` of `f`, if it has one.
pub open spec fn split_at_last_dot(f: Seq<char>) -> Option<(Seq<char>, Seq<char>)>
    decreases f.len(),
{
    if f.len() == 0 {
        None
    } else if f.last() == '.' {
        Some((f.drop_last(), Seq::empty()))
    } else {
        match split_at_last_dot(f.drop_last()) {
            Some((before, after)) => Some((before, after.push(f.last()))),
            None => None,
        }
    }
}

/// The extension of the file name `f`: the text after its last `.`, unless it has
/// no `.` or nothing comes before the last one (as in `.hex`).
pub open spec fn file_name_extension(f: Seq<char>) -> Option<Seq<char>> {
    match split_at_last_dot(f) {
        Some((before, after)) => if before.len() == 0 {
            None
        } else {
            Some(after)
        },
        None => None,
    }
}

/// A path that is one plain file name on every platform: not empty, not `.` or
/// `..`, and without `/`, `\` or `:`.
pub open spec fn plain_file_name(p: Seq<char>) -> bool {
    &&& p.len() > 0
    &&& !p.contains('/')
    &&& !p.contains('\\')
    &&& !p.contains(':')
    &&& p != seq!['.']
    &&& p != seq!['.', '.']
}

/// The text after the last `/` of `p` (all of `p` when it has none).
pub open spec fn last_path_segment(p: Seq<char>) -> Seq<char>
    decreases p.len(),
{
    if p.len() == 0 || p.last() == '/' {
        Seq::empty()
    } else {
        last_path_segment(p.drop_last()).push(p.last())
    }
}

/// A path whose file name is, on every platform, the text after its last `/`: it
/// holds no `\` or `:` (so no Windows prefix), does not start with `//`, and that
/// text is a plain file name (not empty, `.` or `..`).
pub open spec fn slash_separated_path(p: Seq<char>) -> bool {
    &&& !p.contains('\\')
    &&& !p.contains(':')
    &&& !(p.len() >= 2 && p[0] == '/' && p[1] == '/')
    &&& plain_file_name(last_path_segment(p))
}

/// What holds of the extension `ext` that `Path::extension` finds in `path` on
/// every platform: it is the text after a `.` of the path and holds no `.` or `/`;
/// there is none when the path has no `.`; and when the file name is the text
/// after the last `/`, it is that file name's extension.
pub open spec fn extension_fits(path: Seq<char>, ext: Option<Seq<char>>) -> bool {
    &&& ext matches Some(e) ==> !e.contains('.') && !e.contains('/') && exists|x: Seq<char>, y: Seq<char>|
        path == x + seq!['.'] + e + y
    &&& !path.contains('.') ==> ext is None
    &&& slash_separated_path(path) ==> ext == file_name_extension(last_path_segment(path))
}

/// The format named by an extension, if there is one.
pub open spec fn format_of_path_extension(ext: Option<Seq<char>>) -> Option<InputFormat> {
    match ext {
        Some(e) => format_of_extension(lowercase_of(e)),
        None => None,
    }
}

/// `Path::extension` of a path text, as text (`OsStr::to_str`, which succeeds on
/// a part of a `str`).  Claimed: what `extension_fits` says, which holds whatever
/// the platform's separators and prefixes are.  For a path with `\`, `:` or a
/// leading `//`, which part is the file name follows the platform, and is left
/// unsaid.
#[verifier::external_body]
fn path_extension(path: &str) -> (r: Option<String>)
    ensures
        extension_fits(
            path@,
            match r {
                Some(e) => Some(e@),
                None => None,
            },
        ),
{
    let ext = std::path::Path::new(path).extension()?;
    Some(ext.to_str()?.to_owned())
}

impl InputSpec {
    /// Build an input from its path text, the format detected from its extension,
    /// its offset text and the format forced on all inputs.
    pub fn from_parts(
        path: &str,
        detected: Option<InputFormat>,
        offset: Option<&str>,
        explicit_format: Option<InputFormat>,
    ) -> (r: Result<Self, MergehexError>)
        ensures
            reports_input(
                input_outcome(
                    path@,
                    detected,
                    match offset {
                        Some(o) => Some(o@),
                        None => None,
                    },
                    explicit_format,
                ),
                r,
            ),
    {
        let format = match explicit_format {
            Some(f) => f,
            None => match detected {
                Some(f) => f,
                None => {
                    return Err(
                        MergehexError::UnsupportedFormat {
                            path: path.to_owned(),
                            detail: String::from_str("unable to detect file format from extension; use --format"),
                        },
                    );
                },
            },
        };
        let bin_offset = match offset {
            Some(o) => {
                if format != InputFormat::Bin {
                    let mut detail = String::from_str("offset is only supported for binary inputs: ");
                    detail.append(path);
                    return Err(MergehexError::InvalidArgument { detail });
                }
                parse_offset(o)?
            },
            None => 0,
        };
        Ok(InputSpec { path: path.to_owned(), format, bin_offset })
    }

    /// Parse an input text of the form `path[@offset]`.  If `explicit_format` is
    /// given, it overrides the detection from the file extension.
    pub fn parse(s: &str, explicit_format: Option<InputFormat>) -> (r: Result<Self, MergehexError>)
        ensures
            explicit_format is Some ==> reports_input(input_outcome(split_input(s@).0, None, split_input(s@).1, explicit_format), r),
            explicit_format is None ==> exists|ext: Option<Seq<char>>| #![trigger extension_fits(split_input(s@).0, ext)]
                extension_fits(split_input(s@).0, ext) && reports_input(
                    input_outcome(split_input(s@).0, format_of_path_extension(ext), split_input(s@).1, None),
                    r,
                ),
    {
        let (path_part, offset_part) = match split_once_char(s, '@') {
            Some((p, o)) => (p, Some(o)),
            None => (s, None),
        };
        proof {
            if s@.contains('@') {
                lemma_split_input(s@, path_part@, offset_part->0@);
            }
        }
        let ext = match explicit_format {
            Some(_) => None,
            None => path_extension(path_part),
        };
        let ghost ext_view = match &ext {
            Some(e) => Some(e@),
            None => None,
        };
        let detected = match &ext {
            Some(e) => InputFormat::from_extension(e.as_str()),
            None => None,
        };
        let r = Self::from_parts(path_part, detected, offset_part, explicit_format);
        proof {
            let o = match offset_part {
                Some(x) => Some(x@),
                None => None,
            };
            assert(split_input(s@) == (path_part@, o));
            if explicit_format is Some {
                assert(input_outcome(path_part@, None, o, explicit_format) == input_outcome(path_part@, detected, o, explicit_format));
            }
            assert(reports_input(input_outcome(split_input(s@).0, detected, split_input(s@).1, explicit_format), r));
            if explicit_format is None {
                assert(detected == format_of_path_extension(ext_view));
                assert(extension_fits(split_input(s@).0, ext_view));
            }
        }
        r
    }

    /// The `(address, byte)` pairs of a binary input's contents, placed from its offset.
    pub fn binary_pairs(&self, bytes: &[u8]) -> (r: Vec<(u64, u8)>)
        requires
            bytes@.len() == 0 || self.bin_offset + bytes@.len() - 1 <= u64::MAX,
        ensures
            r@ == data_pairs(self.bin_offset as int, bytes@),
    {
        let mut out: Vec<(u64, u8)> = Vec::new();
        let n = bytes.len();
        for i in 0..n
            invariant
                n == bytes@.len(),
                bytes@.len() == 0 || self.bin_offset + bytes@.len() - 1 <= u64::MAX,
                out@ == data_pairs(self.bin_offset as int, bytes@.take(i as int)),
        {
            out.push((self.bin_offset + i as u64, bytes[i]));
            proof {
                assert(data_pairs(self.bin_offset as int, bytes@.take(i + 1)) =~= data_pairs(self.bin_offset as int, bytes@.take(i as int)).push(((self.bin_offset + i) as u64, bytes@[i as int])));
            }
        }
        proof {
            assert(bytes@.take(n as int) =~= bytes@);
        }
        out
    }

    /// Merge this input's pairs (as loaded from its file) into the memory map,
    /// under the overlap policy; overlaps are reported with this input's path.
    pub fn merge_into(&self, memory: &mut MemoryMap, policy: OverlapPolicy, pairs: &[(u64, u8)]) -> (r: Result<(), MergehexError>)
        ensures
            match merge_outcome(old(memory)@, pairs@, policy) {
                Ok(m) => r is Ok && final(memory)@ == m,
                Err((a, m)) => r matches Err(e) && is_overlap_error(e, a, self.path@) && final(memory)@ == m,
            },
    {
        memory.merge_bytes(pairs, policy, self.path.as_str())
    }
}

/// The split that `split_once` reports is the one at the first `@`.
proof fn lemma_split_input(s: Seq<char>, a: Seq<char>, b: Seq<char>)
    requires
        s == a + seq!['@'] + b,
        !a.contains('@'),
    ensures
        split_input(s) == (a, Some(b)),
{
    let k = a.len() as int;
    assert(s[k] == '@');
    assert(s.take(k) =~= a);
    assert(s.contains('@'));
    let i = choose|i: int| 0 <= i < s.len() && s[i] == '@' && !s.take(i).contains('@');
    if i < k {
        assert(a[i] == '@');
    } else if i > k {
        assert(s.take(i)[k] == '@');
    }
    assert(s.skip(k + 1) =~= b);
}




/* Laws */

/// The extension names, in any case: `hex` and `ihex` name Intel HEX, `bin`
/// raw binary, and `elf`, `axf`, `o` and `out` ELF; no other extension names a
/// format.
pub proof fn law_extension_names(e: Seq<char>)
    ensures
        lowercase_of(e) == "hex"@ || lowercase_of(e) == "ihex"@ ==> format_of_path_extension(Some(e)) == Some(
            InputFormat::Hex,
        ),
        lowercase_of(e) == "bin"@ ==> format_of_path_extension(Some(e)) == Some(InputFormat::Bin),
        lowercase_of(e) == "elf"@ || lowercase_of(e) == "axf"@ || lowercase_of(e) == "o"@ || lowercase_of(e)
            == "out"@ ==> format_of_path_extension(Some(e)) == Some(InputFormat::Elf),
        !(lowercase_of(e) == "hex"@ || lowercase_of(e) == "ihex"@ || lowercase_of(e) == "bin"@ || lowercase_of(e)
            == "elf"@ || lowercase_of(e) == "axf"@ || lowercase_of(e) == "o"@ || lowercase_of(e) == "out"@)
            ==> format_of_path_extension(Some(e)) is None,
        format_of_path_extension(None) is None,
{
    reveal_strlit("hex");
    reveal_strlit("ihex");
    reveal_strlit("bin");
    reveal_strlit("elf");
    reveal_strlit("axf");
    reveal_strlit("o");
    reveal_strlit("out");
    assert("hex"@.len() == 3 && "hex"@[0] == 'h');
    assert("ihex"@.len() == 4 && "ihex"@[0] == 'i');
    assert("bin"@.len() == 3 && "bin"@[0] == 'b');
    assert("elf"@.len() == 3 && "elf"@[0] == 'e');
    assert("axf"@.len() == 3 && "axf"@[0] == 'a');
    assert("o"@.len() == 1 && "o"@[0] == 'o');
    assert("out"@.len() == 3 && "out"@[0] == 'o');
}

/// The `--format` names, in any case: `hex` and `ihex` name Intel HEX, `bin` and
/// `binary` raw binary, and `elf` ELF, so each name that the error text lists is
/// accepted; no other name is a format (`auto` is handled apart).
pub proof fn law_format_names(s: Seq<char>)
    ensures
        lowercase_of(s) == "hex"@ || lowercase_of(s) == "ihex"@ ==> format_of_name(lowercase_of(s)) == Some(
            InputFormat::Hex,
        ),
        lowercase_of(s) == "bin"@ || lowercase_of(s) == "binary"@ ==> format_of_name(lowercase_of(s)) == Some(
            InputFormat::Bin,
        ),
        lowercase_of(s) == "elf"@ ==> format_of_name(lowercase_of(s)) == Some(InputFormat::Elf),
        !(lowercase_of(s) == "hex"@ || lowercase_of(s) == "ihex"@ || lowercase_of(s) == "bin"@ || lowercase_of(s)
            == "binary"@ || lowercase_of(s) == "elf"@) ==> format_of_name(lowercase_of(s)) is None,
{
    reveal_strlit("hex");
    reveal_strlit("ihex");
    reveal_strlit("bin");
    reveal_strlit("binary");
    reveal_strlit("elf");
    assert("hex"@.len() == 3 && "hex"@[0] == 'h');
    assert("ihex"@.len() == 4 && "ihex"@[0] == 'i');
    assert("bin"@.len() == 3 && "bin"@[0] == 'b');
    assert("binary"@.len() == 6 && "binary"@[0] == 'b');
    assert("elf"@.len() == 3 && "elf"@[0] == 'e');
}


/// The number that the digits `ds` denote in `radix`, most significant first.
pub open spec fn number_of(ds: Seq<char>, radix: int) -> int {
    ds.fold_left(0int, |acc: int, c: char| acc * radix + hex_char_value(c)->0)
}

/// Every character of `ds` is a digit below `radix`.
pub open spec fn all_digits_below(ds: Seq<char>, radix: int) -> bool {
    forall|i: int| 0 <= i < ds.len() ==> (#[trigger] hex_char_value(ds[i]) is Some && hex_char_value(ds[i])->0 < radix)
}

proof fn lemma_number_of(ds: Seq<char>, radix: int)
    requires
        2 <= radix <= 16,
        all_digits_below(ds, radix),
    ensures
        digits_value(ds, radix as nat) == Some(number_of(ds, radix) as nat),
        number_of(ds, radix) >= 0,
    decreases ds.len(),
{
    if ds.len() > 0 {
        let front = ds.drop_last();
        assert forall|i: int| 0 <= i < front.len() implies (#[trigger] hex_char_value(front[i]) is Some && hex_char_value(front[i])->0 < radix) by {
            assert(front[i] == ds[i]);
        }
        lemma_number_of(front, radix);
        let c = ds.last();
        assert(hex_char_value(ds[ds.len() - 1]) is Some);
        crate::hex_laws::lemma_hex_char_value_pub(c);
        let hi = number_of(front, radix);
        assert(hi * radix >= 0) by (nonlinear_arith)
            requires
                hi >= 0,
                radix >= 2,
        ;
    }
}

/// An offset, once trimmed, reads as: hex digits after `0x` or `0X`; octal
/// digits when it starts with `0` and has more digits (where an `8` or `9` makes
/// it invalid); decimal digits when it starts with `1` to `9`, each while its
/// value fits in 64 bits.
pub proof fn law_offset_forms(s: Seq<char>)
    ensures
        ({
            let t = trim_chars(s);
            &&& t.len() > 2 && t[0] == '0' && (t[1] == 'x' || t[1] == 'X') && all_digits_below(t.skip(2), 16)
                ==> offset_value(s) == if number_of(t.skip(2), 16) <= u64::MAX {
                Some(number_of(t.skip(2), 16) as nat)
            } else {
                None
            }
            &&& t.len() >= 2 && t[0] == '0' && all_digits_below(t, 8) ==> offset_value(s) == if number_of(t, 8)
                <= u64::MAX {
                Some(number_of(t, 8) as nat)
            } else {
                None
            }
            &&& t.len() >= 2 && t[0] == '0' && all_digits_below(t, 10) && !all_digits_below(t, 8) ==> offset_value(s)
                is None
            &&& t.len() >= 1 && t[0] != '0' && all_digits_below(t, 10) ==> offset_value(s) == if number_of(t, 10)
                <= u64::MAX {
                Some(number_of(t, 10) as nat)
            } else {
                None
            }
        }),
{
    let t = trim_chars(s);
    if t.len() > 2 && t[0] == '0' && (t[1] == 'x' || t[1] == 'X') && all_digits_below(t.skip(2), 16) {
        let h = t.skip(2);
        lemma_number_of(h, 16);
        assert(hex_char_value(h[0]) is Some);
    }
    if t.len() >= 2 && t[0] == '0' && all_digits_below(t, 8) {
        lemma_number_of(t, 8);
        assert(hex_char_value(t[1]) is Some);
    }
    if t.len() >= 2 && t[0] == '0' && all_digits_below(t, 10) && !all_digits_below(t, 8) {
        assert(hex_char_value(t[1]) is Some);
        let i = choose|i: int| 0 <= i < t.len() && !(hex_char_value(t[i]) is Some && hex_char_value(t[i])->0 < 8);
        assert(hex_char_value(t[i]) is Some);
        crate::hex_laws::lemma_hex_char_value_pub(t[i]);
        lemma_digits_refused(t, i);
    }
    if t.len() >= 1 && t[0] != '0' && all_digits_below(t, 10) {
        lemma_number_of(t, 10);
        assert(hex_char_value(t[0]) is Some);
    }
}

/// A digit at or above the radix makes the digits refused.
proof fn lemma_digits_refused(ds: Seq<char>, i: int)
    requires
        0 <= i < ds.len(),
        hex_char_value(ds[i]) is Some,
        hex_char_value(ds[i])->0 >= 8,
    ensures
        digits_value(ds, 8) is None,
    decreases ds.len(),
{
    crate::hex_laws::lemma_hex_char_value_pub(ds[i]);
    if i < ds.len() - 1 {
        assert(ds.drop_last()[i] == ds[i]);
        lemma_digits_refused(ds.drop_last(), i);
    }
}


/// A forced format wins over the one detected from the extension; with neither,
/// the format is unknown.
pub proof fn law_forced_format_wins(
    path: Seq<char>,
    detected: Option<InputFormat>,
    offset: Option<Seq<char>>,
    f: InputFormat,
)
    ensures
        input_outcome(path, detected, offset, Some(f)) == input_outcome(path, Some(f), offset, None),
        input_outcome(path, None, offset, None) == (InputOutcome::UnknownFormat { path }),
{
}

/// For an input of format `f`: without an offset it starts at 0; an offset is
/// refused for a format other than binary; for a binary input the offset's value
/// is taken, or the offset text is reported when it is not a number.
pub proof fn law_offset_rules(path: Seq<char>, f: InputFormat, offset: Option<Seq<char>>)
    ensures
        offset is None ==> input_outcome(path, Some(f), offset, None) == (InputOutcome::Spec {
            path,
            format: f,
            bin_offset: 0,
        }),
        offset is Some && f != InputFormat::Bin ==> input_outcome(path, Some(f), offset, None) == (
        InputOutcome::OffsetNotBinary { path }),
        offset is Some && f == InputFormat::Bin && offset_value(offset->0) is Some ==> input_outcome(
            path,
            Some(f),
            offset,
            None,
        ) == (InputOutcome::Spec { path, format: InputFormat::Bin, bin_offset: offset_value(offset->0)->0 as u64 }),
        offset is Some && f == InputFormat::Bin && offset_value(offset->0) is None ==> input_outcome(
            path,
            Some(f),
            offset,
            None,
        ) == (InputOutcome::InvalidOffset { text: offset->0 }),
{
}


/// An input specification is reported as a value with that path, format and offset.
pub proof fn law_reports_input(path: Seq<char>, format: InputFormat, bin_offset: u64, r: Result<InputSpec, MergehexError>)
    ensures
        reports_input((InputOutcome::Spec { path, format, bin_offset }), r) <==> (r matches Ok(spec) && spec.path@
            == path && spec.format == format && spec.bin_offset == bin_offset),
{
}

} // verus!
