//! The latency/memory profile model: a parseable, serializable record of
//! per-batch-size latency distribution and memory footprint for a
//! (framework, model, version) triple on a specific GPU model.
//!
//! The text format is line-oriented. Values are stored on disk in
//! microseconds and held internally in seconds (scaled by 10^-6 exactly);
//! serialization scales back. Parsing and serialization are both verified
//! against one specification-level grammar, and serializing a parsed value
//! parses back to the identical value.

use crate::decimal::dec_of_text;
use crate::decimal::dec_text;
use crate::decimal::dec_parseable;
use crate::decimal::is_uint_text;
use crate::decimal::nat_digits;
use crate::decimal::uint_val;
use crate::decimal::Dec;
use crate::decimal::spec_dec_mul;
use crate::text::find_byte;
use crate::text::spec_trim;
use crate::text::split_byte;
use crate::text::trim_all;
use crate::text::trim_back;
use crate::text::trim_front;
use crate::utils::AvgStd;
use vstd::prelude::*;

verus! {

pub const COMMA: u8 = 44;
pub const COLON: u8 = 58;
pub const NL: u8 = 10;
pub const CR: u8 = 13;

/// One row of a profile: measured behavior at a fixed batch size.
/// The latency pair is held in seconds.
#[derive(Clone, Copy, Debug, Hash, PartialEq, Eq, Structural)]
pub struct ProfileEntry {
    pub batch_size: u32,
    pub latency: AvgStd,
    pub memory: usize,
    pub num_repeats: u32,
}

/// Why a profile text was rejected.
#[derive(Debug)]
pub enum Error {
    /// A data line held the wrong number of comma- or colon-separated
    /// fields; carries the offending line.
    WrongFieldCount { expected: usize, got: usize, line: Vec<u8> },
    /// A header line did not match its expected literal text; carries the
    /// offending line.
    UnexpectedLine { expected_text: Vec<u8>, line: Vec<u8> },
    /// A field expected to hold an unsigned integer did not.
    ParseIntError,
    /// A field expected to hold a decimal number did not.
    ParseFloatError,
    /// The text ended before all sections were read.
    MissingLineError,
}

/// The mathematical value of an `Error`.
pub enum ErrorModel {
    WrongFieldCount { expected: int, got: int, line: Seq<u8> },
    UnexpectedLine { expected_text: Seq<u8>, line: Seq<u8> },
    ParseIntError,
    ParseFloatError,
    MissingLineError,
}

impl View for Error {
    type V = ErrorModel;

    open spec fn view(&self) -> ErrorModel {
        match self {
            Error::WrongFieldCount { expected, got, line } => ErrorModel::WrongFieldCount {
                expected: *expected as int,
                got: *got as int,
                line: line@,
            },
            Error::UnexpectedLine { expected_text, line } => ErrorModel::UnexpectedLine {
                expected_text: expected_text@,
                line: line@,
            },
            Error::ParseIntError => ErrorModel::ParseIntError,
            Error::ParseFloatError => ErrorModel::ParseFloatError,
            Error::MissingLineError => ErrorModel::MissingLineError,
        }
    }
}

/// The factor from microseconds to seconds: 10^-6.
pub open spec fn spec_micro() -> Dec {
    Dec { neg: false, mant: 1, scale: -6i32 }
}

/// The factor from seconds to microseconds: 10^6.
pub open spec fn spec_mega() -> Dec {
    Dec { neg: false, mant: 1, scale: 6 }
}

pub fn micro_factor() -> (r: Dec)
    ensures
        r == spec_micro(),
{
    Dec { neg: false, mant: 1, scale: -6i32 }
}

pub fn mega_factor() -> (r: Dec)
    ensures
        r == spec_mega(),
{
    Dec { neg: false, mant: 1, scale: 6 }
}

/// Whether a field is a microsecond value this model can hold: a decimal
/// literal whose scale leaves room for the shift to seconds.
pub open spec fn lat_parseable(f: Seq<u8>) -> bool {
    dec_parseable(f) && dec_of_text(f).scale >= i32::MIN + 6
}

/// The seconds value of a microsecond field.
pub open spec fn lat_of(f: Seq<u8>) -> Dec {
    spec_dec_mul(dec_of_text(f), spec_micro())
}

/// Reads a microsecond field into its seconds value.
fn parse_latency_field(f: &[u8]) -> (r: Option<Dec>)
    ensures
        r == (if lat_parseable(f@) {
            Some(lat_of(f@))
        } else {
            None::<Dec>
        }),
{
    match Dec::from_text(f) {
        Some(d) => {
            if d.scale >= i32::MIN + 6 {
                proof {
                    assert(d.mant * 1 == d.mant);
                }
                Some(d.mul(&micro_factor()))
            } else {
                None
            }
        },
        None => None,
    }
}

/// What parsing a profile-entry line yields: the entry, or the first error
/// in field order — wrong field count, then each field left to right.
pub open spec fn spec_parse_entry(l: Seq<u8>) -> Result<ProfileEntry, ErrorModel> {
    let fs = trim_all(split_byte(l, COMMA));
    if fs.len() != 5 {
        Err(ErrorModel::WrongFieldCount { expected: 5, got: fs.len() as int, line: l })
    } else if !(is_uint_text(fs[0]) && uint_val(fs[0]) <= u32::MAX) {
        Err(ErrorModel::ParseIntError)
    } else if !lat_parseable(fs[1]) {
        Err(ErrorModel::ParseFloatError)
    } else if !lat_parseable(fs[2]) {
        Err(ErrorModel::ParseFloatError)
    } else if !(is_uint_text(fs[3]) && uint_val(fs[3]) <= usize::MAX) {
        Err(ErrorModel::ParseIntError)
    } else if !(is_uint_text(fs[4]) && uint_val(fs[4]) <= u32::MAX) {
        Err(ErrorModel::ParseIntError)
    } else {
        Ok(
            ProfileEntry {
                batch_size: uint_val(fs[0]) as u32,
                latency: AvgStd { avg: lat_of(fs[1]), std: lat_of(fs[2]) },
                memory: uint_val(fs[3]) as usize,
                num_repeats: uint_val(fs[4]) as u32,
            },
        )
    }
}

/// The view of a parse result: `Ok` values stay, errors go to their model.
pub open spec fn entry_res_view(r: Result<ProfileEntry, Error>) -> Result<
    ProfileEntry,
    ErrorModel,
> {
    match r {
        Ok(e) => Ok(e),
        Err(e) => Err(e@),
    }
}

/// Splits a line into exactly `expected_fields` trimmed fields, or reports
/// the count it found.
pub fn expect_split(line: &[u8], pattern: u8, expected_fields: usize) -> (r: Result<
    Vec<Vec<u8>>,
    Error,
>)
    ensures
        match r {
            Ok(v) => v.deep_view() == trim_all(split_byte(line@, pattern)) && v@.len()
                == expected_fields,
            Err(e) => split_byte(line@, pattern).len() != expected_fields && e@
                == (ErrorModel::WrongFieldCount {
                expected: expected_fields as int,
                got: split_byte(line@, pattern).len() as int,
                line: line@,
            }),
        },
{
    let fields = crate::text::split_trim(line, pattern);
    proof {
        assert(fields@.len() == fields.deep_view().len());
    }
    if fields.len() == expected_fields {
        Ok(fields)
    } else {
        Err(
            Error::WrongFieldCount {
                expected: expected_fields,
                got: fields.len(),
                line: vstd::slice::slice_to_vec(line),
            },
        )
    }
}

/// Accepts `line` exactly when it equals `expected`, else reports both.
pub fn expect_str(line: &[u8], expected: &[u8]) -> (r: Result<(), Error>)
    ensures
        match r {
            Ok(_) => line@ == expected@,
            Err(e) => line@ != expected@ && e@ == (ErrorModel::UnexpectedLine {
                expected_text: expected@,
                line: line@,
            }),
        },
{
    if crate::text::bytes_eq(line, expected) {
        Ok(())
    } else {
        Err(
            Error::UnexpectedLine {
                expected_text: vstd::slice::slice_to_vec(expected),
                line: vstd::slice::slice_to_vec(line),
            },
        )
    }
}

impl ProfileEntry {
    /// Reads one `batch,latency(us),std(us),memory(B),repeat` line.
    /// The result is exactly what the grammar `spec_parse_entry` says.
    pub fn from_text(l: &[u8]) -> (r: Result<ProfileEntry, Error>)
        ensures
            entry_res_view(r) == spec_parse_entry(l@),
    {
        let fields = match expect_split(l, COMMA, 5) {
            Ok(v) => v,
            Err(e) => {
                return Err(e);
            },
        };
        proof {
            assert(fields.deep_view()[0] == fields@[0]@);
            assert(fields.deep_view()[1] == fields@[1]@);
            assert(fields.deep_view()[2] == fields@[2]@);
            assert(fields.deep_view()[3] == fields@[3]@);
            assert(fields.deep_view()[4] == fields@[4]@);
        }
        let batch_size = match crate::decimal::parse_u32_text(fields[0].as_slice()) {
            Some(v) => v,
            None => {
                return Err(Error::ParseIntError);
            },
        };
        let avg = match parse_latency_field(fields[1].as_slice()) {
            Some(v) => v,
            None => {
                return Err(Error::ParseFloatError);
            },
        };
        let std = match parse_latency_field(fields[2].as_slice()) {
            Some(v) => v,
            None => {
                return Err(Error::ParseFloatError);
            },
        };
        let memory = match crate::decimal::parse_usize_text(fields[3].as_slice()) {
            Some(v) => v,
            None => {
                return Err(Error::ParseIntError);
            },
        };
        let num_repeats = match crate::decimal::parse_u32_text(fields[4].as_slice()) {
            Some(v) => v,
            None => {
                return Err(Error::ParseIntError);
            },
        };
        Ok(ProfileEntry { batch_size, latency: AvgStd { avg, std }, memory, num_repeats })
    }
}

/// The serialized form of one profile entry: the five fields, comma
/// separated, the latency pair scaled back to microseconds.
pub open spec fn spec_entry_text(e: ProfileEntry) -> Seq<u8> {
    nat_digits(e.batch_size as nat) + seq![COMMA] + dec_text(
        spec_dec_mul(e.latency.avg, spec_mega()),
    ) + seq![COMMA] + dec_text(spec_dec_mul(e.latency.std, spec_mega())) + seq![
        COMMA,
    ] + nat_digits(e.memory as nat) + seq![COMMA] + nat_digits(e.num_repeats as nat)
}

/// Whether an entry's latency scales leave room for the shift back to
/// microseconds; every parsed entry satisfies it.
pub open spec fn entry_scales_wf(e: ProfileEntry) -> bool {
    e.latency.avg.scale <= i32::MAX - 6 && e.latency.std.scale <= i32::MAX - 6
}

impl ProfileEntry {
    /// Writes this entry as one profile text line.
    pub fn to_text(&self) -> (r: Vec<u8>)
        requires
            entry_scales_wf(*self),
        ensures
            r@ == spec_entry_text(*self),
    {
        let mut out: Vec<u8> = Vec::new();
        crate::decimal::push_digits_u64(self.batch_size as u64, &mut out);
        out.push(COMMA);
        proof {
            assert(self.latency.avg.mant * 1 == self.latency.avg.mant);
            assert(self.latency.std.mant * 1 == self.latency.std.mant);
        }
        let avg_us = self.latency.avg.mul(&mega_factor());
        let avg_text = avg_us.to_text();
        out.extend_from_slice(avg_text.as_slice());
        out.push(COMMA);
        let std_us = self.latency.std.mul(&mega_factor());
        let std_text = std_us.to_text();
        out.extend_from_slice(std_text.as_slice());
        out.push(COMMA);
        crate::decimal::push_digits_u64(self.memory as u64, &mut out);
        out.push(COMMA);
        crate::decimal::push_digits_u64(self.num_repeats as u64, &mut out);
        proof {
            assert(out@ =~= spec_entry_text(*self));
        }
        out
    }
}

/// The literal header line `Forward latency`.
pub open spec fn header_forward() -> Seq<u8> {
    seq![70u8, 111u8, 114u8, 119u8, 97u8, 114u8, 100u8, 32u8, 108u8, 97u8, 116u8, 101u8, 110u8, 99u8, 121u8]
}

/// Builds the `Forward latency` header line.
pub fn header_forward_bytes() -> (r: Vec<u8>)
    ensures
        r@ == header_forward(),
{
    let mut v: Vec<u8> = Vec::new();
    v.push(70u8);
    v.push(111u8);
    v.push(114u8);
    v.push(119u8);
    v.push(97u8);
    v.push(114u8);
    v.push(100u8);
    v.push(32u8);
    v.push(108u8);
    v.push(97u8);
    v.push(116u8);
    v.push(101u8);
    v.push(110u8);
    v.push(99u8);
    v.push(121u8);
    proof {
        assert(v@ =~= header_forward());
    }
    v
}

/// The literal header line `batch,latency(us),std(us),memory(B),repeat`.
pub open spec fn header_table() -> Seq<u8> {
    seq![98u8, 97u8, 116u8, 99u8, 104u8, 44u8, 108u8, 97u8, 116u8, 101u8, 110u8, 99u8, 121u8, 40u8, 117u8, 115u8, 41u8, 44u8, 115u8, 116u8, 100u8, 40u8, 117u8, 115u8, 41u8, 44u8, 109u8, 101u8, 109u8, 111u8, 114u8, 121u8, 40u8, 66u8, 41u8, 44u8, 114u8, 101u8, 112u8, 101u8, 97u8, 116u8]
}

/// Builds the `batch,latency(us),std(us),memory(B),repeat` header line.
pub fn header_table_bytes() -> (r: Vec<u8>)
    ensures
        r@ == header_table(),
{
    let mut v: Vec<u8> = Vec::new();
    v.push(98u8);
    v.push(97u8);
    v.push(116u8);
    v.push(99u8);
    v.push(104u8);
    v.push(44u8);
    v.push(108u8);
    v.push(97u8);
    v.push(116u8);
    v.push(101u8);
    v.push(110u8);
    v.push(99u8);
    v.push(121u8);
    v.push(40u8);
    v.push(117u8);
    v.push(115u8);
    v.push(41u8);
    v.push(44u8);
    v.push(115u8);
    v.push(116u8);
    v.push(100u8);
    v.push(40u8);
    v.push(117u8);
    v.push(115u8);
    v.push(41u8);
    v.push(44u8);
    v.push(109u8);
    v.push(101u8);
    v.push(109u8);
    v.push(111u8);
    v.push(114u8);
    v.push(121u8);
    v.push(40u8);
    v.push(66u8);
    v.push(41u8);
    v.push(44u8);
    v.push(114u8);
    v.push(101u8);
    v.push(112u8);
    v.push(101u8);
    v.push(97u8);
    v.push(116u8);
    proof {
        assert(v@ =~= header_table());
    }
    v
}

/// The literal header line `Preprocess latency (mean,std,repeat)`.
pub open spec fn header_preprocess() -> Seq<u8> {
    seq![80u8, 114u8, 101u8, 112u8, 114u8, 111u8, 99u8, 101u8, 115u8, 115u8, 32u8, 108u8, 97u8, 116u8, 101u8, 110u8, 99u8, 121u8, 32u8, 40u8, 109u8, 101u8, 97u8, 110u8, 44u8, 115u8, 116u8, 100u8, 44u8, 114u8, 101u8, 112u8, 101u8, 97u8, 116u8, 41u8]
}

/// Builds the `Preprocess latency (mean,std,repeat)` header line.
pub fn header_preprocess_bytes() -> (r: Vec<u8>)
    ensures
        r@ == header_preprocess(),
{
    let mut v: Vec<u8> = Vec::new();
    v.push(80u8);
    v.push(114u8);
    v.push(101u8);
    v.push(112u8);
    v.push(114u8);
    v.push(111u8);
    v.push(99u8);
    v.push(101u8);
    v.push(115u8);
    v.push(115u8);
    v.push(32u8);
    v.push(108u8);
    v.push(97u8);
    v.push(116u8);
    v.push(101u8);
    v.push(110u8);
    v.push(99u8);
    v.push(121u8);
    v.push(32u8);
    v.push(40u8);
    v.push(109u8);
    v.push(101u8);
    v.push(97u8);
    v.push(110u8);
    v.push(44u8);
    v.push(115u8);
    v.push(116u8);
    v.push(100u8);
    v.push(44u8);
    v.push(114u8);
    v.push(101u8);
    v.push(112u8);
    v.push(101u8);
    v.push(97u8);
    v.push(116u8);
    v.push(41u8);
    proof {
        assert(v@ =~= header_preprocess());
    }
    v
}

/// The literal header line `Postprocess latency (mean,std,repeat)`.
pub open spec fn header_postprocess() -> Seq<u8> {
    seq![80u8, 111u8, 115u8, 116u8, 112u8, 114u8, 111u8, 99u8, 101u8, 115u8, 115u8, 32u8, 108u8, 97u8, 116u8, 101u8, 110u8, 99u8, 121u8, 32u8, 40u8, 109u8, 101u8, 97u8, 110u8, 44u8, 115u8, 116u8, 100u8, 44u8, 114u8, 101u8, 112u8, 101u8, 97u8, 116u8, 41u8]
}

/// Builds the `Postprocess latency (mean,std,repeat)` header line.
pub fn header_postprocess_bytes() -> (r: Vec<u8>)
    ensures
        r@ == header_postprocess(),
{
    let mut v: Vec<u8> = Vec::new();
    v.push(80u8);
    v.push(111u8);
    v.push(115u8);
    v.push(116u8);
    v.push(112u8);
    v.push(114u8);
    v.push(111u8);
    v.push(99u8);
    v.push(101u8);
    v.push(115u8);
    v.push(115u8);
    v.push(32u8);
    v.push(108u8);
    v.push(97u8);
    v.push(116u8);
    v.push(101u8);
    v.push(110u8);
    v.push(99u8);
    v.push(121u8);
    v.push(32u8);
    v.push(40u8);
    v.push(109u8);
    v.push(101u8);
    v.push(97u8);
    v.push(110u8);
    v.push(44u8);
    v.push(115u8);
    v.push(116u8);
    v.push(100u8);
    v.push(44u8);
    v.push(114u8);
    v.push(101u8);
    v.push(112u8);
    v.push(101u8);
    v.push(97u8);
    v.push(116u8);
    v.push(41u8);
    proof {
        assert(v@ =~= header_postprocess());
    }
    v
}

/// A line segment with a trailing carriage return dropped, so that both
/// line-feed and `\r\n` line endings read the same.
pub open spec fn strip_cr(seg: Seq<u8>) -> Seq<u8> {
    if seg.len() > 0 && seg.last() == CR {
        seg.drop_last()
    } else {
        seg
    }
}

/// The next line of `s` from byte `pos`: the bytes before the next line
/// feed, a trailing carriage return dropped, and the position after the
/// line feed. `None` once `pos` has reached the end.
pub open spec fn spec_next_line(s: Seq<u8>, pos: int) -> Option<(Seq<u8>, int)> {
    if 0 <= pos < s.len() {
        let end = pos + find_byte(s.skip(pos), NL);
        let line = strip_cr(s.subrange(pos, end));
        Some((line, if end < s.len() { end + 1 } else { end }))
    } else {
        None
    }
}

pub proof fn lemma_next_line_advances(s: Seq<u8>, pos: int)
    requires
        0 <= pos < s.len(),
    ensures
        spec_next_line(s, pos) matches Some(r) && pos < r.1 <= s.len(),
{
    crate::text::lemma_find_byte_props(s.skip(pos), NL);
}

/// Reads the next line, or reports that the text has ended.
pub fn next_line(text: &[u8], pos: usize) -> (r: Result<(Vec<u8>, usize), Error>)
    requires
        pos <= text@.len(),
    ensures
        match r {
            Ok(v) => spec_next_line(text@, pos as int) == Some((v.0@, v.1 as int)) && pos < v.1
                <= text@.len(),
            Err(e) => pos == text@.len() && e@ == ErrorModel::MissingLineError
                && spec_next_line(text@, pos as int) is None,
        },
{
    let n: usize = text.len();
    if pos == n {
        return Err(Error::MissingLineError);
    }
    let rest = vstd::slice::slice_subrange(text, pos, n);
    proof {
        assert(rest@ =~= text@.skip(pos as int));
    }
    let d = crate::text::index_of(rest, NL);
    proof {
        crate::text::lemma_find_byte_props(rest@, NL);
    }
    let end = pos + d;
    let mut line_end = end;
    if end > pos && text[end - 1] == CR {
        line_end = end - 1;
    }
    let line = vstd::slice::slice_to_vec(vstd::slice::slice_subrange(text, pos, line_end));
    proof {
        let seg = text@.subrange(pos as int, end as int);
        if end > pos && text@[end - 1] == CR {
            assert(seg.len() > 0 && seg.last() == CR);
            assert(text@.subrange(pos as int, line_end as int) =~= seg.drop_last());
        } else {
            if seg.len() > 0 {
                assert(seg.last() == text@[end - 1]);
            }
            assert(text@.subrange(pos as int, line_end as int) =~= seg);
        }
    }
    let p2 = if end < n {
        end + 1
    } else {
        end
    };
    Ok((line, p2))
}

/// What parsing a `mean,std,repeat` line yields.
pub open spec fn spec_parse_avgstd(l: Seq<u8>) -> Result<(AvgStd, u32), ErrorModel> {
    let fs = trim_all(split_byte(l, COMMA));
    if fs.len() != 3 {
        Err(ErrorModel::WrongFieldCount { expected: 3, got: fs.len() as int, line: l })
    } else if !lat_parseable(fs[0]) {
        Err(ErrorModel::ParseFloatError)
    } else if !lat_parseable(fs[1]) {
        Err(ErrorModel::ParseFloatError)
    } else if !(is_uint_text(fs[2]) && uint_val(fs[2]) <= u32::MAX) {
        Err(ErrorModel::ParseIntError)
    } else {
        Ok(((AvgStd { avg: lat_of(fs[0]), std: lat_of(fs[1]) }), uint_val(fs[2]) as u32))
    }
}

/// Reads a `mean,std,repeat` line, the pair converted to seconds.
pub fn parse_avgstd_repeat(l: &[u8]) -> (r: Result<(AvgStd, u32), Error>)
    ensures
        match r {
            Ok(v) => spec_parse_avgstd(l@) == Ok::<_, ErrorModel>((v.0, v.1)),
            Err(e) => spec_parse_avgstd(l@) == Err::<(AvgStd, u32), _>(e@),
        },
{
    let fields = match expect_split(l, COMMA, 3) {
        Ok(v) => v,
        Err(e) => {
            return Err(e);
        },
    };
    proof {
        assert(fields.deep_view()[0] == fields@[0]@);
        assert(fields.deep_view()[1] == fields@[1]@);
        assert(fields.deep_view()[2] == fields@[2]@);
    }
    let avg = match parse_latency_field(fields[0].as_slice()) {
        Some(v) => v,
        None => {
            return Err(Error::ParseFloatError);
        },
    };
    let std = match parse_latency_field(fields[1].as_slice()) {
        Some(v) => v,
        None => {
            return Err(Error::ParseFloatError);
        },
    };
    let repeat = match crate::decimal::parse_u32_text(fields[2].as_slice()) {
        Some(v) => v,
        None => {
            return Err(Error::ParseIntError);
        },
    };
    Ok((AvgStd { avg, std }, repeat))
}

/// A profile: identity, the GPU it was measured on, one entry per batch
/// size (index 0 holds a meaningless sentinel so the row for batch size
/// `b` sits at index `b`), and the pre/post-processing distributions.
#[derive(Debug)]
pub struct ModelProfile {
    pub framework: Vec<u8>,
    pub model: Vec<u8>,
    pub version: Vec<u8>,
    pub gpu_model: Vec<u8>,
    pub gpu_uuid: Vec<u8>,
    pub forwards: Vec<ProfileEntry>,
    pub preproc: AvgStd,
    pub preproc_repeat: u32,
    pub postproc: AvgStd,
    pub postproc_repeat: u32,
}

/// The mathematical value of a profile.
pub struct ModelProfileView {
    pub framework: Seq<u8>,
    pub model: Seq<u8>,
    pub version: Seq<u8>,
    pub gpu_model: Seq<u8>,
    pub gpu_uuid: Seq<u8>,
    pub forwards: Seq<ProfileEntry>,
    pub preproc: AvgStd,
    pub preproc_repeat: u32,
    pub postproc: AvgStd,
    pub postproc_repeat: u32,
}

impl View for ModelProfile {
    type V = ModelProfileView;

    open spec fn view(&self) -> ModelProfileView {
        ModelProfileView {
            framework: self.framework@,
            model: self.model@,
            version: self.version@,
            gpu_model: self.gpu_model@,
            gpu_uuid: self.gpu_uuid@,
            forwards: self.forwards@,
            preproc: self.preproc,
            preproc_repeat: self.preproc_repeat,
            postproc: self.postproc,
            postproc_repeat: self.postproc_repeat,
        }
    }
}

/// Whether two entry rows hold the same entries.
pub fn entries_eq(a: &Vec<ProfileEntry>, b: &Vec<ProfileEntry>) -> (r: bool)
    ensures
        r == (a@ == b@),
{
    if a.len() != b.len() {
        return false;
    }
    let n: usize = a.len();
    let mut i: usize = 0;
    while i < n
        invariant
            0 <= i <= n,
            n == a@.len() && n == b@.len(),
            forall|j: int| 0 <= j < i ==> a@[j] == b@[j],
        decreases n - i,
    {
        if !(a[i] == b[i]) {
            return false;
        }
        i = i + 1;
    }
    proof {
        assert(a@ =~= b@);
    }
    true
}

impl PartialEq for ModelProfile {
    fn eq(&self, other: &ModelProfile) -> (r: bool) {
        let r = crate::text::bytes_eq(self.framework.as_slice(), other.framework.as_slice())
            && crate::text::bytes_eq(self.model.as_slice(), other.model.as_slice())
            && crate::text::bytes_eq(self.version.as_slice(), other.version.as_slice())
            && crate::text::bytes_eq(self.gpu_model.as_slice(), other.gpu_model.as_slice())
            && crate::text::bytes_eq(self.gpu_uuid.as_slice(), other.gpu_uuid.as_slice())
            && entries_eq(&self.forwards, &other.forwards) && self.preproc == other.preproc
            && self.preproc_repeat == other.preproc_repeat && self.postproc == other.postproc
            && self.postproc_repeat == other.postproc_repeat;
        proof {
            if r {
                assert(self@ == other@);
            }
        }
        r
    }
}

impl Eq for ModelProfile {}

impl vstd::std_specs::cmp::PartialEqSpecImpl for ModelProfile {
    open spec fn obeys_eq_spec() -> bool {
        true
    }

    open spec fn eq_spec(&self, other: &ModelProfile) -> bool {
        self@ == other@
    }
}

/// The meaningless row at index 0 of every profile, so that the row for
/// batch size `b` sits at index `b`.
pub open spec fn sentinel_entry() -> ProfileEntry {
    ProfileEntry {
        batch_size: 0,
        latency: AvgStd {
            avg: Dec { neg: false, mant: 0, scale: 0 },
            std: Dec { neg: false, mant: 0, scale: 0 },
        },
        memory: 0,
        num_repeats: 0,
    }
}

pub fn sentinel_entry_exec() -> (r: ProfileEntry)
    ensures
        r == sentinel_entry(),
{
    ProfileEntry {
        batch_size: 0,
        latency: AvgStd { avg: Dec::zero(), std: Dec::zero() },
        memory: 0,
        num_repeats: 0,
    }
}

/// Parses entry lines until the preprocess header line; yields the entries
/// and the position after the header line.
pub open spec fn spec_parse_entries(s: Seq<u8>, pos: int) -> Result<
    (Seq<ProfileEntry>, int),
    ErrorModel,
>
    decreases s.len() - pos,
{
    match spec_next_line(s, pos) {
        None => Err(ErrorModel::MissingLineError),
        Some((line, p2)) => {
            let t = spec_trim(line);
            if t == header_preprocess() {
                Ok((Seq::empty(), p2))
            } else if !(pos < p2 <= s.len()) {
                // Unreachable: a read line always advances the position
                // (`lemma_next_line_advances`); this arm only bounds the
                // recursion.
                Err(ErrorModel::MissingLineError)
            } else {
                match spec_parse_entry(t) {
                    Err(e) => Err(e),
                    Ok(e) => match spec_parse_entries(s, p2) {
                        Err(e2) => Err(e2),
                        Ok((rest, p3)) => Ok((seq![e] + rest, p3)),
                    },
                }
            }
        },
    }
}

/// What parsing a whole profile text yields. The text is trimmed, then
/// read line by line: the identity triple, the GPU model and UUID, the two
/// forward-table header lines, the entry rows, and the pre/post-processing
/// sections behind their literal header lines.
pub open spec fn spec_parse_profile(raw: Seq<u8>) -> Result<ModelProfileView, ErrorModel> {
    let s = spec_trim(raw);
    match spec_next_line(s, 0) {
        None => Err(ErrorModel::MissingLineError),
        Some((l1, p1)) => {
            let fs = trim_all(split_byte(l1, COLON));
            if fs.len() != 3 {
                Err(ErrorModel::WrongFieldCount { expected: 3, got: fs.len() as int, line: l1 })
            } else {
                match spec_next_line(s, p1) {
                    None => Err(ErrorModel::MissingLineError),
                    Some((l2, p2)) => match spec_next_line(s, p2) {
                        None => Err(ErrorModel::MissingLineError),
                        Some((l3, p3)) => match spec_next_line(s, p3) {
                            None => Err(ErrorModel::MissingLineError),
                            Some((l4, p4)) => {
                                if spec_trim(l4) != header_forward() {
                                    Err(
                                        ErrorModel::UnexpectedLine {
                                            expected_text: header_forward(),
                                            line: spec_trim(l4),
                                        },
                                    )
                                } else {
                                    match spec_next_line(s, p4) {
                                        None => Err(ErrorModel::MissingLineError),
                                        Some((l5, p5)) => {
                                            if spec_trim(l5) != header_table() {
                                                Err(
                                                    ErrorModel::UnexpectedLine {
                                                        expected_text: header_table(),
                                                        line: spec_trim(l5),
                                                    },
                                                )
                                            } else {
                                                match spec_parse_entries(s, p5) {
                                                    Err(e) => Err(e),
                                                    Ok((es, p6)) => match spec_next_line(s, p6) {
                                                        None => Err(ErrorModel::MissingLineError),
                                                        Some((l7, p7)) => match spec_parse_avgstd(
                                                            l7,
                                                        ) {
                                                            Err(e) => Err(e),
                                                            Ok((preproc, preproc_repeat)) => match spec_next_line(
                                                                s,
                                                                p7,
                                                            ) {
                                                                None => Err(
                                                                    ErrorModel::MissingLineError,
                                                                ),
                                                                Some((l8, p8)) => {
                                                                    if spec_trim(l8)
                                                                        != header_postprocess() {
                                                                        Err(
                                                                            ErrorModel::UnexpectedLine {
                                                                                expected_text: header_postprocess(),
                                                                                line: spec_trim(l8),
                                                                            },
                                                                        )
                                                                    } else {
                                                                        match spec_next_line(
                                                                            s,
                                                                            p8,
                                                                        ) {
                                                                            None => Err(
                                                                                ErrorModel::MissingLineError,
                                                                            ),
                                                                            Some(
                                                                                (l9, p9),
                                                                            ) => match spec_parse_avgstd(
                                                                                l9,
                                                                            ) {
                                                                                Err(e) => Err(e),
                                                                                Ok(
                                                                                    (
                                                                                        postproc,
                                                                                        postproc_repeat,
                                                                                    ),
                                                                                ) => Ok(
                                                                                    ModelProfileView {
                                                                                        framework: fs[0],
                                                                                        model: fs[1],
                                                                                        version: fs[2],
                                                                                        gpu_model: spec_trim(
                                                                                            l2,
                                                                                        ),
                                                                                        gpu_uuid: spec_trim(
                                                                                            l3,
                                                                                        ),
                                                                                        forwards: seq![
                                                                                            sentinel_entry(),
                                                                                        ] + es,
                                                                                        preproc,
                                                                                        preproc_repeat,
                                                                                        postproc,
                                                                                        postproc_repeat,
                                                                                    },
                                                                                ),
                                                                            },
                                                                        }
                                                                    }
                                                                },
                                                            },
                                                        },
                                                    },
                                                }
                                            }
                                        },
                                    }
                                }
                            },
                        },
                    },
                }
            }
        },
    }
}

/// The view of a profile parse result.
pub open spec fn profile_res_view(r: Result<ModelProfile, Error>) -> Result<
    ModelProfileView,
    ErrorModel,
> {
    match r {
        Ok(p) => Ok(p@),
        Err(e) => Err(e@),
    }
}

impl ModelProfile {
    /// Reads a whole profile text. The result is exactly what the grammar
    /// `spec_parse_profile` says.
    #[verifier::loop_isolation(false)]
    #[verifier::rlimit(100)]
    pub fn from_text(raw: &[u8]) -> (r: Result<ModelProfile, Error>)
        ensures
            profile_res_view(r) == spec_parse_profile(raw@),
    {
        let s = crate::text::trim_bytes(raw);
        let (l1, p1) = match next_line(s, 0) {
            Ok(v) => v,
            Err(e) => {
                return Err(e);
            },
        };
        let mut fields = match expect_split(l1.as_slice(), COLON, 3) {
            Ok(v) => v,
            Err(e) => {
                return Err(e);
            },
        };
        proof {
            assert(fields.deep_view()[0] == fields@[0]@);
            assert(fields.deep_view()[1] == fields@[1]@);
            assert(fields.deep_view()[2] == fields@[2]@);
        }
        let version = match fields.pop() {
            Some(v) => v,
            None => {
                return Err(Error::MissingLineError);
            },
        };
        let model = match fields.pop() {
            Some(v) => v,
            None => {
                return Err(Error::MissingLineError);
            },
        };
        let framework = match fields.pop() {
            Some(v) => v,
            None => {
                return Err(Error::MissingLineError);
            },
        };
        let (l2, p2) = match next_line(s, p1) {
            Ok(v) => v,
            Err(e) => {
                return Err(e);
            },
        };
        let gpu_model = vstd::slice::slice_to_vec(crate::text::trim_bytes(l2.as_slice()));
        let (l3, p3) = match next_line(s, p2) {
            Ok(v) => v,
            Err(e) => {
                return Err(e);
            },
        };
        let gpu_uuid = vstd::slice::slice_to_vec(crate::text::trim_bytes(l3.as_slice()));
        let (l4, p4) = match next_line(s, p3) {
            Ok(v) => v,
            Err(e) => {
                return Err(e);
            },
        };
        let hf = header_forward_bytes();
        match expect_str(crate::text::trim_bytes(l4.as_slice()), hf.as_slice()) {
            Ok(_) => (),
            Err(e) => {
                return Err(e);
            },
        }
        let (l5, p5) = match next_line(s, p4) {
            Ok(v) => v,
            Err(e) => {
                return Err(e);
            },
        };
        let ht = header_table_bytes();
        match expect_str(crate::text::trim_bytes(l5.as_slice()), ht.as_slice()) {
            Ok(_) => (),
            Err(e) => {
                return Err(e);
            },
        }
        let mut forwards: Vec<ProfileEntry> = Vec::new();
        forwards.push(sentinel_entry_exec());
        let hp = header_preprocess_bytes();
        let mut pos: usize = p5;
        let pos6: usize;
        loop
            invariant
                p5 <= pos <= s@.len(),
                forwards@.len() >= 1,
                forwards@[0] == sentinel_entry(),
                ({
                    let full = spec_parse_entries(s@, p5 as int);
                    let here = spec_parse_entries(s@, pos as int);
                    match here {
                        Ok(v) => full == Ok::<(Seq<ProfileEntry>, int), ErrorModel>(
                            (forwards@.skip(1) + v.0, v.1),
                        ),
                        Err(e) => full == Err::<(Seq<ProfileEntry>, int), ErrorModel>(e),
                    }
                }),
            decreases s@.len() - pos,
        {
            let (line, p2x) = match next_line(s, pos) {
                Ok(v) => v,
                Err(e) => {
                    return Err(e);
                },
            };
            proof {
                lemma_next_line_advances(s@, pos as int);
            }
            let t = crate::text::trim_bytes(line.as_slice());
            if crate::text::bytes_eq(t, hp.as_slice()) {
                proof {
                    assert(spec_parse_entries(s@, pos as int) == Ok::<
                        (Seq<ProfileEntry>, int),
                        ErrorModel,
                    >((Seq::empty(), p2x as int)));
                    assert(forwards@.skip(1) + Seq::<ProfileEntry>::empty() =~= forwards@.skip(
                        1,
                    ));
                }
                pos6 = p2x;
                break;
            }
            let entry = match ProfileEntry::from_text(t) {
                Ok(v) => v,
                Err(e) => {
                    return Err(e);
                },
            };
            let ghost prev = forwards@;
            forwards.push(entry);
            proof {
                assert(forwards@.skip(1) =~= prev.skip(1).push(entry));
                assert(forall|rest: Seq<ProfileEntry>|
                    prev.skip(1).push(entry) + rest =~= prev.skip(1) + (seq![entry] + rest));
            }
            pos = p2x;
        }
        let (l7, p7) = match next_line(s, pos6) {
            Ok(v) => v,
            Err(e) => {
                return Err(e);
            },
        };
        let (preproc, preproc_repeat) = match parse_avgstd_repeat(l7.as_slice()) {
            Ok(v) => v,
            Err(e) => {
                return Err(e);
            },
        };
        let (l8, p8) = match next_line(s, p7) {
            Ok(v) => v,
            Err(e) => {
                return Err(e);
            },
        };
        let hpost = header_postprocess_bytes();
        match expect_str(crate::text::trim_bytes(l8.as_slice()), hpost.as_slice()) {
            Ok(_) => (),
            Err(e) => {
                return Err(e);
            },
        }
        let (l9, _p9) = match next_line(s, p8) {
            Ok(v) => v,
            Err(e) => {
                return Err(e);
            },
        };
        let (postproc, postproc_repeat) = match parse_avgstd_repeat(l9.as_slice()) {
            Ok(v) => v,
            Err(e) => {
                return Err(e);
            },
        };
        let result = ModelProfile {
            framework,
            model,
            version,
            gpu_model,
            gpu_uuid,
            forwards,
            preproc,
            preproc_repeat,
            postproc,
            postproc_repeat,
        };
        proof {
            assert(result@.forwards =~= seq![sentinel_entry()] + result@.forwards.skip(1));
        }
        Ok(result)
    }
}


/// The serialized `mean,std,repeat` line, the pair scaled to microseconds.
pub open spec fn spec_avgstd_text(a: AvgStd, repeat: u32) -> Seq<u8> {
    dec_text(spec_dec_mul(a.avg, spec_mega())) + seq![COMMA]
        + dec_text(spec_dec_mul(a.std, spec_mega())) + seq![COMMA] + nat_digits(
        repeat as nat,
    )
}

/// Whether a pair's scales leave room for the shift back to microseconds.
pub open spec fn avgstd_scales_wf(a: AvgStd) -> bool {
    a.avg.scale <= i32::MAX - 6 && a.std.scale <= i32::MAX - 6
}

/// Writes a `mean,std,repeat` line.
pub fn avgstd_to_text(a: &AvgStd, repeat: u32) -> (r: Vec<u8>)
    requires
        avgstd_scales_wf(*a),
    ensures
        r@ == spec_avgstd_text(*a, repeat),
{
    let mut out: Vec<u8> = Vec::new();
    proof {
        assert(a.avg.mant * 1 == a.avg.mant);
        assert(a.std.mant * 1 == a.std.mant);
    }
    let avg_us = a.avg.mul(&mega_factor());
    let avg_text = avg_us.to_text();
    out.extend_from_slice(avg_text.as_slice());
    out.push(COMMA);
    let std_us = a.std.mul(&mega_factor());
    let std_text = std_us.to_text();
    out.extend_from_slice(std_text.as_slice());
    out.push(COMMA);
    crate::decimal::push_digits_u64(repeat as u64, &mut out);
    proof {
        assert(out@ =~= spec_avgstd_text(*a, repeat));
    }
    out
}

/// The serialized entry rows: one line per entry, each ended by a line
/// feed.
pub open spec fn spec_entries_text(es: Seq<ProfileEntry>) -> Seq<u8>
    decreases es.len(),
{
    if es.len() == 0 {
        Seq::empty()
    } else {
        spec_entry_text(es[0]) + seq![NL] + spec_entries_text(es.skip(1))
    }
}

pub proof fn lemma_entries_text_push(es: Seq<ProfileEntry>, e: ProfileEntry)
    ensures
        spec_entries_text(es.push(e)) == spec_entries_text(es) + spec_entry_text(e) + seq![NL],
    decreases es.len(),
{
    if es.len() == 0 {
        assert(es.push(e)[0] == e);
        assert(es.push(e).skip(1) =~= Seq::<ProfileEntry>::empty());
        assert(spec_entries_text(es.push(e)) == spec_entry_text(es.push(e)[0]) + seq![NL]
            + spec_entries_text(es.push(e).skip(1)));
        assert(spec_entries_text(Seq::<ProfileEntry>::empty()) =~= Seq::<u8>::empty());
        assert(spec_entry_text(e) + seq![NL] + Seq::<u8>::empty() =~= spec_entry_text(e)
            + seq![NL]);
        assert(spec_entries_text(es) + spec_entry_text(e) + seq![NL] =~= spec_entry_text(e)
            + seq![NL]);
    } else {
        lemma_entries_text_push(es.skip(1), e);
        assert(es.push(e).skip(1) =~= es.skip(1).push(e));
        assert(es.push(e)[0] == es[0]);
        assert(spec_entry_text(es[0]) + seq![NL] + (spec_entries_text(es.skip(1))
            + spec_entry_text(e) + seq![NL]) =~= spec_entry_text(es[0]) + seq![NL]
            + spec_entries_text(es.skip(1)) + spec_entry_text(e) + seq![NL]);
    }
}

/// The serialized form of a whole profile: every line ended by a line
/// feed, the sentinel row at index 0 not written.
pub open spec fn spec_profile_text(p: ModelProfileView) -> Seq<u8> {
    p.framework + seq![COLON] + p.model + seq![COLON] + p.version + seq![NL] + p.gpu_model + seq![
        NL,
    ] + p.gpu_uuid + seq![NL] + header_forward() + seq![NL] + header_table() + seq![NL]
        + spec_entries_text(p.forwards.skip(1)) + header_preprocess() + seq![NL] + spec_avgstd_text(
        p.preproc,
        p.preproc_repeat,
    ) + seq![NL] + header_postprocess() + seq![NL] + spec_avgstd_text(
        p.postproc,
        p.postproc_repeat,
    ) + seq![NL]
}

/// Whether a profile can be written back out: the sentinel row is present
/// and every stored scale leaves room for the shift to microseconds.
pub open spec fn profile_scales_wf(p: ModelProfileView) -> bool {
    &&& p.forwards.len() >= 1
    &&& forall|i: int| 1 <= i < p.forwards.len() ==> entry_scales_wf(#[trigger] p.forwards[i])
    &&& avgstd_scales_wf(p.preproc)
    &&& avgstd_scales_wf(p.postproc)
}

impl ModelProfile {
    /// Writes this profile as its text form. Requires the sentinel row and
    /// scales a written profile always has.
    #[verifier::loop_isolation(false)]
    #[verifier::rlimit(60)]
    pub fn to_text(&self) -> (r: Vec<u8>)
        requires
            profile_scales_wf(self@),
        ensures
            r@ == spec_profile_text(self@),
    {
        let mut out: Vec<u8> = Vec::new();
        out.extend_from_slice(self.framework.as_slice());
        out.push(COLON);
        out.extend_from_slice(self.model.as_slice());
        out.push(COLON);
        out.extend_from_slice(self.version.as_slice());
        out.push(NL);
        out.extend_from_slice(self.gpu_model.as_slice());
        out.push(NL);
        out.extend_from_slice(self.gpu_uuid.as_slice());
        out.push(NL);
        let hf = header_forward_bytes();
        out.extend_from_slice(hf.as_slice());
        out.push(NL);
        let ht = header_table_bytes();
        out.extend_from_slice(ht.as_slice());
        out.push(NL);
        let ghost head = out@;
        let n: usize = self.forwards.len();
        let mut i: usize = 1;
        proof {
            assert(self.forwards@.subrange(1, 1) =~= Seq::<ProfileEntry>::empty());
            assert(out@ =~= head + spec_entries_text(self.forwards@.subrange(1, 1)));
        }
        while i < n
            invariant
                1 <= i <= n,
                out@ == head + spec_entries_text(self.forwards@.subrange(1, i as int)),
            decreases n - i,
        {
            let entry_text = self.forwards[i].to_text();
            out.extend_from_slice(entry_text.as_slice());
            out.push(NL);
            proof {
                lemma_entries_text_push(self.forwards@.subrange(1, i as int), self.forwards@[
                    i as int
                ]);
                assert(self.forwards@.subrange(1, i + 1) =~= self.forwards@.subrange(
                    1,
                    i as int,
                ).push(self.forwards@[i as int]));
                assert(out@ =~= head + spec_entries_text(self.forwards@.subrange(1, i + 1)));
            }
            i = i + 1;
        }
        proof {
            assert(self.forwards@.subrange(1, n as int) =~= self.forwards@.skip(1));
        }
        let hp = header_preprocess_bytes();
        out.extend_from_slice(hp.as_slice());
        out.push(NL);
        let pre = avgstd_to_text(&self.preproc, self.preproc_repeat);
        out.extend_from_slice(pre.as_slice());
        out.push(NL);
        let hpost = header_postprocess_bytes();
        out.extend_from_slice(hpost.as_slice());
        out.push(NL);
        let post = avgstd_to_text(&self.postproc, self.postproc_repeat);
        out.extend_from_slice(post.as_slice());
        out.push(NL);
        proof {
            assert(out@ =~= spec_profile_text(self@));
        }
        out
    }
}


/// Every byte of a decimal literal written by `dec_text` is a digit, a
/// minus sign, or a dot; it is nonempty and ends in a digit.
pub proof fn lemma_dec_text_bytes(d: Dec)
    ensures
        dec_text(d).len() > 0,
        forall|i: int|
            0 <= i < dec_text(d).len() ==> crate::decimal::is_digit(#[trigger] dec_text(d)[i])
                || dec_text(d)[i] == crate::decimal::MINUS || dec_text(d)[i]
                == crate::decimal::DOT,
        crate::decimal::is_digit(dec_text(d).last()),
{
    let digs = nat_digits(d.mant as nat);
    crate::decimal::lemma_nat_digits(d.mant as nat);
    let body = crate::decimal::dec_abs_text(d);
    assert(forall|i: int|
        0 <= i < body.len() ==> crate::decimal::is_digit(#[trigger] body[i]) || body[i]
            == crate::decimal::DOT) by {
        if d.scale >= 0 {
            assert(forall|i: int|
                0 <= i < body.len() ==> crate::decimal::is_digit(#[trigger] body[i]));
        } else {
            let k = -(d.scale as int);
            if digs.len() > k {
                assert(forall|i: int|
                    0 <= i < digs.len() - k ==> body[i] == digs.take(digs.len() - k)[i]);
                assert(forall|i: int|
                    digs.len() - k < i < body.len() ==> body[i] == digs.skip(digs.len() - k)[i
                        - (digs.len() - k) - 1]);
            } else {
                assert(body[0] == crate::decimal::DIGIT0);
                assert(body[1] == crate::decimal::DOT);
                assert(forall|i: int|
                    2 <= i < 2 + (k - digs.len()) ==> body[i] == 48);
                assert(forall|i: int|
                    2 + (k - digs.len()) <= i < body.len() ==> body[i] == digs[i - 2 - (k
                        - digs.len())]);
            }
        }
    }
    assert(crate::decimal::is_digit(body.last())) by {
        if d.scale > 0 {
            assert(body.last() == crate::decimal::zero_digits(d.scale as int).last());
            assert(body.last() == 48);
        } else if d.scale == 0 {
            assert(body =~= digs);
        } else {
            let k = -(d.scale as int);
            if digs.len() > k {
                assert(body.last() == digs.skip(digs.len() - k).last());
                assert(digs.skip(digs.len() - k).last() == digs.last());
            } else {
                assert(body.last() == digs.last());
            }
        }
    }
    if d.neg {
        assert(dec_text(d) == seq![crate::decimal::MINUS] + body);
        assert(dec_text(d).last() == body.last());
        assert(forall|i: int|
            1 <= i < dec_text(d).len() ==> dec_text(d)[i] == body[i - 1]);
    }
}

/// Trimming leaves a text alone when it neither starts nor ends in
/// whitespace.
pub proof fn lemma_trim_id(s: Seq<u8>)
    requires
        s.len() == 0 || (!crate::text::is_space(s[0]) && !crate::text::is_space(s.last())),
    ensures
        spec_trim(s) == s,
{
}

/// Splitting a delimiter-free text yields that one piece.
pub proof fn lemma_split_single(s: Seq<u8>, c: u8)
    requires
        find_byte(s, c) == s.len(),
    ensures
        split_byte(s, c) == seq![s],
{
    crate::text::lemma_find_byte_props(s, c);
}

/// Splitting at the first delimiter: a delimiter-free piece comes off the
/// front.
pub proof fn lemma_split_prepend(piece: Seq<u8>, rest: Seq<u8>, c: u8)
    requires
        forall|i: int| 0 <= i < piece.len() ==> piece[i] != c,
    ensures
        split_byte(piece + seq![c] + rest, c) == seq![piece] + split_byte(rest, c),
{
    let s = piece + seq![c] + rest;
    assert(forall|i: int| 0 <= i < piece.len() ==> s[i] == piece[i]);
    crate::text::lemma_find_byte_skip(s, c, piece.len() as int);
    assert(s.skip(piece.len() as int)[0] == c);
    assert(find_byte(s, c) == piece.len());
    assert(s.take(piece.len() as int) =~= piece);
    assert(s.skip(piece.len() as int + 1) =~= rest);
}



/// A canonical digit string is a valid unsigned-integer field worth its
/// number, and free of commas and whitespace.
proof fn lemma_digits_field(n: nat, c: u8)
    requires
        !crate::decimal::is_digit(c),
    ensures
        is_uint_text(nat_digits(n)),
        uint_val(nat_digits(n)) == n,
        forall|i: int| 0 <= i < nat_digits(n).len() ==> nat_digits(n)[i] != c,
        spec_trim(nat_digits(n)) == nat_digits(n),
        crate::decimal::is_digit(nat_digits(n)[0]),
        crate::decimal::is_digit(nat_digits(n).last()),
{
    crate::decimal::lemma_nat_digits(n);
    let digs = nat_digits(n);
    assert(digs[0] != crate::decimal::PLUS);
    assert(crate::decimal::uint_body(digs) == digs);
    lemma_trim_id(digs);
}

/// A written decimal field is comma- and whitespace-free, and trims to
/// itself.
proof fn lemma_dec_field(d: Dec)
    ensures
        forall|i: int| 0 <= i < dec_text(d).len() ==> dec_text(d)[i] != COMMA,
        spec_trim(dec_text(d)) == dec_text(d),
        dec_text(d).len() > 0,
{
    lemma_dec_text_bytes(d);
    let t = dec_text(d);
    assert(!crate::text::is_space(t[0]));
    assert(!crate::text::is_space(t.last()));
    lemma_trim_id(t);
}

/// Scaling by 10^-6 undoes scaling by 10^6 exactly.
proof fn lemma_micro_mega(d: Dec)
    requires
        d.scale <= i32::MAX - 6,
    ensures
        spec_dec_mul(spec_dec_mul(d, spec_mega()), spec_micro()) == d,
{
    assert(d.mant * 1 == d.mant);
    assert((d.mant * 1) * 1 == d.mant);
}

/// The round-trip law for one profile row: a written entry line parses
/// back to the identical entry, for every entry whose latency pair is a
/// stored (seconds) value — the form parsing itself produces.
pub proof fn lemma_entry_text_round_trip(e: ProfileEntry)
    requires
        e.latency.avg.scale <= -6,
        e.latency.std.scale <= -6,
    ensures
        spec_parse_entry(spec_entry_text(e)) == Ok::<ProfileEntry, ErrorModel>(e),
{
    let u_avg = spec_dec_mul(e.latency.avg, spec_mega());
    let u_std = spec_dec_mul(e.latency.std, spec_mega());
    let f0 = nat_digits(e.batch_size as nat);
    let f1 = dec_text(u_avg);
    let f2 = dec_text(u_std);
    let f3 = nat_digits(e.memory as nat);
    let f4 = nat_digits(e.num_repeats as nat);
    let t = spec_entry_text(e);
    lemma_digits_field(e.batch_size as nat, COMMA);
    lemma_digits_field(e.memory as nat, COMMA);
    lemma_digits_field(e.num_repeats as nat, COMMA);
    lemma_dec_field(u_avg);
    lemma_dec_field(u_std);
    // Split the line back into its five fields.
    let r3 = f4;
    let r2 = f3 + seq![COMMA] + r3;
    let r1 = f2 + seq![COMMA] + r2;
    let r0 = f1 + seq![COMMA] + r1;
    assert(t =~= f0 + seq![COMMA] + r0);
    lemma_split_prepend(f0, r0, COMMA);
    lemma_split_prepend(f1, r1, COMMA);
    lemma_split_prepend(f2, r2, COMMA);
    lemma_split_prepend(f3, r3, COMMA);
    crate::decimal::lemma_all_digits_no_byte(f4, COMMA);
    lemma_split_single(f4, COMMA);
    let fs = trim_all(split_byte(t, COMMA));
    assert(split_byte(t, COMMA) =~= seq![f0, f1, f2, f3, f4]);
    assert(fs =~~= seq![spec_trim(f0), spec_trim(f1), spec_trim(f2), spec_trim(f3), spec_trim(
        f4,
    )]);
    assert(fs =~~= seq![f0, f1, f2, f3, f4]);
    assert(fs.len() == 5);
    // Each field parses back to its value.
    assert(is_uint_text(fs[0]) && uint_val(fs[0]) == e.batch_size);
    assert(is_uint_text(fs[3]) && uint_val(fs[3]) == e.memory);
    assert(is_uint_text(fs[4]) && uint_val(fs[4]) == e.num_repeats);
    crate::decimal::lemma_dec_text_round_trip(u_avg);
    crate::decimal::lemma_dec_text_round_trip(u_std);
    lemma_micro_mega(e.latency.avg);
    lemma_micro_mega(e.latency.std);
    assert(lat_parseable(fs[1]) && lat_of(fs[1]) == e.latency.avg);
    assert(lat_parseable(fs[2]) && lat_of(fs[2]) == e.latency.std);
    assert(spec_parse_entry(t) == Ok::<ProfileEntry, ErrorModel>(e));
}

/// Every latency a field parses to is a stored (seconds) value.
proof fn lemma_lat_of_stored(f: Seq<u8>)
    requires
        lat_parseable(f),
    ensures
        lat_of(f).scale <= -6,
{
}

/// A parsed entry always carries stored (seconds) latencies.
pub proof fn lemma_parse_entry_stored(l: Seq<u8>)
    ensures
        spec_parse_entry(l) matches Ok(e) ==> entry_stored_wf(e),
{
    let fs = trim_all(split_byte(l, COMMA));
    match spec_parse_entry(l) {
        Ok(e) => {
            lemma_lat_of_stored(fs[1]);
            lemma_lat_of_stored(fs[2]);
        },
        Err(_) => {},
    }
}

/// The round-trip law for profile rows, free-standing: whatever line an
/// entry was parsed from, writing that entry out parses back to it.
pub proof fn lemma_entry_parse_round_trip(l: Seq<u8>)
    ensures
        spec_parse_entry(l) matches Ok(e) ==> spec_parse_entry(spec_entry_text(e)) == Ok::<
            ProfileEntry,
            ErrorModel,
        >(e),
{
    match spec_parse_entry(l) {
        Ok(e) => {
            lemma_parse_entry_stored(l);
            lemma_entry_text_round_trip(e);
        },
        Err(_) => {},
    }
}

/// The rejection law for one profile row: a line with the wrong number of
/// comma-separated fields never parses, and neither does a line whose
/// field, in any position, is not a number of that position's kind.
pub proof fn lemma_entry_parse_errors(l: Seq<u8>)
    ensures
        trim_all(split_byte(l, COMMA)).len() != 5 ==> spec_parse_entry(l) is Err,
        ({
            let fs = trim_all(split_byte(l, COMMA));
            fs.len() == 5 ==> {
                &&& (!is_uint_text(fs[0]) ==> spec_parse_entry(l) is Err)
                &&& (!crate::decimal::is_dec_text(fs[1]) ==> spec_parse_entry(l) is Err)
                &&& (!crate::decimal::is_dec_text(fs[2]) ==> spec_parse_entry(l) is Err)
                &&& (!is_uint_text(fs[3]) ==> spec_parse_entry(l) is Err)
                &&& (!is_uint_text(fs[4]) ==> spec_parse_entry(l) is Err)
            }
        }),
{
}


/// Bytes absent from both parts are absent from the concatenation.
proof fn lemma_concat_no_byte(a: Seq<u8>, b: Seq<u8>, c: u8)
    requires
        forall|i: int| 0 <= i < a.len() ==> a[i] != c,
        forall|i: int| 0 <= i < b.len() ==> b[i] != c,
    ensures
        forall|i: int| 0 <= i < (a + b).len() ==> (a + b)[i] != c,
{
    assert forall|i: int| 0 <= i < (a + b).len() implies (a + b)[i] != c by {
        if i < a.len() {
            assert((a + b)[i] == a[i]);
        } else {
            assert((a + b)[i] == b[i - a.len()]);
        }
    }
}

proof fn lemma_trim_front_len(s: Seq<u8>)
    ensures
        trim_front(s).len() <= s.len(),
    decreases s.len(),
{
    if s.len() > 0 && crate::text::is_space(s[0]) {
        lemma_trim_front_len(s.skip(1));
    }
}

proof fn lemma_trim_back_len(s: Seq<u8>)
    ensures
        trim_back(s).len() <= s.len(),
    decreases s.len(),
{
    if s.len() > 0 && crate::text::is_space(s.last()) {
        lemma_trim_back_len(s.drop_last());
    }
}

/// A nonempty text that trimming leaves alone neither starts nor ends in
/// whitespace.
proof fn lemma_trim_id_ends(f: Seq<u8>)
    requires
        spec_trim(f) == f,
        f.len() > 0,
    ensures
        !crate::text::is_space(f[0]),
        !crate::text::is_space(f.last()),
{
    if crate::text::is_space(f[0]) {
        assert(trim_front(f) == trim_front(f.skip(1)));
        lemma_trim_front_len(f.skip(1));
        lemma_trim_back_len(trim_front(f));
        assert(spec_trim(f).len() < f.len());
    }
    assert(trim_front(f) == f);
    if crate::text::is_space(f.last()) {
        assert(trim_back(f) == trim_back(f.drop_last()));
        lemma_trim_back_len(f.drop_last());
        assert(spec_trim(f).len() < f.len());
    }
}

/// Reading one line out of a text: a line-feed-free segment followed by a
/// line feed comes back verbatim, and the cursor lands after the line feed.
proof fn lemma_read_line(s: Seq<u8>, pos: int, line: Seq<u8>, after: Seq<u8>)
    requires
        0 <= pos <= s.len(),
        s.skip(pos) == line + seq![NL] + after,
        forall|i: int| 0 <= i < line.len() ==> line[i] != NL,
        line.len() == 0 || line.last() != CR,
    ensures
        spec_next_line(s, pos) == Some((line, pos + line.len() + 1)),
        pos + line.len() + 1 <= s.len(),
        s.skip(pos + line.len() + 1) == after,
{
    let rest = s.skip(pos);
    assert(rest.len() == line.len() + 1 + after.len());
    assert(forall|i: int| 0 <= i < line.len() ==> rest[i] == line[i]);
    crate::text::lemma_find_byte_skip(rest, NL, line.len() as int);
    assert(rest.skip(line.len() as int)[0] == NL);
    assert(find_byte(rest, NL) == line.len());
    let end = pos + line.len();
    assert(s.subrange(pos, end) =~= line);
    assert(end < s.len());
    assert(s.skip(end + 1) =~= rest.skip(line.len() as int + 1));
    assert(rest.skip(line.len() as int + 1) =~= after);
    assert(strip_cr(line) == line);
}

/// Reading the final line: a text's line-feed-free tail comes back
/// verbatim, and the cursor lands at the end.
proof fn lemma_read_last_line(s: Seq<u8>, pos: int, line: Seq<u8>)
    requires
        0 <= pos <= s.len(),
        s.skip(pos) == line,
        line.len() > 0,
        forall|i: int| 0 <= i < line.len() ==> line[i] != NL,
        line.last() != CR,
    ensures
        spec_next_line(s, pos) == Some((line, s.len() as int)),
{
    let rest = s.skip(pos);
    crate::text::lemma_find_byte_skip(rest, NL, line.len() as int);
    assert(rest.skip(line.len() as int) =~= Seq::<u8>::empty());
    assert(find_byte(rest, NL) == line.len());
    let end = pos + line.len();
    assert(end == s.len());
    assert(s.subrange(pos, end) =~= line);
    assert(strip_cr(line) == line);
}

/// Shape facts about a written entry line: nonempty, free of line feeds,
/// digit-fringed (so trimming leaves it alone).
proof fn lemma_entry_text_bytes(e: ProfileEntry)
    ensures
        spec_entry_text(e).len() > 0,
        forall|i: int| 0 <= i < spec_entry_text(e).len() ==> spec_entry_text(e)[i] != NL,
        crate::decimal::is_digit(spec_entry_text(e)[0]),
        crate::decimal::is_digit(spec_entry_text(e).last()),
        spec_trim(spec_entry_text(e)) == spec_entry_text(e),
{
    let f0 = nat_digits(e.batch_size as nat);
    let f1 = dec_text(spec_dec_mul(e.latency.avg, spec_mega()));
    let f2 = dec_text(spec_dec_mul(e.latency.std, spec_mega()));
    let f3 = nat_digits(e.memory as nat);
    let f4 = nat_digits(e.num_repeats as nat);
    lemma_digits_field(e.batch_size as nat, NL);
    lemma_digits_field(e.memory as nat, NL);
    lemma_digits_field(e.num_repeats as nat, NL);
    lemma_dec_text_bytes(spec_dec_mul(e.latency.avg, spec_mega()));
    lemma_dec_text_bytes(spec_dec_mul(e.latency.std, spec_mega()));
    assert(forall|i: int| 0 <= i < f1.len() ==> f1[i] != NL);
    assert(forall|i: int| 0 <= i < f2.len() ==> f2[i] != NL);
    let c = seq![COMMA];
    assert(forall|i: int| 0 <= i < c.len() ==> c[i] != NL);
    lemma_concat_no_byte(f0, c, NL);
    lemma_concat_no_byte(f0 + c, f1, NL);
    lemma_concat_no_byte(f0 + c + f1, c, NL);
    lemma_concat_no_byte(f0 + c + f1 + c, f2, NL);
    lemma_concat_no_byte(f0 + c + f1 + c + f2, c, NL);
    lemma_concat_no_byte(f0 + c + f1 + c + f2 + c, f3, NL);
    lemma_concat_no_byte(f0 + c + f1 + c + f2 + c + f3, c, NL);
    lemma_concat_no_byte(f0 + c + f1 + c + f2 + c + f3 + c, f4, NL);
    let t = spec_entry_text(e);
    assert(t == f0 + c + f1 + c + f2 + c + f3 + c + f4);
    assert(t[0] == f0[0]);
    assert(t.last() == f4.last());
    lemma_trim_id(t);
}

/// The round-trip law for a `mean,std,repeat` line: a written pair parses
/// back identically, for every stored (seconds) pair.
pub proof fn lemma_avgstd_text_round_trip(a: AvgStd, repeat: u32)
    requires
        a.avg.scale <= -6,
        a.std.scale <= -6,
    ensures
        spec_parse_avgstd(spec_avgstd_text(a, repeat)) == Ok::<(AvgStd, u32), ErrorModel>(
            (a, repeat),
        ),
{
    let u_avg = spec_dec_mul(a.avg, spec_mega());
    let u_std = spec_dec_mul(a.std, spec_mega());
    let f0 = dec_text(u_avg);
    let f1 = dec_text(u_std);
    let f2 = nat_digits(repeat as nat);
    let t = spec_avgstd_text(a, repeat);
    lemma_dec_field(u_avg);
    lemma_dec_field(u_std);
    lemma_digits_field(repeat as nat, COMMA);
    let r1 = f1 + seq![COMMA] + f2;
    assert(t =~= f0 + seq![COMMA] + r1);
    lemma_split_prepend(f0, r1, COMMA);
    lemma_split_prepend(f1, f2, COMMA);
    crate::decimal::lemma_all_digits_no_byte(f2, COMMA);
    lemma_split_single(f2, COMMA);
    let fs = trim_all(split_byte(t, COMMA));
    assert(split_byte(t, COMMA) =~= seq![f0, f1, f2]);
    assert(fs =~~= seq![spec_trim(f0), spec_trim(f1), spec_trim(f2)]);
    assert(fs =~~= seq![f0, f1, f2]);
    crate::decimal::lemma_dec_text_round_trip(u_avg);
    crate::decimal::lemma_dec_text_round_trip(u_std);
    lemma_micro_mega(a.avg);
    lemma_micro_mega(a.std);
    assert(lat_parseable(fs[0]) && lat_of(fs[0]) == a.avg);
    assert(lat_parseable(fs[1]) && lat_of(fs[1]) == a.std);
    assert(is_uint_text(fs[2]) && uint_val(fs[2]) == repeat);
}

/// Shape facts about a written `mean,std,repeat` line.
proof fn lemma_avgstd_text_bytes(a: AvgStd, repeat: u32)
    ensures
        spec_avgstd_text(a, repeat).len() > 0,
        forall|i: int|
            0 <= i < spec_avgstd_text(a, repeat).len() ==> spec_avgstd_text(a, repeat)[i] != NL,
        crate::decimal::is_digit(spec_avgstd_text(a, repeat).last()),
        spec_trim(spec_avgstd_text(a, repeat)) == spec_avgstd_text(a, repeat),
        !crate::text::is_space(spec_avgstd_text(a, repeat)[0]),
{
    let u_avg = spec_dec_mul(a.avg, spec_mega());
    let u_std = spec_dec_mul(a.std, spec_mega());
    let f0 = dec_text(u_avg);
    let f1 = dec_text(u_std);
    let f2 = nat_digits(repeat as nat);
    lemma_dec_text_bytes(u_avg);
    lemma_dec_text_bytes(u_std);
    lemma_digits_field(repeat as nat, NL);
    assert(forall|i: int| 0 <= i < f0.len() ==> f0[i] != NL);
    assert(forall|i: int| 0 <= i < f1.len() ==> f1[i] != NL);
    let c = seq![COMMA];
    assert(forall|i: int| 0 <= i < c.len() ==> c[i] != NL);
    lemma_concat_no_byte(f0, c, NL);
    lemma_concat_no_byte(f0 + c, f1, NL);
    lemma_concat_no_byte(f0 + c + f1, c, NL);
    lemma_concat_no_byte(f0 + c + f1 + c, f2, NL);
    let t = spec_avgstd_text(a, repeat);
    assert(t == f0 + c + f1 + c + f2);
    assert(t[0] == f0[0]);
    assert(t.last() == f2.last());
    assert(!crate::text::is_space(t[0]));
    lemma_trim_id(t);
}


/// Shape facts about the four literal header lines: nonempty, free of
/// line feeds, fringed by non-whitespace (so trimming leaves them alone).
/// A text without the byte holds it nowhere `find_byte` could point.
proof fn lemma_no_byte_find(s: Seq<u8>, b: u8)
    requires
        forall|i: int| 0 <= i < s.len() ==> s[i] != b,
    ensures
        find_byte(s, b) == s.len(),
{
    crate::text::lemma_find_byte_skip(s, b, s.len() as int);
    assert(s.skip(s.len() as int) =~= Seq::<u8>::empty());
}

/// Shape facts about the four literal header lines: nonempty, free of
/// line feeds, fringed by non-whitespace (so trimming leaves them alone).
#[verifier::rlimit(100)]
proof fn lemma_header_bytes()
    ensures
        forall|i: int| 0 <= i < header_forward().len() ==> header_forward()[i] != NL,
        forall|i: int| 0 <= i < header_table().len() ==> header_table()[i] != NL,
        forall|i: int| 0 <= i < header_preprocess().len() ==> header_preprocess()[i] != NL,
        forall|i: int| 0 <= i < header_postprocess().len() ==> header_postprocess()[i] != NL,
        spec_trim(header_forward()) == header_forward(),
        spec_trim(header_table()) == header_table(),
        spec_trim(header_preprocess()) == header_preprocess(),
        spec_trim(header_postprocess()) == header_postprocess(),
        header_forward().last() != CR,
        header_table().last() != CR,
        header_preprocess().last() != CR,
        header_postprocess().last() != CR,
        header_preprocess()[0] == 80,
{
    assert(forall|i: int| 0 <= i < header_forward().len() ==> header_forward()[i] != NL);
    assert(forall|i: int| 0 <= i < header_table().len() ==> header_table()[i] != NL);
    assert(forall|i: int| 0 <= i < header_preprocess().len() ==> header_preprocess()[i] != NL);
    assert(forall|i: int| 0 <= i < header_postprocess().len() ==> header_postprocess()[i] != NL);
    lemma_trim_id(header_forward());
    lemma_trim_id(header_table());
    lemma_trim_id(header_preprocess());
    lemma_trim_id(header_postprocess());
}

/// Whether an entry holds a stored (seconds) latency pair, the form
/// parsing produces: scales at or below the microsecond shift.
pub open spec fn entry_stored_wf(e: ProfileEntry) -> bool {
    e.latency.avg.scale <= -6 && e.latency.std.scale <= -6
}

/// Reading written entry rows back: the rows before the preprocess header
/// line parse back identically and the cursor lands after that header.
#[verifier::rlimit(100)]
#[verifier::spinoff_prover]
proof fn lemma_entries_round_trip(s: Seq<u8>, pos: int, es: Seq<ProfileEntry>, after: Seq<u8>)
    requires
        0 <= pos <= s.len(),
        s.skip(pos) == spec_entries_text(es) + header_preprocess() + seq![NL] + after,
        forall|i: int| 0 <= i < es.len() ==> entry_stored_wf(#[trigger] es[i]),
    ensures
        spec_parse_entries(s, pos) matches Ok(v) && v.0 == es && pos < v.1 <= s.len() && s.skip(
            v.1,
        ) == after,
    decreases es.len(),
{
    lemma_header_bytes();
    if es.len() == 0 {
        assert(s.skip(pos) =~= header_preprocess() + seq![NL] + after);
        lemma_read_line(s, pos, header_preprocess(), after);
        assert(spec_parse_entries(s, pos) == Ok::<(Seq<ProfileEntry>, int), ErrorModel>(
            (Seq::empty(), pos + header_preprocess().len() + 1),
        ));
        assert(Seq::<ProfileEntry>::empty() =~= es);
    } else {
        let line = spec_entry_text(es[0]);
        let rest = spec_entries_text(es.skip(1)) + header_preprocess() + seq![NL] + after;
        assert(spec_entries_text(es) == line + seq![NL] + spec_entries_text(es.skip(1)));
        assert(s.skip(pos) =~= line + seq![NL] + rest);
        lemma_entry_text_bytes(es[0]);
        lemma_read_line(s, pos, line, rest);
        let p2 = pos + line.len() + 1;
        // The row is not the preprocess header: it starts with a digit.
        assert(spec_trim(line) == line);
        assert(line != header_preprocess()) by {
            if line == header_preprocess() {
                assert(line[0] == 80);
            }
        }
        lemma_entry_text_round_trip(es[0]);
        lemma_entries_round_trip(s, p2, es.skip(1), after);
        assert(seq![es[0]] + es.skip(1) =~= es);
    }
}


/// A trimmed single-line text field: the only form line parsing produces.
pub open spec fn field_wf(f: Seq<u8>) -> bool {
    &&& spec_trim(f) == f
    &&& forall|i: int| 0 <= i < f.len() ==> f[i] != NL
}

/// A field of the identity line: additionally free of the colon that
/// separates the triple.
pub open spec fn label_wf(f: Seq<u8>) -> bool {
    field_wf(f) && forall|i: int| 0 <= i < f.len() ==> f[i] != COLON
}

/// A stored (seconds) distribution: scales at or below the microsecond
/// shift, the form parsing produces.
pub open spec fn avgstd_stored_wf(a: AvgStd) -> bool {
    a.avg.scale <= -6 && a.std.scale <= -6
}

/// A profile exactly as parsing produces it: trimmed single-line text
/// fields, the colon-free identity triple, the sentinel row at index 0,
/// and second-scaled distributions throughout.
pub open spec fn profile_wf(p: ModelProfileView) -> bool {
    &&& label_wf(p.framework)
    &&& label_wf(p.model)
    &&& label_wf(p.version)
    &&& field_wf(p.gpu_model)
    &&& field_wf(p.gpu_uuid)
    &&& p.forwards.len() >= 1
    &&& p.forwards[0] == sentinel_entry()
    &&& forall|i: int| 1 <= i < p.forwards.len() ==> entry_stored_wf(#[trigger] p.forwards[i])
    &&& avgstd_stored_wf(p.preproc)
    &&& avgstd_stored_wf(p.postproc)
}

/// Trimming keeps a byte out that the text never held.
proof fn lemma_trim_front_no_byte(s: Seq<u8>, b: u8)
    requires
        forall|i: int| 0 <= i < s.len() ==> s[i] != b,
    ensures
        forall|i: int| 0 <= i < trim_front(s).len() ==> trim_front(s)[i] != b,
    decreases s.len(),
{
    if s.len() > 0 && crate::text::is_space(s[0]) {
        assert(forall|i: int| 0 <= i < s.skip(1).len() ==> s.skip(1)[i] == s[i + 1]);
        lemma_trim_front_no_byte(s.skip(1), b);
        assert forall|i: int| 0 <= i < trim_front(s).len() implies trim_front(s)[i] != b by {
            assert(trim_front(s)[i] == trim_front(s.skip(1))[i]);
        }
    }
}

proof fn lemma_trim_back_no_byte(s: Seq<u8>, b: u8)
    requires
        forall|i: int| 0 <= i < s.len() ==> s[i] != b,
    ensures
        forall|i: int| 0 <= i < trim_back(s).len() ==> trim_back(s)[i] != b,
    decreases s.len(),
{
    if s.len() > 0 && crate::text::is_space(s.last()) {
        assert(forall|i: int| 0 <= i < s.drop_last().len() ==> s.drop_last()[i] == s[i]);
        lemma_trim_back_no_byte(s.drop_last(), b);
        assert forall|i: int| 0 <= i < trim_back(s).len() implies trim_back(s)[i] != b by {
            assert(trim_back(s)[i] == trim_back(s.drop_last())[i]);
        }
    }
}

proof fn lemma_trim_no_byte(s: Seq<u8>, b: u8)
    requires
        forall|i: int| 0 <= i < s.len() ==> s[i] != b,
    ensures
        forall|i: int| 0 <= i < spec_trim(s).len() ==> spec_trim(s)[i] != b,
{
    lemma_trim_front_no_byte(s, b);
    lemma_trim_back_no_byte(trim_front(s), b);
}

/// A trimmed text neither starts nor ends in whitespace, so trimming it
/// again changes nothing.
proof fn lemma_trim_idem(s: Seq<u8>)
    ensures
        spec_trim(spec_trim(s)) == spec_trim(s),
{
    lemma_trim_front_ends(s);
    lemma_trim_back_ends(trim_front(s));
    let t = spec_trim(s);
    if t.len() > 0 {
        lemma_trim_id(t);
    }
}

/// The front-trimmed text starts with a non-space, if anything.
proof fn lemma_trim_front_ends(s: Seq<u8>)
    ensures
        trim_front(s).len() == 0 || !crate::text::is_space(trim_front(s)[0]),
    decreases s.len(),
{
    if s.len() > 0 && crate::text::is_space(s[0]) {
        lemma_trim_front_ends(s.skip(1));
    }
}

/// The back-trimmed text keeps its first byte and ends in a non-space, if
/// anything.
proof fn lemma_trim_back_ends(s: Seq<u8>)
    ensures
        trim_back(s).len() == 0 || !crate::text::is_space(trim_back(s).last()),
        trim_back(s).len() > 0 ==> trim_back(s)[0] == s[0],
    decreases s.len(),
{
    if s.len() > 0 && crate::text::is_space(s.last()) {
        lemma_trim_back_ends(s.drop_last());
    }
}

/// No piece that splitting yields holds the delimiter, and a byte absent
/// from the text is absent from every piece.
proof fn lemma_split_pieces_no_byte(s: Seq<u8>, d: u8, b: u8)
    requires
        forall|i: int| 0 <= i < s.len() ==> s[i] != b,
    ensures
        forall|k: int, i: int|
            0 <= k < split_byte(s, d).len() && 0 <= i < split_byte(s, d)[k].len()
                ==> #[trigger] split_byte(s, d)[k][i] != d && split_byte(s, d)[k][i] != b,
    decreases s.len(),
{
    crate::text::lemma_find_byte_props(s, d);
    let pos = find_byte(s, d);
    if 0 <= pos < s.len() {
        assert(forall|i: int| 0 <= i < s.take(pos).len() ==> s.take(pos)[i] == s[i]);
        assert(forall|i: int|
            0 <= i < s.skip(pos + 1).len() ==> #[trigger] s.skip(pos + 1)[i] == s[i + pos + 1]);
        lemma_split_pieces_no_byte(s.skip(pos + 1), d, b);
        assert(forall|k: int|
            0 <= k < split_byte(s.skip(pos + 1), d).len() ==> split_byte(s, d)[k + 1]
                == #[trigger] split_byte(s.skip(pos + 1), d)[k]);
    }
}

/// A read line never holds a line feed.
proof fn lemma_next_line_no_nl(s: Seq<u8>, pos: int)
    requires
        spec_next_line(s, pos) is Some,
    ensures
        ({
            let line = spec_next_line(s, pos)->Some_0.0;
            forall|i: int| 0 <= i < line.len() ==> line[i] != NL
        }),
{
    crate::text::lemma_find_byte_props(s.skip(pos), NL);
    let d = find_byte(s.skip(pos), NL);
    let seg = s.subrange(pos, pos + d);
    assert(forall|i: int| 0 <= i < seg.len() ==> seg[i] == s.skip(pos)[i]);
    assert(forall|i: int| 0 <= i < seg.len() ==> seg[i] != NL);
    let line = strip_cr(seg);
    assert(forall|i: int| 0 <= i < line.len() ==> line[i] == seg[i]);
}

/// A parsed `mean,std,repeat` line always carries a stored (seconds) pair.
proof fn lemma_parse_avgstd_stored(l: Seq<u8>)
    ensures
        spec_parse_avgstd(l) matches Ok(v) ==> avgstd_stored_wf(v.0),
{
    let fs = trim_all(split_byte(l, COMMA));
    match spec_parse_avgstd(l) {
        Ok(_) => {
            lemma_lat_of_stored(fs[0]);
            lemma_lat_of_stored(fs[1]);
        },
        Err(_) => {},
    }
}

/// Parsed entry rows all carry stored (seconds) pairs.
proof fn lemma_parse_entries_stored(s: Seq<u8>, pos: int)
    ensures
        spec_parse_entries(s, pos) matches Ok(v) ==> forall|i: int|
            0 <= i < v.0.len() ==> entry_stored_wf(#[trigger] v.0[i]),
    decreases s.len() - pos,
{
    match spec_next_line(s, pos) {
        None => {},
        Some((line, p2)) => {
            let t = spec_trim(line);
            if t == header_preprocess() {
            } else if !(pos < p2 <= s.len()) {
            } else {
                match spec_parse_entry(t) {
                    Err(_) => {},
                    Ok(e) => {
                        lemma_parse_entry_stored(t);
                        lemma_parse_entries_stored(s, p2);
                        match spec_parse_entries(s, p2) {
                            Err(_) => {},
                            Ok(v2) => {
                                assert(forall|i: int|
                                    0 <= i < v2.0.len() ==> (seq![e] + v2.0)[i + 1] == v2.0[i]);
                                assert((seq![e] + v2.0)[0] == e);
                            },
                        }
                    },
                }
            }
        },
    }
}

/// A field cut from a line: trimmed, and free of line feeds and of the
/// delimiter it was split on.
proof fn lemma_line_field_wf(line: Seq<u8>, d: u8, k: int)
    requires
        forall|i: int| 0 <= i < line.len() ==> line[i] != NL,
        0 <= k < split_byte(line, d).len(),
    ensures
        ({
            let f = trim_all(split_byte(line, d))[k];
            &&& spec_trim(f) == f
            &&& forall|i: int| 0 <= i < f.len() ==> f[i] != NL
            &&& forall|i: int| 0 <= i < f.len() ==> f[i] != d
        }),
{
    let piece = split_byte(line, d)[k];
    assert(trim_all(split_byte(line, d))[k] == spec_trim(piece));
    lemma_split_pieces_no_byte(line, d, NL);
    lemma_trim_no_byte(piece, NL);
    lemma_trim_no_byte(piece, d);
    lemma_trim_idem(piece);
}

/// A trimmed line: trimmed and free of line feeds.
proof fn lemma_trimmed_line_wf(s: Seq<u8>, pos: int)
    requires
        spec_next_line(s, pos) is Some,
    ensures
        ({
            let f = spec_trim(spec_next_line(s, pos)->Some_0.0);
            &&& spec_trim(f) == f
            &&& forall|i: int| 0 <= i < f.len() ==> f[i] != NL
        }),
{
    let line = spec_next_line(s, pos)->Some_0.0;
    lemma_next_line_no_nl(s, pos);
    lemma_trim_no_byte(line, NL);
    lemma_trim_idem(line);
}

/// Whatever text a profile was parsed from, the parsed value is
/// well-formed: trimmed single-line fields, the sentinel row in place, and
/// stored (seconds) distributions throughout.
#[verifier::rlimit(100)]
#[verifier::spinoff_prover]
pub proof fn lemma_profile_parse_wf(raw: Seq<u8>)
    ensures
        spec_parse_profile(raw) matches Ok(p) ==> profile_wf(p),
{
    let s = spec_trim(raw);
    if spec_parse_profile(raw) is Ok {
        let p = spec_parse_profile(raw)->Ok_0;
        let (l1, p1) = spec_next_line(s, 0)->Some_0;
        lemma_next_line_no_nl(s, 0);
        let fs = trim_all(split_byte(l1, COLON));
        crate::text::lemma_find_byte_props(l1, COLON);
        assert(fs.len() == split_byte(l1, COLON).len());
        lemma_line_field_wf(l1, COLON, 0);
        lemma_line_field_wf(l1, COLON, 1);
        lemma_line_field_wf(l1, COLON, 2);
        assert(label_wf(p.framework));
        assert(label_wf(p.model));
        assert(label_wf(p.version));
        let (l2, p2) = spec_next_line(s, p1)->Some_0;
        lemma_trimmed_line_wf(s, p1);
        assert(field_wf(p.gpu_model));
        let (l3, p3) = spec_next_line(s, p2)->Some_0;
        lemma_trimmed_line_wf(s, p2);
        assert(field_wf(p.gpu_uuid));
        let (l4, p4) = spec_next_line(s, p3)->Some_0;
        let (l5, p5) = spec_next_line(s, p4)->Some_0;
        let (es, p6) = spec_parse_entries(s, p5)->Ok_0;
        lemma_parse_entries_stored(s, p5);
        assert(p.forwards == seq![sentinel_entry()] + es);
        assert(p.forwards[0] == sentinel_entry());
        assert(forall|i: int| 1 <= i < p.forwards.len() ==> p.forwards[i] == es[i - 1]);
        assert(forall|i: int|
            1 <= i < p.forwards.len() ==> entry_stored_wf(#[trigger] p.forwards[i]));
        let (l7, p7) = spec_next_line(s, p6)->Some_0;
        lemma_parse_avgstd_stored(l7);
        let (l8, p8) = spec_next_line(s, p7)->Some_0;
        let (l9, _p9) = spec_next_line(s, p8)->Some_0;
        lemma_parse_avgstd_stored(l9);
        assert(avgstd_stored_wf(p.preproc));
        assert(avgstd_stored_wf(p.postproc));
    }
}

/// The round-trip law for whole profiles, free-standing: whatever text a
/// profile was parsed from, writing it out parses back to the identical
/// value.
pub proof fn lemma_profile_parse_round_trip(raw: Seq<u8>)
    ensures
        spec_parse_profile(raw) matches Ok(p) ==> spec_parse_profile(spec_profile_text(p))
            == Ok::<ModelProfileView, ErrorModel>(p),
{
    match spec_parse_profile(raw) {
        Ok(p) => {
            lemma_profile_parse_wf(raw);
            lemma_profile_text_round_trip(p);
        },
        Err(_) => {},
    }
}

/// Positions of the written profile's lines, cumulative.
pub open spec fn ident_line(p: ModelProfileView) -> Seq<u8> {
    p.framework + seq![COLON] + p.model + seq![COLON] + p.version
}

/// Reading a written profile's first five lines: each comes back verbatim
/// at its position, and the identity line splits into its three labels.
#[verifier::rlimit(100)]
#[verifier::spinoff_prover]
proof fn lemma_profile_walk_head(p: ModelProfileView)
    requires
        profile_wf(p),
    ensures
        ({
            let s = spec_trim(spec_profile_text(p));
            let l1 = ident_line(p);
            let ent = spec_entries_text(p.forwards.skip(1));
            let pre_line = spec_avgstd_text(p.preproc, p.preproc_repeat);
            let post_line = spec_avgstd_text(p.postproc, p.postproc_repeat);
            let p1 = l1.len() + 1;
            let p2 = p1 + p.gpu_model.len() + 1;
            let p3 = p2 + p.gpu_uuid.len() + 1;
            let p4 = p3 + header_forward().len() + 1;
            let p5 = p4 + header_table().len() + 1;
            &&& spec_next_line(s, 0) == Some((l1, p1 as int))
            &&& trim_all(split_byte(l1, COLON)) == seq![p.framework, p.model, p.version]
            &&& spec_next_line(s, p1 as int) == Some((p.gpu_model, p2 as int))
            &&& spec_next_line(s, p2 as int) == Some((p.gpu_uuid, p3 as int))
            &&& spec_next_line(s, p3 as int) == Some((header_forward(), p4 as int))
            &&& spec_next_line(s, p4 as int) == Some((header_table(), p5 as int))
            &&& p5 <= s.len()
            &&& s.skip(p5 as int) == ent + header_preprocess() + seq![NL] + (pre_line + seq![
                NL,
            ] + (header_postprocess() + seq![NL] + post_line))
        }),
{
    lemma_header_bytes();
    let l1 = ident_line(p);
    let ent = spec_entries_text(p.forwards.skip(1));
    let pre_line = spec_avgstd_text(p.preproc, p.preproc_repeat);
    let post_line = spec_avgstd_text(p.postproc, p.postproc_repeat);
    let rest7 = post_line;
    let rest6 = header_postprocess() + seq![NL] + rest7;
    let rest5 = pre_line + seq![NL] + rest6;
    let rest45 = ent + header_preprocess() + seq![NL] + rest5;
    let rest4 = header_table() + seq![NL] + rest45;
    let rest3 = header_forward() + seq![NL] + rest4;
    let rest2 = p.gpu_uuid + seq![NL] + rest3;
    let rest1 = p.gpu_model + seq![NL] + rest2;
    let s0 = l1 + seq![NL] + rest1;
    let t_all = spec_profile_text(p);
    lemma_avgstd_text_bytes(p.preproc, p.preproc_repeat);
    lemma_avgstd_text_bytes(p.postproc, p.postproc_repeat);
    assert(t_all =~= s0 + seq![NL]);
    // Trimming the written text only removes its final line feed.
    assert(t_all[0] == l1[0]);
    if p.framework.len() > 0 {
        lemma_trim_id_ends(p.framework);
        assert(l1[0] == p.framework[0]);
    } else {
        assert(l1[0] == COLON);
    }
    assert(!crate::text::is_space(t_all[0]));
    assert(trim_front(t_all) == t_all);
    assert(t_all.last() == NL);
    assert(t_all.drop_last() =~= s0);
    assert(trim_back(t_all) == trim_back(s0));
    assert(s0.last() == post_line.last());
    assert(!crate::text::is_space(s0.last()));
    assert(trim_back(s0) == s0);
    let s = spec_trim(t_all);
    assert(s == s0);
    // Line 1: the identity triple.
    assert(forall|i: int| 0 <= i < seq![COLON].len() ==> seq![COLON][i] != NL);
    lemma_concat_no_byte(p.framework, seq![COLON], NL);
    lemma_concat_no_byte(p.framework + seq![COLON], p.model, NL);
    lemma_concat_no_byte(p.framework + seq![COLON] + p.model, seq![COLON], NL);
    lemma_concat_no_byte(p.framework + seq![COLON] + p.model + seq![COLON], p.version, NL);
    assert(forall|i: int| 0 <= i < l1.len() ==> l1[i] != NL);
    if p.version.len() > 0 {
        lemma_trim_id_ends(p.version);
        assert(l1.last() == p.version.last());
    } else {
        assert(l1.last() == COLON);
    }
    assert(l1.last() != CR);
    assert(s.skip(0) =~= s0);
    lemma_read_line(s, 0, l1, rest1);
    let p1 = l1.len() as int + 1;
    // Its three colon-separated fields are the three labels.
    assert(l1 =~= p.framework + seq![COLON] + (p.model + seq![COLON] + p.version));
    lemma_split_prepend(p.framework, p.model + seq![COLON] + p.version, COLON);
    lemma_split_prepend(p.model, p.version, COLON);
    lemma_no_byte_find(p.version, COLON);
    lemma_split_single(p.version, COLON);
    assert(split_byte(l1, COLON) =~= seq![p.framework, p.model, p.version]);
    assert(trim_all(split_byte(l1, COLON)) =~~= seq![
        spec_trim(p.framework),
        spec_trim(p.model),
        spec_trim(p.version),
    ]);
    assert(trim_all(split_byte(l1, COLON)) =~~= seq![p.framework, p.model, p.version]);
    // Lines 2 and 3: the GPU model and UUID.
    if p.gpu_model.len() > 0 {
        lemma_trim_id_ends(p.gpu_model);
    }
    lemma_read_line(s, p1, p.gpu_model, rest2);
    let p2 = p1 + p.gpu_model.len() as int + 1;
    if p.gpu_uuid.len() > 0 {
        lemma_trim_id_ends(p.gpu_uuid);
    }
    lemma_read_line(s, p2, p.gpu_uuid, rest3);
    let p3 = p2 + p.gpu_uuid.len() as int + 1;
    // Lines 4 and 5: the two literal header lines.
    lemma_read_line(s, p3, header_forward(), rest4);
    let p4 = p3 + header_forward().len() as int + 1;
    lemma_read_line(s, p4, header_table(), rest45);
    let p5 = p4 + header_table().len() as int + 1;
    assert(s.skip(p5) == rest45);
}

/// Reading a written profile line by line: every line comes back verbatim
/// at its position, and every data section parses back to its value.
#[verifier::rlimit(100)]
#[verifier::spinoff_prover]
proof fn lemma_profile_walk(p: ModelProfileView)
    requires
        profile_wf(p),
    ensures
        ({
            let s = spec_trim(spec_profile_text(p));
            let l1 = ident_line(p);
            let ent = spec_entries_text(p.forwards.skip(1));
            let pre_line = spec_avgstd_text(p.preproc, p.preproc_repeat);
            let post_line = spec_avgstd_text(p.postproc, p.postproc_repeat);
            let p1 = l1.len() + 1;
            let p2 = p1 + p.gpu_model.len() + 1;
            let p3 = p2 + p.gpu_uuid.len() + 1;
            let p4 = p3 + header_forward().len() + 1;
            let p5 = p4 + header_table().len() + 1;
            let p6 = p5 + ent.len() + header_preprocess().len() + 1;
            let p7 = p6 + pre_line.len() + 1;
            let p8 = p7 + header_postprocess().len() + 1;
            &&& spec_next_line(s, 0) == Some((l1, p1 as int))
            &&& trim_all(split_byte(l1, COLON)) == seq![p.framework, p.model, p.version]
            &&& spec_next_line(s, p1 as int) == Some((p.gpu_model, p2 as int))
            &&& spec_next_line(s, p2 as int) == Some((p.gpu_uuid, p3 as int))
            &&& spec_next_line(s, p3 as int) == Some((header_forward(), p4 as int))
            &&& spec_next_line(s, p4 as int) == Some((header_table(), p5 as int))
            &&& spec_parse_entries(s, p5 as int) == Ok::<(Seq<ProfileEntry>, int), ErrorModel>(
                (p.forwards.skip(1), p6 as int),
            )
            &&& spec_next_line(s, p6 as int) == Some((pre_line, p7 as int))
            &&& spec_next_line(s, p7 as int) == Some((header_postprocess(), p8 as int))
            &&& spec_next_line(s, p8 as int) == Some((post_line, s.len() as int))
        }),
{
    lemma_header_bytes();
    lemma_profile_walk_head(p);
    let s = spec_trim(spec_profile_text(p));
    let l1 = ident_line(p);
    let ent = spec_entries_text(p.forwards.skip(1));
    let pre_line = spec_avgstd_text(p.preproc, p.preproc_repeat);
    let post_line = spec_avgstd_text(p.postproc, p.postproc_repeat);
    lemma_avgstd_text_bytes(p.preproc, p.preproc_repeat);
    lemma_avgstd_text_bytes(p.postproc, p.postproc_repeat);
    let rest7 = post_line;
    let rest6 = header_postprocess() + seq![NL] + rest7;
    let rest5 = pre_line + seq![NL] + rest6;
    let p5 = l1.len() as int + 1 + p.gpu_model.len() as int + 1 + p.gpu_uuid.len() as int + 1
        + header_forward().len() as int + 1 + header_table().len() as int + 1;
    assert(s.skip(p5) =~= ent + header_preprocess() + seq![NL] + rest5);
    // The entry rows, up to the preprocess header.
    assert(forall|i: int|
        0 <= i < p.forwards.skip(1).len() ==> entry_stored_wf(#[trigger] p.forwards.skip(1)[i]))
        by {
        assert(forall|i: int|
            0 <= i < p.forwards.skip(1).len() ==> p.forwards.skip(1)[i] == p.forwards[i + 1]);
    }
    lemma_entries_round_trip(s, p5, p.forwards.skip(1), rest5);
    let p6 = p5 + ent.len() as int + header_preprocess().len() as int + 1;
    // The preprocess line, the postprocess header, the postprocess line.
    lemma_read_line(s, p6, pre_line, rest6);
    let p7 = p6 + pre_line.len() as int + 1;
    lemma_read_line(s, p7, header_postprocess(), rest7);
    let p8 = p7 + header_postprocess().len() as int + 1;
    lemma_read_last_line(s, p8, post_line);
}

/// The round-trip law for whole profiles: a written profile parses back to
/// the identical value, for every well-formed profile — well-formed being
/// exactly the form parsing itself produces.
#[verifier::rlimit(100)]
#[verifier::spinoff_prover]
pub proof fn lemma_profile_text_round_trip(p: ModelProfileView)
    requires
        profile_wf(p),
    ensures
        spec_parse_profile(spec_profile_text(p)) == Ok::<ModelProfileView, ErrorModel>(p),
{
    lemma_header_bytes();
    lemma_profile_walk(p);
    lemma_avgstd_text_round_trip(p.preproc, p.preproc_repeat);
    lemma_avgstd_text_round_trip(p.postproc, p.postproc_repeat);
    assert(seq![sentinel_entry()] + p.forwards.skip(1) =~= p.forwards);
    let t_all = spec_profile_text(p);
    match spec_parse_profile(t_all) {
        Ok(v) => {
            assert(v == p);
        },
        Err(_) => {
            assert(false);
        },
    }
}

} // verus!
