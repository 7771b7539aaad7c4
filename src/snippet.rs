//! Where a diagnostic sits among the lines of its file, for showing it as a
//! snippet of source lines.
use vstd::prelude::*;

use crate::diagnostic::{CharRange, Range};
use crate::syntax::{BYTE_ORDER_MARK, MAX_SOURCE_LEN, Span, SyntaxTree};
use vstd::string::StringSliceAdditionalSpecFns;

verus! {

/// The number of lines of a text.
pub uninterp spec fn lines_count_of(text: Seq<char>) -> usize;

/// The byte offset at which a line of a text starts.
pub uninterp spec fn line_start_of(text: Seq<char>, line_index: usize) -> usize;

/// The byte offset at which a line of a text ends, before its line break.
pub uninterp spec fn line_end_of(text: Seq<char>, line_index: usize) -> usize;

/// Relies on deno_ast's `SourceTextInfo::lines_count`: the number of lines
/// of the text.
#[verifier::external_body]
fn lines_count(text: &str) -> (r: usize)
    requires
        text.spec_bytes().len() < MAX_SOURCE_LEN,
        text@.len() > 0 ==> text@[0] != BYTE_ORDER_MARK,
    ensures
        r == lines_count_of(text@),
{
    deno_ast::SourceTextInfo::from_string(text.to_string()).lines_count()
}

/// Relies on deno_ast's `SourceTextInfo::line_start`: the byte offset at
/// which a line starts. It panics on a line index past the last line.
#[verifier::external_body]
fn line_start(text: &str, line_index: usize) -> (r: usize)
    requires
        text.spec_bytes().len() < MAX_SOURCE_LEN,
        text@.len() > 0 ==> text@[0] != BYTE_ORDER_MARK,
        line_index < lines_count_of(text@),
    ensures
        r == line_start_of(text@, line_index),
{
    let info = deno_ast::SourceTextInfo::from_string(text.to_string());
    info.line_start(line_index) - info.range().start
}

/// Relies on deno_ast's `SourceTextInfo::line_end`: the byte offset at which
/// a line ends, before its line break. It panics on a line index past the
/// last line.
#[verifier::external_body]
fn line_end(text: &str, line_index: usize) -> (r: usize)
    requires
        text.spec_bytes().len() < MAX_SOURCE_LEN,
        text@.len() > 0 ==> text@[0] != BYTE_ORDER_MARK,
        line_index < lines_count_of(text@),
    ensures
        r == line_end_of(text@, line_index),
{
    let info = deno_ast::SourceTextInfo::from_string(text.to_string());
    info.line_end(line_index) - info.range().start
}

/// A UTF-8 continuation byte, `10xxxxxx`.
pub open spec fn is_continuation(b: u8) -> bool {
    0x80 <= b < 0xc0
}

/// The number of characters that start in `b`: its bytes that are not
/// continuation bytes.
pub open spec fn char_starts(b: Seq<u8>) -> nat
    decreases b.len(),
{
    if b.len() == 0 {
        0
    } else {
        char_starts(b.drop_last()) + if is_continuation(b.last()) {
            0nat
        } else {
            1nat
        }
    }
}

/// The number of characters that start in bytes `lo..hi` of `b`.
pub fn count_chars(b: &[u8], lo: usize, hi: usize) -> (r: usize)
    requires
        lo <= hi <= b@.len(),
    ensures
        r == char_starts(b@.subrange(lo as int, hi as int)),
{
    let mut count: usize = 0;
    let mut i: usize = lo;
    assert(b@.subrange(lo as int, lo as int) =~= Seq::<u8>::empty());
    while i < hi
        invariant
            lo <= i <= hi <= b@.len(),
            count == char_starts(b@.subrange(lo as int, i as int)),
            count <= i - lo,
        decreases hi - i,
    {
        assert(b@.subrange(lo as int, i + 1).drop_last() =~= b@.subrange(lo as int, i as int));
        if !(0x80 <= b[i] && b[i] < 0xc0) {
            count = count + 1;
        }
        i = i + 1;
    }
    count
}

/// The lines from the start line of `range` to its end line, as a byte span
/// of the text, and where the range starts and ends within them, counted in
/// characters. None where a line index is past the last line, or the range
/// does not lie within those lines.
pub fn get_slice_source_and_range(source_file: &SyntaxTree, range: &Range) -> (r: Option<
    (Span, CharRange),
>)
    requires
        source_file.wf(),
    ensures
        ({
            let text = source_file.source_text();
            let b = source_file.bytes();
            let count = lines_count_of(text);
            let ok_lines = range.start.line_index < count && range.end.line_index < count;
            let first = line_start_of(text, range.start.line_index);
            let last = line_end_of(text, range.end.line_index);
            let fits = first <= range.start.byte_pos <= b.len() && first <= range.end.byte_pos
                <= b.len() && first <= last <= b.len();
            match r {
                Some((slice, chars)) => {
                    &&& ok_lines && fits
                    &&& slice == (Span { lo: first, hi: last })
                    &&& chars.start_index == char_starts(
                        b.subrange(first as int, range.start.byte_pos as int),
                    )
                    &&& chars.end_index == char_starts(
                        b.subrange(first as int, range.end.byte_pos as int),
                    )
                },
                None => !(ok_lines && fits),
            }
        }),
{
    proof {
        source_file.lemma_tree();
    }
    let text = source_file.source();
    let count = lines_count(text);
    if range.start.line_index >= count || range.end.line_index >= count {
        return None;
    }
    let first_line_start = line_start(text, range.start.line_index);
    let last_line_end = line_end(text, range.end.line_index);
    let b = text.as_bytes();
    let len = b.len();
    if !(first_line_start <= range.start.byte_pos && range.start.byte_pos <= len
        && first_line_start <= range.end.byte_pos && range.end.byte_pos <= len && first_line_start
        <= last_line_end && last_line_end <= len) {
        return None;
    }
    let start_index = count_chars(b, first_line_start, range.start.byte_pos);
    let end_index = count_chars(b, first_line_start, range.end.byte_pos);
    Some((Span { lo: first_line_start, hi: last_line_end }, CharRange { start_index, end_index }))
}

} // verus!
