//! Patching a manifest: the region between the two marker lines is replaced
//! by a freshly generated block, indented as the start marker is.

use crate::config::{END_MARKER, START_MARKER};
use vstd::prelude::*;
use vstd::string::StringSliceAdditionalSpecFns;

verus! {

/// Why a manifest cannot be patched.
#[derive(Clone, Copy, Debug, PartialEq, Eq, Structural)]
pub enum PatchError {
    /// The start marker or the end marker does not occur.
    ManifestMarkersMissing,
    /// The first start marker does not come before the first end marker.
    ManifestMarkersOutOfOrder,
}

/// The line feed.
pub const LF: u8 = 10;

/// The carriage return.
pub const CR: u8 = 13;

/// `needle` occurs in `hay` at position `i`.
pub open spec fn occurs_at(hay: Seq<u8>, needle: Seq<u8>, i: int) -> bool {
    0 <= i && i + needle.len() <= hay.len() && hay.subrange(i, i + needle.len()) == needle
}

/// `needle` occurs somewhere in `hay`.
pub open spec fn occurs(hay: Seq<u8>, needle: Seq<u8>) -> bool {
    exists|i: int| occurs_at(hay, needle, i)
}

/// `i` is where `needle` first occurs in `hay`.
pub open spec fn first_at(hay: Seq<u8>, needle: Seq<u8>, i: int) -> bool {
    occurs_at(hay, needle, i) && forall|j: int| 0 <= j < i ==> !occurs_at(hay, needle, j)
}

/// The position at which `needle` first occurs in `hay`; meaningful only
/// where it occurs.
pub open spec fn first_occurrence(hay: Seq<u8>, needle: Seq<u8>) -> int {
    choose|i: int| first_at(hay, needle, i)
}

/// There is only one first occurrence.
pub proof fn lemma_first_occurrence(hay: Seq<u8>, needle: Seq<u8>, i: int)
    requires
        first_at(hay, needle, i),
    ensures
        occurs(hay, needle),
        first_occurrence(hay, needle) == i,
{
    let c = first_occurrence(hay, needle);
    assert(first_at(hay, needle, c));
    if c < i {
        assert(!occurs_at(hay, needle, c));
    }
    if i < c {
        assert(!occurs_at(hay, needle, i));
    }
}

/// What occurs has a first occurrence.
pub proof fn lemma_occurs_first(hay: Seq<u8>, needle: Seq<u8>)
    requires
        occurs(hay, needle),
    ensures
        first_at(hay, needle, first_occurrence(hay, needle)),
{
    let w = choose|i: int| occurs_at(hay, needle, i);
    lemma_first_before(hay, needle, w);
}

proof fn lemma_first_before(hay: Seq<u8>, needle: Seq<u8>, w: int)
    requires
        occurs_at(hay, needle, w),
    ensures
        exists|i: int| first_at(hay, needle, i),
    decreases w,
{
    if exists|j: int| 0 <= j < w && occurs_at(hay, needle, j) {
        let j = choose|j: int| 0 <= j < w && occurs_at(hay, needle, j);
        lemma_first_before(hay, needle, j);
    } else {
        assert(first_at(hay, needle, w));
    }
}

/// Whether `needle` occurs in `hay` at position `i`.
fn matches_at(hay: &[u8], needle: &[u8], i: usize) -> (b: bool)
    requires
        i + needle@.len() <= hay@.len(),
    ensures
        b == occurs_at(hay@, needle@, i as int),
{
    let total = hay.len();
    let mut k: usize = 0;
    while k < needle.len()
        invariant
            i + needle@.len() <= hay@.len() == total,
            k <= needle@.len(),
            forall|j: int| 0 <= j < k ==> hay@[i + j] == needle@[j],
        decreases needle.len() - k,
    {
        if hay[i + k] != needle[k] {
            assert(hay@.subrange(i as int, i + needle@.len())[k as int] != needle@[k as int]);
            return false;
        }
        k += 1;
    }
    assert(hay@.subrange(i as int, i + needle@.len()) =~= needle@);
    true
}

/// Where `needle` first occurs in `hay`, if it does.
pub fn find_bytes(hay: &[u8], needle: &[u8]) -> (r: Option<usize>)
    ensures
        r is Some <==> occurs(hay@, needle@),
        r matches Some(i) ==> i == first_occurrence(hay@, needle@) && first_at(
            hay@,
            needle@,
            i as int,
        ),
{
    if needle.len() > hay.len() {
        return None;
    }
    let last = hay.len() - needle.len();
    let mut i: usize = 0;
    while i < last
        invariant
            last == hay@.len() - needle@.len(),
            i <= last,
            forall|j: int| 0 <= j < i ==> !occurs_at(hay@, needle@, j),
        decreases last - i,
    {
        if matches_at(hay, needle, i) {
            proof {
                lemma_first_occurrence(hay@, needle@, i as int);
            }
            return Some(i);
        }
        i += 1;
    }
    if matches_at(hay, needle, last) {
        proof {
            lemma_first_occurrence(hay@, needle@, last as int);
        }
        return Some(last);
    }
    None
}

/// Where the line that holds position `at` begins: behind the last line feed
/// before `at`, or at 0.
pub open spec fn line_start(text: Seq<u8>, at: int) -> int
    decreases at,
{
    if at <= 0 {
        0
    } else if text[at - 1] == LF {
        at
    } else {
        line_start(text, at - 1)
    }
}

/// Where the line that begins at `from` ends: at the first line feed from
/// there on, or at the end of the text.
pub open spec fn line_end(text: Seq<u8>, from: int) -> int
    decreases text.len() - from,
{
    if from < 0 || from >= text.len() {
        text.len() as int
    } else if text[from] == LF {
        from
    } else {
        line_end(text, from + 1)
    }
}

/// A line ends at or behind its beginning, and within the text.
pub proof fn lemma_line_end(text: Seq<u8>, from: int)
    requires
        0 <= from <= text.len(),
    ensures
        from <= line_end(text, from) <= text.len(),
        line_end(text, from) < text.len() ==> text[line_end(text, from)] == LF,
        forall|i: int| from <= i < line_end(text, from) ==> text[i] != LF,
    decreases text.len() - from,
{
    if from < text.len() && text[from] != LF {
        lemma_line_end(text, from + 1);
    }
}

/// `line` without a carriage return at its end.
pub open spec fn strip_cr(line: Seq<u8>) -> Seq<u8> {
    if line.len() > 0 && line.last() == CR {
        line.drop_last()
    } else {
        line
    }
}

/// The line of `text` that begins at `from`: up to its line end, without a
/// carriage return before a line feed.
pub open spec fn line_at(text: Seq<u8>, from: int) -> Seq<u8> {
    let end = line_end(text, from);
    if end < text.len() {
        strip_cr(text.subrange(from, end))
    } else {
        text.subrange(from, end)
    }
}

/// Where the line behind the one that begins at `from` begins: behind the
/// line feed, or at the end of the text.
pub open spec fn next_line(text: Seq<u8>, from: int) -> int {
    let end = line_end(text, from);
    if end < text.len() {
        end + 1
    } else {
        end
    }
}

/// The lines of `text[from..]`. A line ends at a line feed, or at a carriage
/// return and a line feed, neither being part of the line; the last line may
/// lack its line end, and text that ends in a line end has no empty line
/// after it.
pub open spec fn lines(text: Seq<u8>, from: int) -> Seq<Seq<u8>>
    decreases text.len() - from,
{
    if from < 0 || from >= text.len() {
        Seq::empty()
    } else {
        proof {
            lemma_line_end(text, from);
        }
        seq![line_at(text, from)] + lines(text, next_line(text, from))
    }
}

/// `lines`, each behind `indent`, with a line feed between each two.
pub open spec fn indent_block(indent: Seq<u8>, lines: Seq<Seq<u8>>) -> Seq<u8>
    decreases lines.len(),
{
    if lines.len() == 0 {
        Seq::empty()
    } else if lines.len() == 1 {
        indent + lines[0]
    } else {
        indent + lines[0] + seq![LF] + indent_block(indent, lines.drop_first())
    }
}

/// The start marker, as bytes.
pub open spec fn start_bytes() -> Seq<u8> {
    START_MARKER.spec_bytes()
}

/// The end marker, as bytes.
pub open spec fn end_bytes() -> Seq<u8> {
    END_MARKER.spec_bytes()
}

/// The manifest `content` with the block `config` put in place of the marker
/// region.
///
/// The region runs from the beginning of the line that holds the first start
/// marker to the end of the line that holds the first end marker; the line
/// feed that ends that line stays. What stands before the start marker on
/// its line is the indentation, and every line of `config` is put behind it.
pub open spec fn patched(content: Seq<u8>, config: Seq<u8>) -> Result<Seq<u8>, PatchError> {
    if !occurs(content, start_bytes()) || !occurs(content, end_bytes()) {
        Err(PatchError::ManifestMarkersMissing)
    } else {
        let start = first_occurrence(content, start_bytes());
        let end = first_occurrence(content, end_bytes());
        if start >= end {
            Err(PatchError::ManifestMarkersOutOfOrder)
        } else {
            let begin = line_start(content, start);
            let indent = content.subrange(begin, start);
            let rest = line_end(content, end + end_bytes().len());
            Ok(
                content.subrange(0, begin) + indent_block(indent, lines(config, 0))
                    + content.subrange(rest, content.len() as int),
            )
        }
    }
}

/// A patch touches the marker region alone: the patched manifest begins as
/// the manifest does up to the line of the start marker and ends as the
/// manifest does from the end of the line of the end marker on, with the
/// indented block between. The region is made of whole lines.
pub proof fn lemma_patched_outside(content: Seq<u8>, config: Seq<u8>)
    requires
        patched(content, config) is Ok,
    ensures
        ({
            let start = first_occurrence(content, start_bytes());
            let marker_end = first_occurrence(content, end_bytes()) + end_bytes().len();
            let begin = line_start(content, start);
            let rest = line_end(content, marker_end);
            let out = patched(content, config)->Ok_0;
            let tail = content.len() - rest;
            &&& 0 <= begin <= start < marker_end <= rest <= content.len()
            &&& out.len() >= begin + tail
            &&& out.subrange(0, begin) == content.subrange(0, begin)
            &&& out.subrange(out.len() - tail, out.len() as int) == content.subrange(
                rest,
                content.len() as int,
            )
            &&& begin > 0 ==> content[begin - 1] == LF
            &&& rest < content.len() ==> content[rest] == LF
            &&& forall|i: int| begin <= i < start ==> content[i] != LF
            &&& forall|i: int| marker_end <= i < rest ==> content[i] != LF
        }),
{
    let start = first_occurrence(content, start_bytes());
    let end = first_occurrence(content, end_bytes());
    lemma_occurs_first(content, start_bytes());
    lemma_occurs_first(content, end_bytes());
    lemma_line_start(content, start);
    lemma_line_end(content, end + end_bytes().len());
    let begin = line_start(content, start);
    let rest = line_end(content, end + end_bytes().len());
    let out = patched(content, config)->Ok_0;
    let tail = content.len() - rest;
    assert(out.subrange(0, begin) =~= content.subrange(0, begin));
    assert(out.subrange(out.len() - tail, out.len() as int) =~= content.subrange(
        rest,
        content.len() as int,
    ));
}

/// A line begins at or before any position in it, and holds no line feed
/// before that position.
pub proof fn lemma_line_start(text: Seq<u8>, at: int)
    requires
        0 <= at <= text.len(),
    ensures
        0 <= line_start(text, at) <= at,
        line_start(text, at) > 0 ==> text[line_start(text, at) - 1] == LF,
        forall|i: int| line_start(text, at) <= i < at ==> text[i] != LF,
    decreases at,
{
    if at > 0 && text[at - 1] != LF {
        lemma_line_start(text, at - 1);
    }
}

/// Appends `src[from..to]` to `out`.
fn push_range(out: &mut Vec<u8>, src: &[u8], from: usize, to: usize)
    requires
        from <= to <= src@.len(),
    ensures
        final(out)@ == old(out)@ + src@.subrange(from as int, to as int),
{
    let ghost head = out@;
    let mut i: usize = from;
    proof {
        assert(head + src@.subrange(from as int, from as int) =~= head);
    }
    while i < to
        invariant
            from <= i <= to <= src@.len(),
            out@ == head + src@.subrange(from as int, i as int),
        decreases to - i,
    {
        out.push(src[i]);
        i += 1;
        proof {
            assert(out@ =~= head + src@.subrange(from as int, i as int));
        }
    }
}

/// Where the line that holds position `at` begins.
fn find_line_start(text: &[u8], at: usize) -> (begin: usize)
    requires
        at <= text@.len(),
    ensures
        begin == line_start(text@, at as int),
        begin <= at,
{
    let mut p: usize = at;
    while p > 0 && text[p - 1] != LF
        invariant
            p <= at <= text@.len(),
            line_start(text@, at as int) == line_start(text@, p as int),
        decreases p,
    {
        p -= 1;
    }
    p
}

/// Where the line that begins at `from` ends.
fn find_line_end(text: &[u8], from: usize) -> (end: usize)
    requires
        from <= text@.len(),
    ensures
        end == line_end(text@, from as int),
        from <= end <= text@.len(),
{
    let mut p: usize = from;
    while p < text.len() && text[p] != LF
        invariant
            from <= p <= text@.len(),
            line_end(text@, from as int) == line_end(text@, p as int),
        decreases text.len() - p,
    {
        p += 1;
    }
    p
}

/// What is still to be written of a block when `rest` are the lines left:
/// nothing, or a line feed where a line was written before, and the lines.
pub open spec fn block_tail(indent: Seq<u8>, rest: Seq<Seq<u8>>, first: bool) -> Seq<u8> {
    if rest.len() == 0 {
        Seq::empty()
    } else if first {
        indent_block(indent, rest)
    } else {
        seq![LF] + indent_block(indent, rest)
    }
}

/// What is still to be written begins with the next line, behind a line
/// feed where a line was written before, and behind the indentation.
proof fn lemma_block_tail_step(indent: Seq<u8>, rest: Seq<Seq<u8>>, first: bool)
    requires
        rest.len() > 0,
    ensures
        block_tail(indent, rest, first) == (if first {
            Seq::<u8>::empty()
        } else {
            seq![LF]
        }) + indent + rest[0] + block_tail(indent, rest.drop_first(), false),
{
    let lead = if first {
        Seq::<u8>::empty()
    } else {
        seq![LF]
    };
    let tail = block_tail(indent, rest.drop_first(), false);
    if rest.len() == 1 {
        assert(tail =~= Seq::<u8>::empty());
        assert(indent_block(indent, rest) =~= indent + rest[0] + tail);
    } else {
        assert(indent_block(indent, rest) =~= indent + rest[0] + tail);
    }
    assert(block_tail(indent, rest, first) =~= lead + indent + rest[0] + tail);
}

/// Appends to `out` the lines of `config`, each behind `indent`, with a line
/// feed between each two.
fn push_indented(out: &mut Vec<u8>, indent: &[u8], config: &[u8])
    ensures
        final(out)@ == old(out)@ + indent_block(indent@, lines(config@, 0)),
{
    let ghost head = out@;
    let ghost whole = indent_block(indent@, lines(config@, 0));
    let mut from: usize = 0;
    let mut first = true;
    let total = config.len();
    while from < total
        invariant
            total == config@.len(),
            from <= total,
            head + whole == out@ + block_tail(indent@, lines(config@, from as int), first),
        decreases total - from,
    {
        let ghost before = out@;
        let ghost here = lines(config@, from as int);
        let ghost line = line_at(config@, from as int);
        let ghost rest = lines(config@, next_line(config@, from as int));
        let ghost lead = if first {
            Seq::<u8>::empty()
        } else {
            seq![LF]
        };
        let end = find_line_end(config, from);
        if !first {
            out.push(LF);
        }
        assert(out@ =~= before + lead);
        push_range(out, indent, 0, indent.len());
        assert(indent@.subrange(0, indent@.len() as int) =~= indent@);
        let next = if end < total {
            let stop = if end > from && config[end - 1] == CR {
                end - 1
            } else {
                end
            };
            proof {
                let raw = config@.subrange(from as int, end as int);
                if end > from {
                    assert(raw.last() == config@[end - 1]);
                }
                assert(strip_cr(raw) =~= config@.subrange(from as int, stop as int));
            }
            push_range(out, config, from, stop);
            end + 1
        } else {
            push_range(out, config, from, end);
            end
        };
        proof {
            let tail = block_tail(indent@, rest, false);
            assert(out@ == before + lead + indent@ + line);
            assert(here =~= seq![line] + rest);
            assert(here[0] == line);
            assert(here.drop_first() =~= rest);
            lemma_block_tail_step(indent@, here, first);
            assert(before + (lead + indent@ + line + tail) =~= before + lead + indent@ + line
                + tail);
        }
        first = false;
        from = next;
    }
    proof {
        assert(lines(config@, from as int) =~= Seq::<Seq<u8>>::empty());
        assert(out@ + Seq::<u8>::empty() =~= out@);
        if from == 0 {
            assert(whole =~= Seq::<u8>::empty());
        }
    }
}

/// Puts the block `config` into the manifest `content`, in place of the
/// region from the beginning of the line that holds the first start marker
/// to the end of the line that holds the first end marker. Every line of
/// `config` is indented as the start marker is. What lies outside the
/// region, the line feed behind it too, stays byte for byte.
///
/// `ManifestMarkersMissing` where either marker does not occur;
/// `ManifestMarkersOutOfOrder` where the first start marker does not come
/// before the first end marker.
pub fn update_flake_nix(content: &[u8], config: &[u8]) -> (r: Result<Vec<u8>, PatchError>)
    ensures
        match r {
            Ok(text) => patched(content@, config@) == Ok::<Seq<u8>, PatchError>(text@),
            Err(e) => patched(content@, config@) == Err::<Seq<u8>, PatchError>(e),
        },
{
    let start_marker = START_MARKER.as_bytes();
    let end_marker = END_MARKER.as_bytes();
    let start = match find_bytes(content, start_marker) {
        Some(start) => start,
        None => {
            return Err(PatchError::ManifestMarkersMissing);
        },
    };
    let end = match find_bytes(content, end_marker) {
        Some(end) => end,
        None => {
            return Err(PatchError::ManifestMarkersMissing);
        },
    };
    if start >= end {
        return Err(PatchError::ManifestMarkersOutOfOrder);
    }
    let begin = find_line_start(content, start);
    let indent = vstd::slice::slice_subrange(content, begin, start);
    let mut out: Vec<u8> = Vec::new();
    push_range(&mut out, content, 0, begin);
    push_indented(&mut out, indent, config);
    let total = content.len();
    assert(occurs_at(content@, end_marker@, end as int));
    let rest = find_line_end(content, end + end_marker.len());
    push_range(&mut out, content, rest, total);
    proof {
        assert(out@ =~= content@.subrange(0, begin as int) + indent_block(
            content@.subrange(begin as int, start as int),
            lines(config@, 0),
        ) + content@.subrange(rest as int, content@.len() as int));
    }
    Ok(out)
}

} // verus!
