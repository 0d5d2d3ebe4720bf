//! Row count for soft-wrapped text in the value pane: each text line is cut
//! into visual rows of at most `width` bytes, breaking after the last space
//! inside the width when there is one, else hard at the width.

use vstd::prelude::*;

verus! {

use vstd::string::StringSliceAdditionalSpecFns;
use crate::bytes::views_of;
use crate::split::{split_bytes, join_bytes, split_key, lemma_split_join, lemma_split_nonempty};

/// The largest index below `w` holding a space, if any.
pub open spec fn last_space(line: Seq<u8>, w: int) -> Option<int>
    decreases w,
{
    if w <= 0 {
        None
    } else if line[w - 1] == 32 {
        Some(w - 1)
    } else {
        last_space(line, w - 1)
    }
}

/// Bounds of `last_space`: a found space lies below `w` and holds a space
/// with none above it; otherwise there is no space below `w`.
pub proof fn lemma_last_space(line: Seq<u8>, w: int)
    ensures
        match last_space(line, w) {
            Some(j) => 0 <= j < w && line[j] == 32 && (forall|t: int| j < t < w ==> line[t] != 32),
            None => forall|t: int| 0 <= t < w ==> line[t] != 32,
        },
    decreases w,
{
    if w > 0 {
        lemma_last_space(line, w - 1);
    }
}

/// How many bytes of a too-long line the first visual row consumes: up to
/// and including the last space within the width, or the full width when the
/// line has no space there.
pub open spec fn break_len(line: Seq<u8>, w: int) -> int {
    match last_space(line, w) {
        Some(j) => j + 1,
        None => w,
    }
}

/// The number of visual rows one text line occupies at width `w`.
pub open spec fn line_rows(line: Seq<u8>, w: int) -> int
    decreases line.len(),
    via line_rows_decreases
{
    if w <= 0 || line.len() <= w {
        1
    } else {
        1 + line_rows(line.skip(break_len(line, w)), w)
    }
}

#[via_fn]
proof fn line_rows_decreases(line: Seq<u8>, w: int) {
    if !(w <= 0 || line.len() <= w) {
        lemma_last_space(line, w);
    }
}

/// The total rows of a sequence of lines.
pub open spec fn rows_sum(lines: Seq<Seq<u8>>, w: int) -> int
    decreases lines.len(),
{
    if lines.len() == 0 {
        0
    } else {
        line_rows(lines[0], w) + rows_sum(lines.skip(1), w)
    }
}

/// The rows that a text occupies at width `w`: its newline-separated lines,
/// each wrapped.
pub open spec fn wrapped_lines_spec(text: Seq<u8>, w: int) -> int {
    rows_sum(split_bytes(text, seq![10u8]), w)
}

/// A line occupies at least one row and at most one row per byte.
pub proof fn lemma_line_rows_bound(line: Seq<u8>, w: int)
    requires
        w >= 1,
    ensures
        1 <= line_rows(line, w),
        line_rows(line, w) <= if line.len() == 0 {
            1int
        } else {
            line.len() as int
        },
    decreases line.len(),
{
    if line.len() > w {
        lemma_last_space(line, w);
        let b = break_len(line, w);
        assert(1 <= b <= w);
        lemma_line_rows_bound(line.skip(b), w);
    }
}

/// The total byte length of a sequence of lines, counting `d` once per line.
pub open spec fn lines_len(lines: Seq<Seq<u8>>, d: int) -> int
    decreases lines.len(),
{
    if lines.len() == 0 {
        0
    } else {
        lines[0].len() + d + lines_len(lines.skip(1), d)
    }
}

/// Joining accounts for every byte: the joined text is as long as the lines
/// together with one delimiter between each pair.
proof fn lemma_join_len(parts: Seq<Seq<u8>>, d: Seq<u8>)
    requires
        parts.len() >= 1,
    ensures
        join_bytes(parts, d).len() == lines_len(parts, d.len() as int) - d.len(),
    decreases parts.len(),
{
    if parts.len() == 1 {
        assert(lines_len(parts.skip(1), d.len() as int) == 0);
    } else {
        lemma_join_len(parts.skip(1), d);
    }
}

/// The rows of all lines together stay within the total bytes plus one row
/// per line, and are never negative.
proof fn lemma_rows_sum_bound(lines: Seq<Seq<u8>>, w: int)
    requires
        w >= 1,
    ensures
        rows_sum(lines, w) <= lines_len(lines, 1),
        rows_sum(lines, w) >= 0,
    decreases lines.len(),
{
    if lines.len() > 0 {
        lemma_rows_sum_bound(lines.skip(1), w);
        lemma_line_rows_bound(lines[0], w);
    }
}

/// A text's wrapped row count never exceeds its byte length plus one.
pub proof fn lemma_wrapped_lines_bound(text: Seq<u8>, w: int)
    requires
        w >= 1,
    ensures
        0 <= wrapped_lines_spec(text, w) <= text.len() + 1,
{
    let lines = split_bytes(text, seq![10u8]);
    lemma_split_nonempty(text, seq![10u8]);
    lemma_split_join(text, seq![10u8]);
    lemma_join_len(lines, seq![10u8]);
    lemma_rows_sum_bound(lines, w);
}

/// The number of visual rows one line occupies at width `width`.
fn line_rows_exec(line: &Vec<u8>, width: usize) -> (r: usize)
    requires
        width >= 1,
    ensures
        r == line_rows(line@, width as int),
{
    let len = line.len();
    let mut pos: usize = 0;
    let mut rows: usize = 0;
    proof {
        assert(line@.skip(0) =~= line@);
        lemma_line_rows_bound(line@, width as int);
    }
    loop
        invariant
            width >= 1,
            len == line@.len(),
            0 <= pos <= len,
            rows + line_rows(line@.skip(pos as int), width as int) == line_rows(
                line@,
                width as int,
            ),
            rows <= pos,
            line_rows(line@.skip(pos as int), width as int) >= 1,
        ensures
            rows + line_rows(line@.skip(pos as int), width as int) == line_rows(
                line@,
                width as int,
            ),
            len - pos <= width,
            rows <= pos <= len,
            line_rows(line@.skip(pos as int), width as int) >= 1,
        decreases len - pos,
    {
        if len - pos <= width {
            break ;
        }
        let ghost tail = line@.skip(pos as int);
        // find the last space in the first `width` bytes of the rest
        let mut cut: usize = width;
        let mut t: usize = width;
        loop
            invariant_except_break
                cut == width,
            invariant
                width >= 1,
                len == line@.len(),
                pos + width < len,
                0 <= t <= width,
                tail == line@.skip(pos as int),
                forall|u: int| t <= u < width ==> tail[u] != 32,
            ensures
                cut as int == break_len(tail, width as int),
            decreases t,
        {
            if t == 0 {
                proof {
                    lemma_last_space(tail, width as int);
                    if let Some(j) = last_space(tail, width as int) {
                        assert(tail[j] != 32);
                    }
                }
                break ;
            }
            proof {
                assert(tail[t - 1] == line@[pos + t - 1]);
            }
            if line[pos + t - 1] == 32 {
                cut = t;
                proof {
                    lemma_last_space(tail, width as int);
                    match last_space(tail, width as int) {
                        Some(j) => {
                            if j > t - 1 {
                                assert(tail[j] != 32);
                            }
                            if j < t - 1 {
                                assert(tail[t - 1] != 32);
                            }
                        },
                        None => {
                            assert(tail[t - 1] != 32);
                        },
                    }
                }
                break ;
            }
            t -= 1;
        }
        proof {
            lemma_last_space(tail, width as int);
            assert(1 <= cut <= width);
            assert(tail.len() > width);
            assert(line_rows(tail, width as int) == 1 + line_rows(
                tail.skip(cut as int),
                width as int,
            ));
            assert(tail.skip(cut as int) =~= line@.skip(pos + cut));
            lemma_line_rows_bound(line@.skip(pos + cut), width as int);
        }
        pos = pos + cut;
        rows = rows + 1;
    }
    proof {
        assert(line_rows(line@.skip(pos as int), width as int) == 1);
        lemma_line_rows_bound(line@, width as int);
        assert(rows + 1 == line_rows(line@, width as int));
    }
    rows + 1
}

/// The number of visual rows `text` occupies in a pane `width` bytes wide:
/// each newline-separated line wraps after the last space within the width,
/// or hard at the width when it has no space there. An empty line still
/// occupies one row.
pub fn calculate_wrapped_lines(text: &str, width: u16) -> (r: usize)
    requires
        width >= 1,
        text.spec_bytes().len() < usize::MAX,
    ensures
        r == wrapped_lines_spec(text.spec_bytes(), width as int),
{
    let bytes = text.as_bytes();
    let n = bytes.len();
    let mut buf: Vec<u8> = Vec::new();
    let mut i: usize = 0;
    proof {
        assert(buf@ =~= bytes@.take(0));
    }
    while i < n
        invariant
            n == bytes@.len(),
            0 <= i <= n,
            buf@ == bytes@.take(i as int),
        decreases n - i,
    {
        buf.push(bytes[i]);
        proof {
            assert(bytes@.take(i + 1) =~= bytes@.take(i as int).push(bytes@[i as int]));
        }
        i += 1;
    }
    proof {
        assert(bytes@.take(n as int) =~= bytes@);
    }
    let mut nl: Vec<u8> = Vec::new();
    nl.push(10u8);
    proof {
        assert(nl@ =~= seq![10u8]);
    }
    let lines = split_key(&buf, &nl);
    let ghost lvs = views_of(lines@);
    let w = width as usize;
    let mut total: usize = 0;
    let mut j: usize = 0;
    proof {
        assert(lvs.skip(0) =~= lvs);
        lemma_wrapped_lines_bound(buf@, w as int);
    }
    while j < lines.len()
        invariant
            width >= 1,
            w == width,
            lvs == views_of(lines@),
            lvs == split_bytes(buf@, seq![10u8]),
            0 <= j <= lines@.len(),
            total + rows_sum(lvs.skip(j as int), w as int) == wrapped_lines_spec(buf@, w as int),
            0 <= wrapped_lines_spec(buf@, w as int) <= usize::MAX,
            rows_sum(lvs.skip(j as int), w as int) >= 0,
            total >= 0,
        decreases lines@.len() - j,
    {
        let r = line_rows_exec(&lines[j], w);
        proof {
            assert(lvs.skip(j as int)[0] == lvs[j as int]);
            assert(lvs.skip(j as int).skip(1) =~= lvs.skip(j + 1));
            assert(rows_sum(lvs.skip(j as int), w as int) == line_rows(lvs[j as int], w as int)
                + rows_sum(lvs.skip(j + 1), w as int));
            crate::wrap::lemma_rows_sum_bound_call(lvs.skip(j + 1), w as int);
            lemma_line_rows_bound(lvs[j as int], w as int);
        }
        total = total + r;
        j += 1;
    }
    proof {
        assert(lvs.skip(lines@.len() as int) =~= Seq::<Seq<u8>>::empty());
    }
    total
}

/// The rows of a line suffix are never negative (restated for callers of the
/// summing loop).
proof fn lemma_rows_sum_bound_call(lines: Seq<Seq<u8>>, w: int)
    requires
        w >= 1,
    ensures
        rows_sum(lines, w) >= 0,
{
    lemma_rows_sum_bound(lines, w);
}

} // verus!
