//! What is new in a log file since the last processed offset: whether the
//! file changed, where reading resumes, and the split of the freshly read
//! bytes into complete lines, each with the offset just past it.

use crate::text::{chars_of, string_of, strip_trailing, strip_trailing_chars};
use vstd::prelude::*;
use vstd::slice::slice_subrange;

verus! {

/// Whether a file of size `file_len` (`None` when its size could not be
/// read) may hold something not yet processed at `offset`: a size that
/// differs from the offset means new data or a file that was replaced by a
/// shorter one; an unreadable size is left for the read itself to report.
pub fn content_changed(file_len: Option<u64>, offset: u64) -> (changed: bool)
    ensures
        changed == match file_len {
            Some(len) => len != offset,
            None => true,
        },
{
    match file_len {
        Some(len) => len != offset,
        None => true,
    }
}

/// Where to resume reading a file of size `file_len`: at `offset`, unless
/// the file is now shorter than that (it was rotated or overwritten), in
/// which case from its start.
pub fn resume_offset(file_len: u64, offset: u64) -> (start: u64)
    ensures
        start == (if file_len < offset {
            0
        } else {
            offset
        }),
        start <= file_len,
{
    if file_len < offset {
        0
    } else {
        offset
    }
}

/// The character string that `String::from_utf8_lossy` makes of `bytes`.
pub uninterp spec fn utf8_lossy(bytes: Seq<u8>) -> Seq<char>;

/// `String::from_utf8_lossy`, made an owned `String`. Claimed: the result
/// is the lossy decoding of the bytes (named [`utf8_lossy`]), and for
/// valid UTF-8 it is exactly the decoded text, as the documentation says.
/// How invalid sequences are replaced is not stated.
#[verifier::external_body]
fn decode_utf8_lossy(bytes: &[u8]) -> (s: String)
    ensures
        s@ == utf8_lossy(bytes@),
        vstd::utf8::valid_utf8(bytes@) ==> s@ == vstd::utf8::decode_utf8(bytes@),
{
    String::from_utf8_lossy(bytes).into_owned()
}

/// The line feed byte.
pub open spec fn newline() -> u8 {
    10
}

/// Index of the first line feed in `b`.
pub open spec fn first_newline(b: Seq<u8>) -> Option<int>
    decreases b.len(),
{
    if b.len() == 0 {
        None
    } else if b[0] == newline() {
        Some(0)
    } else {
        match first_newline(b.drop_first()) {
            Some(i) => Some(i + 1),
            None => None,
        }
    }
}

/// The text of a line: its bytes decoded leniently, without trailing `\r`.
pub open spec fn line_text(bytes: Seq<u8>) -> Seq<char> {
    strip_trailing(utf8_lossy(bytes), '\r')
}

/// The complete lines (those ended by a line feed) of `b`, read at file
/// offset `offset`, each with the file offset just past its line feed.
/// Bytes after the last line feed form no line.
pub open spec fn new_lines(b: Seq<u8>, offset: int) -> Seq<(Seq<char>, int)>
    decreases b.len(),
{
    match first_newline(b) {
        Some(i) => if 0 <= i < b.len() {
            seq![(line_text(b.take(i)), offset + i + 1)] + new_lines(b.skip(i + 1), offset + i + 1)
        } else {
            Seq::empty()
        },
        None => Seq::empty(),
    }
}

/// The bytes of each complete line of `b` (without its line feed), in the
/// order [`new_lines`] gives the lines.
pub open spec fn complete_line_bytes(b: Seq<u8>) -> Seq<Seq<u8>>
    decreases b.len(),
{
    match first_newline(b) {
        Some(i) => if 0 <= i < b.len() {
            seq![b.take(i)] + complete_line_bytes(b.skip(i + 1))
        } else {
            Seq::empty()
        },
        None => Seq::empty(),
    }
}

/// A list of (line, offset) pairs with its texts as character sequences.
pub open spec fn lines_view(v: Seq<(String, u64)>) -> Seq<(Seq<char>, int)> {
    v.map_values(|p: (String, u64)| (p.0@, p.1 as int))
}

/// Where [`first_newline`] points.
pub proof fn lemma_first_newline(b: Seq<u8>)
    ensures
        match first_newline(b) {
            Some(i) => 0 <= i < b.len() && b[i] == newline() && forall|j: int|
                0 <= j < i ==> #[trigger] b[j] != newline(),
            None => forall|j: int| 0 <= j < b.len() ==> #[trigger] b[j] != newline(),
        },
    decreases b.len(),
{
    if b.len() > 0 && b[0] != newline() {
        lemma_first_newline(b.drop_first());
        match first_newline(b.drop_first()) {
            Some(i) => {
                assert forall|j: int| 0 <= j < i + 1 implies #[trigger] b[j] != newline() by {
                    if j > 0 {
                        assert(b[j] == b.drop_first()[j - 1]);
                    }
                }
            },
            None => {
                assert forall|j: int| 0 <= j < b.len() implies #[trigger] b[j] != newline() by {
                    if j > 0 {
                        assert(b[j] == b.drop_first()[j - 1]);
                    }
                }
            },
        }
    }
}

proof fn lemma_first_newline_at(b: Seq<u8>, i: int)
    requires
        0 <= i < b.len(),
        b[i] == newline(),
        forall|j: int| 0 <= j < i ==> #[trigger] b[j] != newline(),
    ensures
        first_newline(b) == Some(i),
{
    lemma_first_newline(b);
    match first_newline(b) {
        Some(k) => {
            if k < i {
                assert(b[k] != newline());
            } else if k > i {
                assert(b[i] != newline());
            }
        },
        None => {
            assert(b[i] != newline());
        },
    }
}

proof fn lemma_no_newline(b: Seq<u8>)
    requires
        forall|j: int| 0 <= j < b.len() ==> #[trigger] b[j] != newline(),
    ensures
        first_newline(b) is None,
{
    lemma_first_newline(b);
    match first_newline(b) {
        Some(k) => {
            assert(b[k] != newline());
        },
        None => {},
    }
}

/// The complete lines of `buf`, the bytes of a file from offset `offset`
/// on: see [`new_lines`]. The offset given with each line is where the
/// next line starts, so processing may stop after any line and resume
/// there without losing or repeating one.
pub fn split_new_lines(buf: &[u8], offset: u64) -> (lines: Vec<(String, u64)>)
    requires
        offset + buf@.len() <= u64::MAX,
    ensures
        lines_view(lines@) == new_lines(buf@, offset as int),
        lines@.len() == complete_line_bytes(buf@).len(),
        forall|k: int|
            0 <= k < lines@.len() && vstd::utf8::valid_utf8(#[trigger] complete_line_bytes(buf@)[k])
                ==> lines@[k].0@ == strip_trailing(
                vstd::utf8::decode_utf8(complete_line_bytes(buf@)[k]),
                '\r',
            ),
{
    let n = buf.len();
    let mut out: Vec<(String, u64)> = Vec::new();
    let mut start: usize = 0;
    let mut i: usize = 0;
    let ghost done: Seq<Seq<u8>> = Seq::empty();
    assert(buf@.skip(0) =~= buf@);
    while i < n
        invariant
            n == buf@.len(),
            done + complete_line_bytes(buf@.skip(start as int)) == complete_line_bytes(buf@),
            done.len() == out@.len(),
            forall|k: int|
                0 <= k < out@.len() && vstd::utf8::valid_utf8(#[trigger] done[k]) ==> out@[k].0@
                    == strip_trailing(vstd::utf8::decode_utf8(done[k]), '\r'),
            offset + n <= u64::MAX,
            start <= i <= n,
            forall|j: int| start <= j < i ==> #[trigger] buf@[j] != newline(),
            lines_view(out@) + new_lines(buf@.skip(start as int), offset + start) == new_lines(
                buf@,
                offset as int,
            ),
        decreases n - i,
    {
        if buf[i] == 10 {
            let ghost rest = buf@.skip(start as int);
            proof {
                assert forall|j: int| 0 <= j < i - start implies #[trigger] rest[j] != newline() by {
                    assert(rest[j] == buf@[j + start]);
                }
                lemma_first_newline_at(rest, i - start);
                assert(rest.take(i - start) =~= buf@.subrange(start as int, i as int));
                assert(rest.skip(i - start + 1) =~= buf@.skip(i + 1));
            }
            let piece = slice_subrange(buf, start, i);
            let decoded = decode_utf8_lossy(piece);
            let trimmed = strip_trailing_chars(&chars_of(decoded.as_str()), '\r');
            let line = string_of(&trimmed);
            let next: u64 = offset + i as u64 + 1;
            let ghost before = lines_view(out@);
            let ghost done_before = done;
            out.push((line, next));
            proof {
                assert(complete_line_bytes(rest) == seq![rest.take(i - start)]
                    + complete_line_bytes(rest.skip(i - start + 1)));
                done = done.push(buf@.subrange(start as int, i as int));
                assert(done + complete_line_bytes(buf@.skip(i + 1)) =~= done_before
                    + complete_line_bytes(rest));
                assert forall|k: int|
                    0 <= k < out@.len() && vstd::utf8::valid_utf8(#[trigger] done[k]) implies out@[k].0@
                    == strip_trailing(vstd::utf8::decode_utf8(done[k]), '\r') by {
                    if k < out@.len() - 1 {
                        assert(done[k] == done_before[k]);
                    } else {
                        assert(done[k] == piece@);
                    }
                }
                assert(lines_view(out@) =~= before.push((line_text(buf@.subrange(start as int, i as int)), next as int)));
                assert(new_lines(rest, offset + start) == seq![
                    (line_text(rest.take(i - start)), offset + i + 1),
                ] + new_lines(rest.skip(i - start + 1), offset + i + 1));
                assert(lines_view(out@) + new_lines(buf@.skip(i + 1), offset + i + 1) =~= before
                    + new_lines(rest, offset + start));
            }
            start = i + 1;
        }
        i = i + 1;
    }
    proof {
        let rest = buf@.skip(start as int);
        assert forall|j: int| 0 <= j < rest.len() implies #[trigger] rest[j] != newline() by {
            assert(rest[j] == buf@[j + start]);
        }
        lemma_no_newline(rest);
        assert(lines_view(out@) + Seq::<(Seq<char>, int)>::empty() =~= lines_view(out@));
        assert(done + Seq::<Seq<u8>>::empty() =~= done);
    }
    out
}

/// Every returned offset lies past `offset` and within the bytes read, the
/// offsets strictly increase, and no line feed follows the last one: a
/// trailing line still being written is never returned.
pub proof fn lemma_new_lines_offsets(b: Seq<u8>, offset: int)
    ensures
        forall|k: int|
            0 <= k < new_lines(b, offset).len() ==> offset < #[trigger] new_lines(b, offset)[k].1
                <= offset + b.len(),
        forall|j: int, k: int|
            0 <= j < k < new_lines(b, offset).len() ==> #[trigger] new_lines(b, offset)[j].1
                < #[trigger] new_lines(b, offset)[k].1,
        ({
            let res = new_lines(b, offset);
            let end = if res.len() == 0 {
                offset
            } else {
                res.last().1
            };
            forall|j: int| end - offset <= j < b.len() ==> #[trigger] b[j] != newline()
        }),
    decreases b.len(),
{
    lemma_first_newline(b);
    match first_newline(b) {
        Some(i) => {
            let rest = b.skip(i + 1);
            lemma_new_lines_offsets(rest, offset + i + 1);
            let res = new_lines(b, offset);
            let tail = new_lines(rest, offset + i + 1);
            assert(res == seq![(line_text(b.take(i)), offset + i + 1)] + tail);
            assert forall|k: int| 0 <= k < res.len() implies offset < #[trigger] res[k].1 <= offset
                + b.len() by {
                if k > 0 {
                    assert(res[k] == tail[k - 1]);
                }
            }
            assert forall|j: int, k: int| 0 <= j < k < res.len() implies #[trigger] res[j].1
                < #[trigger] res[k].1 by {
                assert(res[k] == tail[k - 1]);
                if j > 0 {
                    assert(res[j] == tail[j - 1]);
                }
            }
            let end = if res.len() == 0 {
                offset
            } else {
                res.last().1
            };
            assert forall|j: int| end - offset <= j < b.len() implies #[trigger] b[j] != newline() by {
                if tail.len() == 0 {
                    assert(end == offset + i + 1);
                    assert(b[j] == rest[j - i - 1]);
                } else {
                    assert(res.last() == tail.last());
                    assert(b[j] == rest[j - i - 1]);
                }
            }
        },
        None => {},
    }
}

/// Resuming: reading again from the offset returned with the `k`-th line
/// gives exactly the lines after it.
pub proof fn lemma_resume_after_line(b: Seq<u8>, offset: int, k: int)
    requires
        0 <= k < new_lines(b, offset).len(),
    ensures
        new_lines(b.skip(new_lines(b, offset)[k].1 - offset), new_lines(b, offset)[k].1)
            == new_lines(b, offset).skip(k + 1),
    decreases b.len(),
{
    lemma_first_newline(b);
    let i = first_newline(b)->0;
    let rest = b.skip(i + 1);
    let res = new_lines(b, offset);
    let tail = new_lines(rest, offset + i + 1);
    assert(res == seq![(line_text(b.take(i)), offset + i + 1)] + tail);
    if k == 0 {
        assert(res.skip(1) =~= tail);
    } else {
        lemma_new_lines_offsets(rest, offset + i + 1);
        lemma_resume_after_line(rest, offset + i + 1, k - 1);
        assert(res[k] == tail[k - 1]);
        assert(rest.skip(tail[k - 1].1 - (offset + i + 1)) =~= b.skip(res[k].1 - offset));
        assert(res.skip(k + 1) =~= tail.skip(k));
    }
}

/// Appending bytes to a file never changes the lines already found in it:
/// the lines of `b` are a prefix of the lines of `b` followed by `extra`.
pub proof fn lemma_growth_keeps_lines(b: Seq<u8>, extra: Seq<u8>, offset: int)
    ensures
        new_lines(b, offset).len() <= new_lines(b + extra, offset).len(),
        new_lines(b + extra, offset).take(new_lines(b, offset).len() as int) == new_lines(
            b,
            offset,
        ),
    decreases b.len(),
{
    lemma_first_newline(b);
    match first_newline(b) {
        Some(i) => {
            let be = b + extra;
            assert forall|j: int| 0 <= j < i implies #[trigger] be[j] != newline() by {
                assert(be[j] == b[j]);
            }
            lemma_first_newline_at(be, i);
            assert(be.take(i) =~= b.take(i));
            assert(be.skip(i + 1) =~= b.skip(i + 1) + extra);
            lemma_growth_keeps_lines(b.skip(i + 1), extra, offset + i + 1);
            let head = seq![(line_text(b.take(i)), offset + i + 1)];
            let t1 = new_lines(b.skip(i + 1), offset + i + 1);
            let t2 = new_lines(b.skip(i + 1) + extra, offset + i + 1);
            assert(new_lines(b, offset) == head + t1);
            assert(new_lines(be, offset) == head + t2);
            assert((head + t2).take((head + t1).len() as int) =~= head + t2.take(t1.len() as int));
        },
        None => {
            assert(new_lines(b + extra, offset).take(0) =~= Seq::<(Seq<char>, int)>::empty());
        },
    }
}

} // verus!
